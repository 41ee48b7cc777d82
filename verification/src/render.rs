//! The indented forest: one line for each node, and below it, four dashes
//! deeper, the subtree of each of its dependencies.

use crate::dag::{texts, DistributionName, Requirement};
use crate::graph::{
    has_node, installed, position, roots, top_level_distributions, DependencyDag, Nodes,
};
use vstd::prelude::*;
use vstd::set_lib::{lemma_int_range, lemma_len_subset, set_int_range};
use vstd::string::*;

verus! {

/// A run of `level` dashes.
pub open spec fn dashes(level: nat) -> Seq<char> {
    Seq::new(level, |i: int| '-')
}

/// What a line says of the versions: the installed one, and before it the
/// required one where the node was reached as a dependency.
pub open spec fn versions_text(required: Option<Seq<char>>, installed: Seq<char>) -> Seq<char> {
    match required {
        Some(text) => " [required="@ + text + ", installed="@ + installed + "]"@,
        None => " [installed="@ + installed + "]"@,
    }
}

/// The line of a node: the dashes of its level, its name, and its versions.
pub open spec fn node_line(
    name: Seq<char>,
    required: Option<Seq<char>>,
    installed: Seq<char>,
    level: nat,
) -> Seq<char> {
    dashes(level) + name + versions_text(required, installed)
}

/// What stands for the installed version of a distribution that is required
/// but has no node.
pub open spec fn not_installed() -> Seq<char> {
    "Not-installed"@
}

/// What is put behind the line of a node that is met again below itself.
pub open spec fn cycle_mark() -> Seq<char> {
    " (cycle)"@
}

/// The lines of the tree below `name`.
///
/// `path` holds the positions of the nodes between the root and this one. A
/// distribution without a node gets one line, with `not_installed` as its
/// version. A node that is on the path already gets one line that ends in
/// `cycle_mark`, and is not descended into again. Every other node gets its
/// line, followed by the trees of its dependencies, four levels deeper.
pub open spec fn rendered(
    nodes: Nodes,
    name: Seq<char>,
    required: Option<Seq<char>>,
    level: nat,
    path: Seq<int>,
) -> Seq<Seq<char>>
    decreases nodes.len() - path.len(), 0nat, 0nat,
    when is_path(path, nodes.len())
    via rendered_decreases
{
    let p = position(nodes, name);
    if !has_node(nodes, name) {
        seq![node_line(name, required, not_installed(), level)]
    } else if path.contains(p) {
        seq![node_line(name, required, nodes[p].1.installed_version, level) + cycle_mark()]
    } else {
        seq![node_line(name, required, nodes[p].1.installed_version, level)] + rendered_all(
            nodes,
            nodes[p].1.dependencies,
            level + 4,
            path.push(p),
        )
    }
}

#[via_fn]
proof fn rendered_decreases(
    nodes: Nodes,
    name: Seq<char>,
    required: Option<Seq<char>>,
    level: nat,
    path: Seq<int>,
) {
    let p = position(nodes, name);
    if has_node(nodes, name) && !path.contains(p) {
        crate::graph::lemma_position_from(nodes, name, 0);
        lemma_path_has_room(path, nodes.len(), p);
    }
}

/// The lines of the trees below each of the requirements, in their order.
pub open spec fn rendered_all(
    nodes: Nodes,
    requirements: Seq<Requirement>,
    level: nat,
    path: Seq<int>,
) -> Seq<Seq<char>>
    decreases nodes.len() - path.len(), 1nat, requirements.len(),
    when is_path(path, nodes.len())
{
    if requirements.len() == 0 {
        Seq::empty()
    } else {
        rendered_all(nodes, requirements.drop_last(), level, path) + rendered(
            nodes,
            requirements.last().0,
            Some(requirements.last().1),
            level,
            path,
        )
    }
}

/// The lines of the whole forest: the tree of each of the given roots, at
/// level 0.
pub open spec fn rendered_forest(nodes: Nodes, names: Seq<Seq<char>>) -> Seq<Seq<char>>
    decreases names.len(),
{
    if names.len() == 0 {
        Seq::empty()
    } else {
        rendered_forest(nodes, names.drop_last()) + rendered(
            nodes,
            names.last(),
            None,
            0,
            Seq::empty(),
        )
    }
}

/// Whether `path` holds positions of a graph of `n` nodes, none of them twice.
pub open spec fn is_path(path: Seq<int>, n: nat) -> bool {
    path.no_duplicates() && forall|i: int| 0 <= i < path.len() ==> 0 <= #[trigger] path[i] < n
}

/// A path that lacks a position of the graph is shorter than the graph.
pub proof fn lemma_path_has_room(path: Seq<int>, n: nat, p: int)
    requires
        is_path(path, n),
        0 <= p < n,
        !path.contains(p),
    ensures
        path.len() < n,
        is_path(path.push(p), n),
{
    let longer = path.push(p);
    longer.unique_seq_to_set();
    lemma_int_range(0, n as int);
    lemma_len_subset(longer.to_set(), set_int_range(0, n as int));
}

/// A distribution that is required but has no node is not left out and is no
/// error: it gets one line, with `not_installed` in place of its version.
pub proof fn lemma_rendered_not_installed(
    nodes: Nodes,
    name: Seq<char>,
    required: Option<Seq<char>>,
    level: nat,
    path: Seq<int>,
)
    requires
        is_path(path, nodes.len()),
        !has_node(nodes, name),
    ensures
        rendered(nodes, name, required, level, path) == seq![
            node_line(name, required, not_installed(), level),
        ],
{
}

/// The tree of a root: its line at level 0, without a required version, and
/// below it the trees of its dependencies at level 4.
pub proof fn lemma_rendered_root(nodes: Nodes, name: Seq<char>)
    requires
        has_node(nodes, name),
    ensures
        rendered(nodes, name, None, 0, Seq::empty()) == seq![
            node_line(name, None, installed(nodes, name).unwrap().installed_version, 0),
        ] + rendered_all(
            nodes,
            installed(nodes, name).unwrap().dependencies,
            4,
            seq![position(nodes, name)],
        ),
{
    crate::graph::lemma_position_from(nodes, name, 0);
}

/// The positions that a path holds.
pub open spec fn positions(path: Seq<usize>) -> Seq<int> {
    path.map_values(|p: usize| p as int)
}

/// The text of an optional string.
pub open spec fn optional_text(text: Option<&str>) -> Option<Seq<char>> {
    match text {
        Some(t) => Some(t@),
        None => None,
    }
}

/// A string of `level` dashes.
fn dashes_text(level: usize) -> (result: String)
    ensures
        result@ == dashes(level as nat),
{
    let mut result = String::new();
    let mut i: usize = 0;
    while i < level
        invariant
            i <= level,
            result@ == dashes(i as nat),
        decreases level - i,
    {
        result.append("-");
        i += 1;
        proof {
            reveal_strlit("-");
        }
    }
    result
}

/// Writes `node_line`.
fn node_line_text(name: &str, required: Option<&str>, installed: &str, level: usize) -> (result:
    String)
    ensures
        result@ == node_line(name@, optional_text(required), installed@, level as nat),
{
    let mut result = dashes_text(level);
    result.append(name);
    match required {
        Some(text) => {
            result.append(" [required=");
            result.append(text);
            result.append(", installed=");
            result.append(installed);
            result.append("]");
        },
        None => {
            result.append(" [installed=");
            result.append(installed);
            result.append("]");
        },
    }
    result
}

/// Whether a path holds a position.
fn on_path(path: &Vec<usize>, p: usize) -> (result: bool)
    ensures
        result == positions(path@).contains(p as int),
{
    let mut i: usize = 0;
    while i < path.len()
        invariant
            i <= path@.len(),
            forall|j: int| 0 <= j < i ==> positions(path@)[j] != p as int,
        decreases path@.len() - i,
    {
        if path[i] == p {
            proof {
                assert(positions(path@)[i as int] == p as int);
            }
            return true;
        }
        i += 1;
    }
    false
}

/// Appends the lines of the tree below `node_name` to `out`.
fn render_node(
    dag: &DependencyDag,
    node_name: &str,
    node_required_ver: Option<&str>,
    level: usize,
    path: &mut Vec<usize>,
    out: &mut Vec<String>,
)
    requires
        is_path(positions(old(path)@), dag@.len()),
        old(path)@.len() <= dag@.len(),
        level + 4 * (dag@.len() - old(path)@.len()) <= usize::MAX,
    ensures
        final(path)@ == old(path)@,
        texts(final(out)@) == texts(old(out)@) + rendered(
            dag@,
            node_name@,
            optional_text(node_required_ver),
            level as nat,
            positions(old(path)@),
        ),
    decreases dag@.len() - old(path)@.len(),
{
    let p = dag.find(node_name);
    if p >= dag.len() {
        let line = node_line_text(node_name, node_required_ver, "Not-installed", level);
        out.push(line);
        return ;
    }
    let val = dag.meta_at(p);
    let mut line = node_line_text(
        node_name,
        node_required_ver,
        val.installed_version.as_str(),
        level,
    );
    if on_path(path, p) {
        line.append(" (cycle)");
        out.push(line);
        return ;
    }
    proof {
        assert(positions(path@.push(p)) =~= positions(path@).push(p as int));
        lemma_path_has_room(positions(path@), dag@.len(), p as int);
    }
    out.push(line);
    path.push(p);
    let ghost first = texts(out@);
    let ghost requirements = val.dependencies@;
    let mut k: usize = 0;
    while k < val.dependencies.len()
        invariant
            k <= val.dependencies@.len(),
            requirements == val.dependencies@,
            path@ == old(path)@.push(p),
            path@.len() <= dag@.len(),
            is_path(positions(path@), dag@.len()),
            level + 4 * (dag@.len() - old(path)@.len()) <= usize::MAX,
            texts(out@) == first + rendered_all(
                dag@,
                requirements.take(k as int),
                (level + 4) as nat,
                positions(path@),
            ),
        decreases val.dependencies@.len() - k,
    {
        let dep = val.dependencies.at(k);
        proof {
            assert(requirements.take(k + 1).drop_last() =~= requirements.take(k as int));
        }
        render_node(
            dag,
            dep.name.as_str(),
            Some(dep.required_version.as_str()),
            level + 4,
            path,
            out,
        );
        k += 1;
    }
    proof {
        assert(requirements.take(k as int) =~= requirements);
    }
    path.pop();
}

/// The lines of the tree below `node_name`, which stands at `level`.
///
/// `node_required_ver` is the requirement text by which the node was reached,
/// if it was reached as a dependency. The level may not be so large that the
/// deepest line could not be indented.
pub fn render_dag(
    dag: &DependencyDag,
    node_name: &DistributionName,
    node_required_ver: Option<&String>,
    level: usize,
) -> (lines: Vec<String>)
    requires
        level + 4 * dag@.len() <= usize::MAX,
    ensures
        texts(lines@) == rendered(
            dag@,
            node_name@,
            match node_required_ver {
                Some(text) => Some(text@),
                None => None,
            },
            level as nat,
            Seq::empty(),
        ),
{
    let mut lines: Vec<String> = Vec::new();
    let mut path: Vec<usize> = Vec::new();
    let required = match node_required_ver {
        Some(text) => Some(text.as_str()),
        None => None,
    };
    proof {
        assert(positions(path@) =~= Seq::<int>::empty());
    }
    render_node(dag, node_name.as_str(), required, level, &mut path, &mut lines);
    lines
}

/// The lines of the forest of a graph: the tree of every top-level
/// distribution, each at level 0, in the order of the nodes.
pub fn render_forest(dag: &DependencyDag) -> (lines: Vec<String>)
    requires
        4 * dag@.len() <= usize::MAX,
    ensures
        texts(lines@) == rendered_forest(dag@, roots(dag@)),
{
    let top_level = top_level_distributions(dag);
    let ghost names = texts(top_level@);
    let mut lines: Vec<String> = Vec::new();
    let mut path: Vec<usize> = Vec::new();
    let mut i: usize = 0;
    while i < top_level.len()
        invariant
            i <= top_level@.len(),
            names == texts(top_level@),
            4 * dag@.len() <= usize::MAX,
            path@.len() == 0,
            positions(path@) == Seq::<int>::empty(),
            texts(lines@) == rendered_forest(dag@, names.take(i as int)),
        decreases top_level@.len() - i,
    {
        proof {
            assert(names.take(i + 1).drop_last() =~= names.take(i as int));
        }
        render_node(dag, top_level[i].as_str(), None, 0, &mut path, &mut lines);
        i += 1;
    }
    proof {
        assert(names.take(i as int) =~= names);
    }
    lines
}

} // verus!

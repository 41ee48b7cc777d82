//! The dependency graph: one node for each installed distribution, found by
//! its canonical name, and the distributions that nothing else requires.

use crate::dag::{
    lemma_node_meta_wf, node_failure, node_from_file_iter, node_meta, node_name, texts,
    DistributionMeta, DistributionMetaView, DistributionName,
};
use crate::error::NodeError;
use crate::utils::{header, header_lines, same_text};
use vstd::prelude::*;

verus! {

/// The nodes of a graph as texts: canonical name and record, in the order in
/// which the names were first inserted.
pub type Nodes = Seq<(Seq<char>, DistributionMetaView)>;

/// The first position from `i` on at which a node is named `name`; the number
/// of nodes where there is none.
pub open spec fn position_from(nodes: Nodes, name: Seq<char>, i: int) -> int
    decreases nodes.len() - i,
{
    if 0 <= i < nodes.len() && nodes[i].0 != name {
        position_from(nodes, name, i + 1)
    } else {
        i
    }
}

/// The position of the node named `name`; the number of nodes where there is
/// none.
pub open spec fn position(nodes: Nodes, name: Seq<char>) -> int {
    position_from(nodes, name, 0)
}

/// Whether a node is named `name`.
pub open spec fn has_node(nodes: Nodes, name: Seq<char>) -> bool {
    position(nodes, name) < nodes.len()
}

/// The record of the node named `name`, if there is one.
pub open spec fn installed(nodes: Nodes, name: Seq<char>) -> Option<DistributionMetaView> {
    if has_node(nodes, name) {
        Some(nodes[position(nodes, name)].1)
    } else {
        None
    }
}

/// The nodes after an insertion: a node of that name gets the new record in
/// its place, a new name comes last.
pub open spec fn with_node(nodes: Nodes, name: Seq<char>, meta: DistributionMetaView) -> Nodes {
    if has_node(nodes, name) {
        nodes.update(position(nodes, name), (name, meta))
    } else {
        nodes.push((name, meta))
    }
}

/// No two nodes have the same name, and every record is well formed.
pub open spec fn nodes_wf(nodes: Nodes) -> bool {
    &&& forall|i: int, j: int|
        0 <= i < nodes.len() && 0 <= j < nodes.len() && i != j ==> #[trigger] nodes[i].0
            != #[trigger] nodes[j].0
    &&& forall|i: int| 0 <= i < nodes.len() ==> (#[trigger] nodes[i]).1.wf()
}

/// The position found from `i` lies between `i` and the number of nodes, no
/// node before it is named `name`, and the node at it, if any, is.
pub proof fn lemma_position_from(nodes: Nodes, name: Seq<char>, i: int)
    requires
        0 <= i <= nodes.len(),
    ensures
        i <= position_from(nodes, name, i) <= nodes.len(),
        forall|j: int| i <= j < position_from(nodes, name, i) ==> (#[trigger] nodes[j]).0 != name,
        position_from(nodes, name, i) < nodes.len() ==> nodes[position_from(nodes, name, i)].0
            == name,
    decreases nodes.len() - i,
{
    if i < nodes.len() && nodes[i].0 != name {
        lemma_position_from(nodes, name, i + 1);
    }
}

/// An insertion keeps the nodes well formed; afterwards the inserted name has
/// the inserted record (the last write wins), and every other name has what it
/// had.
pub proof fn lemma_with_node(nodes: Nodes, name: Seq<char>, meta: DistributionMetaView)
    requires
        nodes_wf(nodes),
        meta.wf(),
    ensures
        nodes_wf(with_node(nodes, name, meta)),
        installed(with_node(nodes, name, meta), name) == Some(meta),
        forall|other: Seq<char>|
            other != name ==> #[trigger] installed(with_node(nodes, name, meta), other)
                == installed(nodes, other),
{
    let after = with_node(nodes, name, meta);
    let p = position(nodes, name);
    lemma_position_from(nodes, name, 0);
    lemma_position_from(after, name, 0);
    assert(after[p] == (name, meta));
    assert(position(after, name) == p) by {
        if position(after, name) < p {
            assert(nodes[position(after, name)].0 == after[position(after, name)].0);
        }
    }
    assert(nodes_wf(after)) by {
        assert forall|i: int, j: int|
            0 <= i < after.len() && 0 <= j < after.len() && i != j implies #[trigger] after[i].0
            != #[trigger] after[j].0 by {
            if i != p {
                assert(after[i] == nodes[i]);
            }
            if j != p {
                assert(after[j] == nodes[j]);
            }
        }
        assert forall|i: int| 0 <= i < after.len() implies (#[trigger] after[i]).1.wf() by {
            if i != p {
                assert(after[i] == nodes[i]);
            }
        }
    }
    assert forall|other: Seq<char>| other != name implies #[trigger] installed(after, other)
        == installed(nodes, other) by {
        lemma_position_from(nodes, other, 0);
        lemma_position_from(after, other, 0);
        let a = position(nodes, other);
        let b = position(after, other);
        if a < nodes.len() {
            assert(a != p);
            assert(after[a] == nodes[a]);
        }
        if b < nodes.len() {
            assert(b != p);
            assert(after[b] == nodes[b]);
        }
        if a < b && a < nodes.len() {
            assert(after[a].0 == other);
        }
        if b < a && b < nodes.len() {
            assert(nodes[b].0 == other);
        }
    }
}

/// The dependency graph of an environment.
#[derive(Debug)]
pub struct DependencyDag {
    nodes: Vec<(DistributionName, DistributionMeta)>,
}

impl View for DependencyDag {
    type V = Nodes;

    closed spec fn view(&self) -> Nodes {
        self.nodes@.map_values(|n: (DistributionName, DistributionMeta)| (n.0@, n.1@))
    }
}

impl DependencyDag {
    /// No two nodes have the same name, and every record is well formed.
    pub open spec fn wf(&self) -> bool {
        nodes_wf(self@)
    }

    /// The graph without nodes.
    pub fn new() -> (result: Self)
        ensures
            result@ == Seq::<(Seq<char>, DistributionMetaView)>::empty(),
            result.wf(),
    {
        let result = DependencyDag { nodes: Vec::new() };
        result
    }

    /// The number of nodes.
    pub fn len(&self) -> (result: usize)
        ensures
            result == self@.len(),
    {
        self.nodes.len()
    }

    /// Whether the graph has no node.
    pub fn is_empty(&self) -> (result: bool)
        ensures
            result == (self@.len() == 0),
    {
        self.nodes.len() == 0
    }

    /// The name of the node at a position between 0 and the number of nodes.
    pub fn name_at(&self, i: usize) -> (result: &DistributionName)
        requires
            i < self@.len(),
        ensures
            result@ == self@[i as int].0,
    {
        &self.nodes[i].0
    }

    /// The record of the node at a position between 0 and the number of nodes.
    pub fn meta_at(&self, i: usize) -> (result: &DistributionMeta)
        requires
            i < self@.len(),
        ensures
            result@ == self@[i as int].1,
    {
        &self.nodes[i].1
    }

    /// The position of the node named `name`; the number of nodes where there
    /// is none.
    pub fn find(&self, name: &str) -> (result: usize)
        ensures
            result == position(self@, name@),
            result <= self@.len(),
    {
        let mut i: usize = 0;
        while i < self.nodes.len() && !same_text(self.nodes[i].0.as_str(), name)
            invariant
                i <= self.nodes@.len(),
                position(self@, name@) == position_from(self@, name@, i as int),
            decreases self.nodes@.len() - i,
        {
            i += 1;
        }
        i
    }

    /// The record of the node named `name`, if there is one.
    pub fn get(&self, name: &str) -> (result: Option<&DistributionMeta>)
        ensures
            match result {
                Some(meta) => installed(self@, name@) == Some(meta@),
                None => installed(self@, name@) is None,
            },
    {
        let i = self.find(name);
        if i < self.nodes.len() {
            Some(&self.nodes[i].1)
        } else {
            None
        }
    }

    /// Whether a node is named `name`.
    pub fn contains_key(&self, name: &str) -> (result: bool)
        ensures
            result == has_node(self@, name@),
    {
        self.find(name) < self.nodes.len()
    }

    /// Inserts a node. A node of the same name is overwritten: the last write
    /// wins.
    pub fn insert(&mut self, name: DistributionName, meta: DistributionMeta)
        ensures
            final(self)@ == with_node(old(self)@, name@, meta@),
            old(self).wf() && meta.wf() ==> final(self).wf(),
    {
        let i = self.find(name.as_str());
        proof {
            if old(self).wf() && meta.wf() {
                lemma_with_node(old(self)@, name@, meta@);
            }
        }
        if i < self.nodes.len() {
            self.nodes.set(i, (name, meta));
            proof {
                assert(self@ =~= old(self)@.update(i as int, (name@, meta@)));
            }
        } else {
            self.nodes.push((name, meta));
            proof {
                assert(self@ =~= old(self)@.push((name@, meta@)));
            }
        }
    }
}

/// The texts of the lines of each source.
pub open spec fn source_texts(sources: Seq<Vec<String>>) -> Seq<Seq<Seq<char>>> {
    sources.map_values(|lines: Vec<String>| texts(lines@))
}

/// The error of the first source whose header gives no node, if there is one.
pub open spec fn first_failure(sources: Seq<Seq<Seq<char>>>) -> Option<NodeError>
    decreases sources.len(),
{
    if sources.len() == 0 {
        None
    } else if first_failure(sources.drop_last()) is Some {
        first_failure(sources.drop_last())
    } else {
        node_failure(header(sources.last()))
    }
}

/// The graph that the sources give: the node of each header, inserted in the
/// order of the sources.
pub open spec fn assembled(sources: Seq<Seq<Seq<char>>>) -> Nodes
    decreases sources.len(),
{
    if sources.len() == 0 {
        Seq::empty()
    } else {
        with_node(
            assembled(sources.drop_last()),
            node_name(header(sources.last())),
            node_meta(header(sources.last())),
        )
    }
}

/// Builds the graph of an environment from the lines of the metadata file of
/// each installed distribution. Of each file only the header counts. The first
/// file that gives no node fails the whole graph.
pub fn get_dep_dag_from_env(sources: &[Vec<String>]) -> (result: Result<DependencyDag, NodeError>)
    ensures
        match result {
            Ok(dag) => {
                &&& first_failure(source_texts(sources@)) is None
                &&& dag@ == assembled(source_texts(sources@))
                &&& dag.wf()
            },
            Err(e) => first_failure(source_texts(sources@)) == Some(e),
        },
{
    let mut dependency_dag = DependencyDag::new();
    let ghost all = source_texts(sources@);
    let mut i: usize = 0;
    while i < sources.len()
        invariant
            i <= sources@.len(),
            all == source_texts(sources@),
            first_failure(all.take(i as int)) is None,
            dependency_dag@ == assembled(all.take(i as int)),
            dependency_dag.wf(),
        decreases sources@.len() - i,
    {
        proof {
            assert(all.take(i + 1).drop_last() =~= all.take(i as int));
        }
        let lines = header_lines(sources[i].as_slice());
        match node_from_file_iter(lines) {
            Ok((name, meta)) => {
                dependency_dag.insert(name, meta);
            },
            Err(e) => {
                proof {
                    lemma_first_failure_stays(all, i + 1);
                }
                return Err(e);
            },
        }
        i += 1;
    }
    proof {
        assert(all.take(i as int) =~= all);
    }
    Ok(dependency_dag)
}

/// A failure among the first `n` sources is the failure of them all.
pub proof fn lemma_first_failure_stays(sources: Seq<Seq<Seq<char>>>, n: int)
    requires
        0 <= n <= sources.len(),
        first_failure(sources.take(n)) is Some,
    ensures
        first_failure(sources) == first_failure(sources.take(n)),
    decreases sources.len() - n,
{
    if n < sources.len() {
        assert(sources.take(n + 1).drop_last() =~= sources.take(n));
        lemma_first_failure_stays(sources, n + 1);
    } else {
        assert(sources.take(n) =~= sources);
    }
}

/// Whether a record holds a requirement on the distribution named `name`.
pub open spec fn requires_name(meta: DistributionMetaView, name: Seq<char>) -> bool {
    exists|k: int| 0 <= k < meta.dependencies.len() && (#[trigger] meta.dependencies[k]).0 == name
}

/// Whether some node requires the distribution named `name`.
pub open spec fn is_required(nodes: Nodes, name: Seq<char>) -> bool {
    exists|i: int| 0 <= i < nodes.len() && requires_name((#[trigger] nodes[i]).1, name)
}

/// The names of those among the first `n` nodes that no node of the graph
/// requires, in their order.
pub open spec fn roots_among(nodes: Nodes, n: int) -> Seq<Seq<char>>
    decreases n,
{
    if n <= 0 {
        Seq::empty()
    } else if is_required(nodes, nodes[n - 1].0) {
        roots_among(nodes, n - 1)
    } else {
        roots_among(nodes, n - 1).push(nodes[n - 1].0)
    }
}

/// The names of the nodes that no node requires.
pub open spec fn roots(nodes: Nodes) -> Seq<Seq<char>> {
    roots_among(nodes, nodes.len() as int)
}

/// A name is among the roots exactly if it names a node and no node requires
/// it.
pub proof fn lemma_roots(nodes: Nodes, n: int, name: Seq<char>)
    requires
        0 <= n <= nodes.len(),
    ensures
        roots_among(nodes, n).contains(name) <==> !is_required(nodes, name) && exists|i: int|
            0 <= i < n && (#[trigger] nodes[i]).0 == name,
    decreases n,
{
    if n > 0 {
        lemma_roots(nodes, n - 1, name);
        let before = roots_among(nodes, n - 1);
        let last = nodes[n - 1].0;
        if !is_required(nodes, last) {
            let after = before.push(last);
            if !is_required(nodes, name) && exists|i: int|
                0 <= i < n && (#[trigger] nodes[i]).0 == name {
                let i = choose|i: int| 0 <= i < n && (#[trigger] nodes[i]).0 == name;
                if i < n - 1 {
                    let k = choose|k: int| 0 <= k < before.len() && before[k] == name;
                    assert(after[k] == name);
                } else {
                    assert(after[before.len() as int] == name);
                }
            }
        }
    }
}

/// Decides `requires_name`.
pub fn meta_requires(meta: &DistributionMeta, name: &str) -> (result: bool)
    ensures
        result == requires_name(meta@, name@),
{
    let mut k: usize = 0;
    while k < meta.dependencies.len()
        invariant
            k <= meta.dependencies@.len(),
            forall|j: int| 0 <= j < k ==> (#[trigger] meta@.dependencies[j]).0 != name@,
        decreases meta.dependencies@.len() - k,
    {
        if same_text(meta.dependencies.at(k).name.as_str(), name) {
            proof {
                assert(meta@.dependencies[k as int].0 == name@);
            }
            return true;
        }
        k += 1;
    }
    false
}

impl DependencyDag {
    /// Whether some node requires the distribution named `name`.
    pub fn is_required(&self, name: &str) -> (result: bool)
        ensures
            result == is_required(self@, name@),
    {
        let mut i: usize = 0;
        while i < self.nodes.len()
            invariant
                i <= self.nodes@.len(),
                forall|j: int| 0 <= j < i ==> !requires_name((#[trigger] self@[j]).1, name@),
            decreases self.nodes@.len() - i,
        {
            if meta_requires(&self.nodes[i].1, name) {
                proof {
                    assert(requires_name(self@[i as int].1, name@));
                }
                return true;
            }
            i += 1;
        }
        false
    }
}

/// The top-level distributions: the names of the nodes that no node requires,
/// in the order of the nodes.
pub fn top_level_distributions(dag: &DependencyDag) -> (result: Vec<DistributionName>)
    ensures
        texts(result@) == roots(dag@),
{
    let mut result: Vec<DistributionName> = Vec::new();
    let mut i: usize = 0;
    while i < dag.len()
        invariant
            i <= dag@.len(),
            texts(result@) == roots_among(dag@, i as int),
        decreases dag@.len() - i,
    {
        let name = dag.name_at(i);
        if !dag.is_required(name.as_str()) {
            result.push(name.clone());
        }
        i += 1;
    }
    result
}

/// No name occurs twice among the roots of a well-formed graph.
pub proof fn lemma_roots_distinct(nodes: Nodes, n: int)
    requires
        nodes_wf(nodes),
        0 <= n <= nodes.len(),
    ensures
        roots_among(nodes, n).no_duplicates(),
    decreases n,
{
    if n > 0 {
        lemma_roots_distinct(nodes, n - 1);
        let last = nodes[n - 1].0;
        if !is_required(nodes, last) {
            lemma_roots(nodes, n - 1, last);
        }
    }
}

/// The roots are the nodes that nothing requires: a name is among them
/// exactly if it names a node and no node holds a requirement on it.
pub proof fn lemma_roots_are_unrequired_nodes(nodes: Nodes, name: Seq<char>)
    ensures
        roots(nodes).contains(name) <==> has_node(nodes, name) && !is_required(nodes, name),
{
    lemma_roots(nodes, nodes.len() as int, name);
    lemma_position_from(nodes, name, 0);
}

/// The graph that sources without a failure give is well formed: no two of
/// its nodes have the same name.
pub proof fn lemma_assembled_wf(sources: Seq<Seq<Seq<char>>>)
    requires
        first_failure(sources) is None,
    ensures
        nodes_wf(assembled(sources)),
    decreases sources.len(),
{
    if sources.len() > 0 {
        let before = sources.drop_last();
        let lines = header(sources.last());
        assert(first_failure(before) is None);
        assert(node_failure(lines) is None);
        lemma_assembled_wf(before);
        lemma_node_meta_wf(lines);
        lemma_with_node(assembled(before), node_name(lines), node_meta(lines));
    }
}

/// The graph that sources without a failure give has a node of a name exactly
/// if the header of some source gives that name.
pub proof fn lemma_assembled_has_node(sources: Seq<Seq<Seq<char>>>, name: Seq<char>)
    requires
        first_failure(sources) is None,
    ensures
        has_node(assembled(sources), name) <==> exists|i: int|
            0 <= i < sources.len() && node_name(header(#[trigger] sources[i])) == name,
    decreases sources.len(),
{
    if sources.len() == 0 {
        assert(!has_node(assembled(sources), name));
    } else {
        let before = sources.drop_last();
        let last = sources.len() - 1;
        let lines = header(sources[last]);
        assert(sources.last() == sources[last]);
        assert(first_failure(before) is None);
        assert(node_failure(lines) is None);
        lemma_assembled_wf(before);
        lemma_assembled_has_node(before, name);
        lemma_node_meta_wf(lines);
        lemma_with_node(assembled(before), node_name(lines), node_meta(lines));
        let after = assembled(sources);
        assert(after == with_node(assembled(before), node_name(lines), node_meta(lines)));
        if node_name(lines) == name {
            assert(installed(after, name) is Some);
            assert(node_name(header(sources[last])) == name);
        } else {
            assert(installed(after, name) == installed(assembled(before), name));
            assert(has_node(after, name) == has_node(assembled(before), name));
            if has_node(assembled(before), name) {
                let i = choose|i: int|
                    0 <= i < before.len() && node_name(header(#[trigger] before[i])) == name;
                assert(before[i] == sources[i]);
                assert(node_name(header(sources[i])) == name);
            }
            if exists|i: int|
                0 <= i < sources.len() && node_name(header(#[trigger] sources[i])) == name {
                let i = choose|i: int|
                    0 <= i < sources.len() && node_name(header(#[trigger] sources[i])) == name;
                assert(i != last);
                assert(before[i] == sources[i]);
                assert(node_name(header(before[i])) == name);
            }
        }
    }
}

/// The last write wins: a node of the graph that sources without a failure
/// give has the record of the last source whose header gives its name.
pub proof fn lemma_assembled_last_wins(sources: Seq<Seq<Seq<char>>>, name: Seq<char>, k: int)
    requires
        first_failure(sources) is None,
        0 <= k < sources.len(),
        node_name(header(sources[k])) == name,
        forall|j: int| k < j < sources.len() ==> node_name(header(#[trigger] sources[j])) != name,
    ensures
        installed(assembled(sources), name) == Some(node_meta(header(sources[k]))),
    decreases sources.len(),
{
    let before = sources.drop_last();
    let last = sources.len() - 1;
    let lines = header(sources[last]);
    assert(sources.last() == sources[last]);
    assert(first_failure(before) is None);
    assert(node_failure(lines) is None);
    lemma_assembled_wf(before);
    lemma_node_meta_wf(lines);
    lemma_with_node(assembled(before), node_name(lines), node_meta(lines));
    assert(assembled(sources) == with_node(assembled(before), node_name(lines), node_meta(lines)));
    if k < last {
        assert(node_name(lines) != name);
        assert(before[k] == sources[k]);
        assert forall|j: int| k < j < before.len() implies node_name(
            header(#[trigger] before[j]),
        ) != name by {
            assert(before[j] == sources[j]);
        }
        lemma_assembled_last_wins(before, name, k);
        assert(installed(assembled(sources), name) == installed(assembled(before), name));
    }
}

} // verus!

//! The nodes of the dependency graph: what a distribution requires, and what
//! is known of an installed distribution.

use crate::error::NodeError;
use crate::normalize::{lemma_normalize_idempotent_on_ascii, normalize_name, normalized};
use crate::parser::{
    dependency_declaration, is_version_comparison, lemma_version_declaration, name_declaration,
    version_declaration, DepParser,
};
use crate::scan::{lemma_run_end, run_end, CharClass};
use vstd::utf8::is_ascii_chars;
use vstd::prelude::*;
use vstd::std_specs::cmp::PartialEqSpecImpl;

verus! {

/// The canonical name of a distribution.
pub type DistributionName = String;

/// A requirement as a pair of texts: the canonical name of the distribution
/// that is required, and the requirement text as it was written.
pub type Requirement = (Seq<char>, Seq<char>);

/// One declared dependency. Two of them are the same only if both the name and
/// the requirement text agree.
#[derive(Eq, PartialEq, Hash, Debug)]
pub struct RequiredDistribution {
    pub name: DistributionName,
    pub required_version: String,
}

impl View for RequiredDistribution {
    type V = Requirement;

    open spec fn view(&self) -> Requirement {
        (self.name@, self.required_version@)
    }
}

impl RequiredDistribution {
    /// A requirement on the distribution with the given raw name.
    pub fn from_str(name: &str, version: &str) -> (result: Self)
        ensures
            result@ == (normalized(name@), version@),
    {
        Self { name: normalize_name(name), required_version: version.to_owned() }
    }

    /// Whether two requirements agree in name and requirement text.
    pub fn same_as(&self, other: &RequiredDistribution) -> (result: bool)
        ensures
            result == (self@ == other@),
    {
        self.name == other.name && self.required_version == other.required_version
    }
}

/// `items` with `item` added at the end, unless it is there already.
pub open spec fn with_requirement(items: Seq<Requirement>, item: Requirement) -> Seq<Requirement> {
    if items.contains(item) {
        items
    } else {
        items.push(item)
    }
}

/// A set of requirements, kept in the order in which they were first inserted.
#[derive(Debug)]
pub struct DependencySet {
    items: Vec<RequiredDistribution>,
}

impl View for DependencySet {
    type V = Seq<Requirement>;

    closed spec fn view(&self) -> Seq<Requirement> {
        self.items@.map_values(|d: RequiredDistribution| d@)
    }
}

impl DependencySet {
    /// No requirement occurs twice.
    pub open spec fn wf(&self) -> bool {
        self@.no_duplicates()
    }

    /// The empty set.
    pub fn new() -> (result: Self)
        ensures
            result@ == Seq::<Requirement>::empty(),
            result.wf(),
    {
        let result = DependencySet { items: Vec::new() };
        result
    }

    /// The number of requirements.
    pub fn len(&self) -> (result: usize)
        ensures
            result == self@.len(),
    {
        self.items.len()
    }

    /// Whether the set holds no requirement.
    pub fn is_empty(&self) -> (result: bool)
        ensures
            result == (self@.len() == 0),
    {
        self.items.len() == 0
    }

    /// The requirement at a position between 0 and the length.
    pub fn at(&self, i: usize) -> (result: &RequiredDistribution)
        requires
            i < self@.len(),
        ensures
            result@ == self@[i as int],
    {
        &self.items[i]
    }

    /// The requirement of the set that agrees with `wanted`, if there is one.
    pub fn get(&self, wanted: &RequiredDistribution) -> (result: Option<&RequiredDistribution>)
        ensures
            match result {
                Some(found) => found@ == wanted@ && self@.contains(wanted@),
                None => !self@.contains(wanted@),
            },
    {
        let mut i: usize = 0;
        while i < self.items.len()
            invariant
                i <= self.items@.len(),
                forall|j: int| 0 <= j < i ==> self@[j] != wanted@,
            decreases self.items@.len() - i,
        {
            if self.items[i].same_as(wanted) {
                proof {
                    assert(self@[i as int] == wanted@);
                }
                return Some(&self.items[i]);
            }
            i += 1;
        }
        None
    }

    /// Whether the set holds a requirement that agrees with `wanted`.
    pub fn contains(&self, wanted: &RequiredDistribution) -> (result: bool)
        ensures
            result == self@.contains(wanted@),
    {
        self.get(wanted).is_some()
    }

    /// Whether every requirement of this set is in `other` too.
    pub fn is_subset(&self, other: &DependencySet) -> (result: bool)
        ensures
            result == forall|r: Requirement| self@.contains(r) ==> other@.contains(r),
    {
        let mut i: usize = 0;
        while i < self.items.len()
            invariant
                i <= self.items@.len(),
                forall|j: int| 0 <= j < i ==> other@.contains(#[trigger] self@[j]),
            decreases self.items@.len() - i,
        {
            if !other.contains(&self.items[i]) {
                proof {
                    assert(self@.contains(self@[i as int]));
                }
                return false;
            }
            i += 1;
        }
        true
    }

    /// Adds a requirement, unless the set holds it already; says whether it
    /// was added.
    pub fn insert(&mut self, item: RequiredDistribution) -> (added: bool)
        ensures
            final(self)@ == with_requirement(old(self)@, item@),
            added == !old(self)@.contains(item@),
            old(self).wf() ==> final(self).wf(),
    {
        if self.contains(&item) {
            false
        } else {
            self.items.push(item);
            true
        }
    }
}

/// Two sets are equal if they hold the same requirements, in whatever order.
impl PartialEq for DependencySet {
    fn eq(&self, other: &Self) -> (result: bool) {
        self.is_subset(other) && other.is_subset(self)
    }
}

impl Eq for DependencySet {

}

impl PartialEqSpecImpl for DependencySet {
    open spec fn obeys_eq_spec() -> bool {
        true
    }

    open spec fn eq_spec(&self, other: &Self) -> bool {
        forall|r: Requirement| self@.contains(r) <==> other@.contains(r)
    }
}

/// Adding a requirement keeps a sequence free of duplicates, and the result
/// holds what was there and what was added, nothing else.
pub proof fn lemma_with_requirement(items: Seq<Requirement>, item: Requirement)
    ensures
        items.no_duplicates() ==> with_requirement(items, item).no_duplicates(),
        forall|r: Requirement| #[trigger]
            with_requirement(items, item).contains(r) <==> (r == item || items.contains(r)),
{
    let after = with_requirement(items, item);
    if !items.contains(item) {
        assert forall|r: Requirement| #[trigger] after.contains(r) <==> (r == item
            || items.contains(r)) by {
            if r == item {
                assert(after[items.len() as int] == r);
            }
            if items.contains(r) {
                let k = choose|k: int| 0 <= k < items.len() && items[k] == r;
                assert(after[k] == r);
            }
        }
    }
}

/// What is known of an installed distribution, as texts.
pub struct DistributionMetaView {
    pub installed_version: Seq<char>,
    pub dependencies: Seq<Requirement>,
}

/// What is known of an installed distribution: the version that is installed
/// and what it requires.
#[derive(Debug)]
pub struct DistributionMeta {
    pub installed_version: String,
    pub dependencies: DependencySet,
}

impl View for DistributionMeta {
    type V = DistributionMetaView;

    open spec fn view(&self) -> DistributionMetaView {
        DistributionMetaView {
            installed_version: self.installed_version@,
            dependencies: self.dependencies@,
        }
    }
}

impl DistributionMetaView {
    /// The version is not empty and no requirement occurs twice.
    pub open spec fn wf(self) -> bool {
        self.installed_version.len() > 0 && self.dependencies.no_duplicates()
    }
}

/// Two records are equal if the versions are and the same requirements are
/// held.
impl PartialEq for DistributionMeta {
    fn eq(&self, other: &Self) -> (result: bool) {
        self.installed_version == other.installed_version && self.dependencies
            == other.dependencies
    }
}

impl Eq for DistributionMeta {

}

impl PartialEqSpecImpl for DistributionMeta {
    open spec fn obeys_eq_spec() -> bool {
        true
    }

    open spec fn eq_spec(&self, other: &Self) -> bool {
        self.installed_version@ == other.installed_version@ && forall|r: Requirement|
            self.dependencies@.contains(r) <==> other.dependencies@.contains(r)
    }
}

/// The requirements that the declared pairs of raw name and requirement text
/// give: the name made canonical, each pair once, in the order of its first
/// declaration.
pub open spec fn requirements(declared: Seq<(Seq<char>, Seq<char>)>) -> Seq<Requirement>
    decreases declared.len(),
{
    if declared.len() == 0 {
        Seq::empty()
    } else {
        with_requirement(
            requirements(declared.drop_last()),
            (normalized(declared.last().0), declared.last().1),
        )
    }
}

/// Whether every declared requirement text is a version comparison.
pub open spec fn all_valid(declared: Seq<(Seq<char>, Seq<char>)>) -> bool {
    forall|i: int| 0 <= i < declared.len() ==> is_version_comparison(#[trigger] declared[i].1)
}

/// The views of a sequence of pairs of strings.
pub open spec fn pair_texts(pairs: Seq<(String, String)>) -> Seq<(Seq<char>, Seq<char>)> {
    pairs.map_values(|p: (String, String)| (p.0@, p.1@))
}

impl DistributionMeta {
    /// The version is not empty and no requirement occurs twice.
    pub open spec fn wf(&self) -> bool {
        self@.wf()
    }

    /// Builds the record of a distribution from the version and the declared
    /// dependencies that its metadata gave. An empty version counts as a
    /// missing one; a requirement text that is no version comparison
    /// invalidates the whole record.
    pub fn from_parsed_file(
        installed_version: String,
        dependencies: Vec<(String, String)>,
    ) -> (result: Result<Self, NodeError>)
        ensures
            match result {
                Ok(meta) => {
                    &&& installed_version@.len() > 0
                    &&& all_valid(pair_texts(dependencies@))
                    &&& meta.installed_version@ == installed_version@
                    &&& meta.dependencies@ == requirements(pair_texts(dependencies@))
                    &&& meta.wf()
                },
                Err(e) => {
                    if installed_version@.len() == 0 {
                        e == NodeError::MissingVersion
                    } else {
                        e == NodeError::InvalidDependencyConstraint && !all_valid(
                            pair_texts(dependencies@),
                        )
                    }
                },
            },
    {
        if installed_version.as_str().unicode_len() == 0 {
            return Err(NodeError::MissingVersion);
        }
        let ghost declared = pair_texts(dependencies@);
        let mut parsed_deps = DependencySet::new();
        let mut i: usize = 0;
        while i < dependencies.len()
            invariant
                i <= dependencies@.len(),
                installed_version@.len() > 0,
                declared == pair_texts(dependencies@),
                all_valid(declared.take(i as int)),
                parsed_deps@ == requirements(declared.take(i as int)),
                parsed_deps.wf(),
            decreases dependencies@.len() - i,
        {
            let dep_name = &dependencies[i].0;
            let version_expr = &dependencies[i].1;
            proof {
                assert(declared.take(i + 1).drop_last() =~= declared.take(i as int));
            }
            if !DepParser::check_version_comparison(version_expr.as_str()) {
                proof {
                    assert(!is_version_comparison(declared[i as int].1));
                }
                return Err(NodeError::InvalidDependencyConstraint);
            }
            parsed_deps.insert(
                RequiredDistribution::from_str(dep_name.as_str(), version_expr.as_str()),
            );
            i += 1;
        }
        proof {
            assert(declared.take(i as int) =~= declared);
        }
        Ok(Self { installed_version, dependencies: parsed_deps })
    }
}

/// What one line of the metadata declares.
#[derive(Debug)]
pub enum ParsedLine {
    /// The raw name of the distribution.
    Name(String),
    /// The installed version, as written.
    Version(String),
    /// The raw name of a required distribution and the requirement text.
    Dependency(String, String),
}

/// A line is a declaration of at most one kind.
pub proof fn lemma_one_declaration(line: Seq<char>)
    ensures
        !(name_declaration(line) is Some && version_declaration(line) is Some),
        !(name_declaration(line) is Some && dependency_declaration(line) is Some),
        !(version_declaration(line) is Some && dependency_declaration(line) is Some),
{
    reveal_strlit("name:");
    reveal_strlit("version:");
    reveal_strlit("Requires-Dist:");
    if version_declaration(line) is Some {
        assert(crate::scan::fold_case(line[0]) == 'v');
    }
    if dependency_declaration(line) is Some {
        assert(line.subrange(0, 14)[0] == 'R');
    }
}

/// Classifies one line: a name, a version or a dependency declaration, or
/// none of them.
pub fn parse_line(line: &str) -> (result: Option<ParsedLine>)
    ensures
        match result {
            Some(ParsedLine::Name(name)) => name_declaration(line@) == Some(name@),
            Some(ParsedLine::Version(version)) => version_declaration(line@) == Some(version@),
            Some(ParsedLine::Dependency(name, text)) => dependency_declaration(line@) == Some(
                (name@, text@),
            ),
            None => name_declaration(line@) is None && version_declaration(line@) is None
                && dependency_declaration(line@) is None,
        },
{
    if let Some(name) = DepParser::parse_name_row(line) {
        return Some(ParsedLine::Name(name));
    }
    if let Some(version) = DepParser::parse_version_row(line) {
        return Some(ParsedLine::Version(version));
    }
    if let Some((name, text)) = DepParser::parse_required_distribution_row(line) {
        return Some(ParsedLine::Dependency(name, text));
    }
    None
}

/// The texts of a sequence of lines.
pub open spec fn texts(lines: Seq<String>) -> Seq<Seq<char>> {
    lines.map_values(|line: String| line@)
}

/// The raw name that the last name declaration among the lines holds.
pub open spec fn last_name(lines: Seq<Seq<char>>) -> Option<Seq<char>>
    decreases lines.len(),
{
    if lines.len() == 0 {
        None
    } else if name_declaration(lines.last()) is Some {
        name_declaration(lines.last())
    } else {
        last_name(lines.drop_last())
    }
}

/// The version that the last version declaration among the lines holds.
pub open spec fn last_version(lines: Seq<Seq<char>>) -> Option<Seq<char>>
    decreases lines.len(),
{
    if lines.len() == 0 {
        None
    } else if version_declaration(lines.last()) is Some {
        version_declaration(lines.last())
    } else {
        last_version(lines.drop_last())
    }
}

/// The raw name and requirement text of every dependency declaration among the
/// lines, in their order.
pub open spec fn declared_dependencies(lines: Seq<Seq<char>>) -> Seq<(Seq<char>, Seq<char>)>
    decreases lines.len(),
{
    if lines.len() == 0 {
        Seq::empty()
    } else {
        match dependency_declaration(lines.last()) {
            Some(d) => declared_dependencies(lines.drop_last()).push(d),
            None => declared_dependencies(lines.drop_last()),
        }
    }
}

/// Why the lines give no node, if they do not: the name is looked for first,
/// then the version, then the requirement texts are checked.
pub open spec fn node_failure(lines: Seq<Seq<char>>) -> Option<NodeError> {
    if last_name(lines) is None {
        Some(NodeError::MissingName)
    } else if last_version(lines) is None {
        Some(NodeError::MissingVersion)
    } else if !all_valid(declared_dependencies(lines)) {
        Some(NodeError::InvalidDependencyConstraint)
    } else {
        None
    }
}

/// The canonical name of the node that the lines give.
pub open spec fn node_name(lines: Seq<Seq<char>>) -> Seq<char> {
    normalized(last_name(lines).unwrap())
}

/// The record of the node that the lines give.
pub open spec fn node_meta(lines: Seq<Seq<char>>) -> DistributionMetaView {
    DistributionMetaView {
        installed_version: last_version(lines).unwrap(),
        dependencies: requirements(declared_dependencies(lines)),
    }
}

/// Builds the node of one distribution from the header lines of its metadata.
///
/// The last name declaration and the last version declaration count. Lines
/// that declare nothing are skipped. A missing name, a missing version or one
/// requirement text that is no version comparison leaves no node at all.
pub fn node_from_file_iter(lines: &[String]) -> (result: Result<
    (DistributionName, DistributionMeta),
    NodeError,
>)
    ensures
        match result {
            Ok((name, meta)) => {
                &&& node_failure(texts(lines@)) is None
                &&& name@ == node_name(texts(lines@))
                &&& meta@ == node_meta(texts(lines@))
                &&& meta.wf()
            },
            Err(e) => node_failure(texts(lines@)) == Some(e),
        },
{
    let mut name: Option<String> = None;
    let mut version: Option<String> = None;
    let mut dependencies: Vec<(String, String)> = Vec::new();
    let ghost all = texts(lines@);
    let mut i: usize = 0;
    while i < lines.len()
        invariant
            i <= lines@.len(),
            all == texts(lines@),
            match name {
                Some(n) => last_name(all.take(i as int)) == Some(n@),
                None => last_name(all.take(i as int)) is None,
            },
            match version {
                Some(v) => last_version(all.take(i as int)) == Some(v@) && v@.len() > 0,
                None => last_version(all.take(i as int)) is None,
            },
            pair_texts(dependencies@) == declared_dependencies(all.take(i as int)),
        decreases lines@.len() - i,
    {
        proof {
            assert(all.take(i + 1).drop_last() =~= all.take(i as int));
            lemma_one_declaration(lines@[i as int]@);
            lemma_version_declaration(lines@[i as int]@);
        }
        match parse_line(lines[i].as_str()) {
            Some(ParsedLine::Name(n)) => {
                name = Some(n);
            },
            Some(ParsedLine::Version(v)) => {
                version = Some(v);
            },
            Some(ParsedLine::Dependency(n, t)) => {
                dependencies.push((n, t));
            },
            None => {},
        }
        i += 1;
    }
    proof {
        assert(all.take(i as int) =~= all);
    }
    let raw_name = match name {
        Some(n) => n,
        None => {
            return Err(NodeError::MissingName);
        },
    };
    let validated_version = match version {
        Some(v) => v,
        None => {
            return Err(NodeError::MissingVersion);
        },
    };
    let validated_name = normalize_name(raw_name.as_str());
    match DistributionMeta::from_parsed_file(validated_version, dependencies) {
        Ok(meta) => Ok((validated_name, meta)),
        Err(e) => Err(e),
    }
}

/// The last name declaration wins: the lines have a name exactly if one of
/// them declares one, and the name is that of the declaration after which no
/// other follows.
pub proof fn lemma_last_name(lines: Seq<Seq<char>>)
    ensures
        last_name(lines) is None <==> forall|i: int|
            0 <= i < lines.len() ==> name_declaration(#[trigger] lines[i]) is None,
        last_name(lines) is Some ==> exists|k: int|
            0 <= k < lines.len() && name_declaration(#[trigger] lines[k]) == last_name(lines)
                && forall|j: int|
                k < j < lines.len() ==> name_declaration(#[trigger] lines[j]) is None,
    decreases lines.len(),
{
    if lines.len() > 0 {
        let before = lines.drop_last();
        lemma_last_name(before);
        if name_declaration(lines.last()) is None {
            assert forall|i: int| 0 <= i < before.len() implies before[i] == lines[i] by {}
        }
    }
}

/// The last version declaration wins: the lines have a version exactly if one
/// of them declares one, and the version is that of the declaration after
/// which no other follows.
pub proof fn lemma_last_version(lines: Seq<Seq<char>>)
    ensures
        last_version(lines) is None <==> forall|i: int|
            0 <= i < lines.len() ==> version_declaration(#[trigger] lines[i]) is None,
        last_version(lines) is Some ==> exists|k: int|
            0 <= k < lines.len() && version_declaration(#[trigger] lines[k]) == last_version(lines)
                && forall|j: int|
                k < j < lines.len() ==> version_declaration(#[trigger] lines[j]) is None,
    decreases lines.len(),
{
    if lines.len() > 0 {
        let before = lines.drop_last();
        lemma_last_version(before);
        if version_declaration(lines.last()) is None {
            assert forall|i: int| 0 <= i < before.len() implies before[i] == lines[i] by {}
        }
    }
}

/// Which lines are there decides the failure, not their order: the name is
/// missing exactly if no line declares a name, and the version is missing
/// exactly if some line declares a name and none a version.
pub proof fn lemma_missing_declarations(lines: Seq<Seq<char>>)
    ensures
        node_failure(lines) == Some(NodeError::MissingName) <==> forall|i: int|
            0 <= i < lines.len() ==> name_declaration(#[trigger] lines[i]) is None,
        node_failure(lines) == Some(NodeError::MissingVersion) <==> (exists|i: int|
            0 <= i < lines.len() && name_declaration(#[trigger] lines[i]) is Some) && forall|
            i: int,
        | 0 <= i < lines.len() ==> version_declaration(#[trigger] lines[i]) is None,
{
    lemma_last_name(lines);
    lemma_last_version(lines);
}

/// The requirements form a set of pairs: none occurs twice, and a pair is
/// among them exactly if some declaration gives it. Declarations that differ
/// in the requirement text alone give different requirements.
pub proof fn lemma_requirements(declared: Seq<(Seq<char>, Seq<char>)>)
    ensures
        requirements(declared).no_duplicates(),
        forall|r: Requirement| #[trigger]
            requirements(declared).contains(r) <==> exists|i: int|
                0 <= i < declared.len() && r == (
                    normalized((#[trigger] declared[i]).0),
                    declared[i].1,
                ),
    decreases declared.len(),
{
    if declared.len() > 0 {
        let before = declared.drop_last();
        let item = (normalized(declared.last().0), declared.last().1);
        lemma_requirements(before);
        lemma_with_requirement(requirements(before), item);
        assert forall|r: Requirement| #[trigger]
            requirements(declared).contains(r) <==> exists|i: int|
                0 <= i < declared.len() && r == (
                    normalized((#[trigger] declared[i]).0),
                    declared[i].1,
                ) by {
            if exists|i: int|
                0 <= i < declared.len() && r == (
                    normalized((#[trigger] declared[i]).0),
                    declared[i].1,
                ) {
                let i = choose|i: int|
                    0 <= i < declared.len() && r == (
                        normalized((#[trigger] declared[i]).0),
                        declared[i].1,
                    );
                if i < before.len() {
                    assert(before[i] == declared[i]);
                }
            }
        }
    }
}

/// The names that the grammar captures hold ASCII characters only, so
/// normalizing them is idempotent.
pub proof fn lemma_declared_names_are_ascii(line: Seq<char>)
    ensures
        name_declaration(line) is Some ==> is_ascii_chars(name_declaration(line).unwrap()),
        dependency_declaration(line) is Some ==> is_ascii_chars(
            dependency_declaration(line).unwrap().0,
        ),
{
    if name_declaration(line) is Some {
        let start = run_end(line, "name:"@.len() as int, CharClass::Blank);
        lemma_run_end(line, start, CharClass::NameChar);
    }
    if dependency_declaration(line) is Some {
        let start = run_end(line, "Requires-Dist:"@.len() as int, CharClass::Blank);
        lemma_run_end(line, start, CharClass::NameChar);
    }
}

/// The name of a node is canonical: normalizing it again changes nothing.
pub proof fn lemma_node_name_is_canonical(lines: Seq<Seq<char>>)
    requires
        last_name(lines) is Some,
    ensures
        normalized(node_name(lines)) == node_name(lines),
{
    lemma_last_name(lines);
    let k = choose|k: int|
        0 <= k < lines.len() && name_declaration(#[trigger] lines[k]) == last_name(lines);
    lemma_declared_names_are_ascii(lines[k]);
    lemma_normalize_idempotent_on_ascii(last_name(lines).unwrap());
}

/// The record that lines without a failure give is well formed: its version
/// is not empty and none of its requirements occurs twice.
pub proof fn lemma_node_meta_wf(lines: Seq<Seq<char>>)
    requires
        node_failure(lines) is None,
    ensures
        node_meta(lines).wf(),
{
    lemma_last_version(lines);
    let k = choose|k: int|
        0 <= k < lines.len() && version_declaration(#[trigger] lines[k]) == last_version(lines);
    lemma_version_declaration(lines[k]);
    lemma_requirements(declared_dependencies(lines));
}

/// A pair is among the declared dependencies exactly if some line declares
/// it.
pub proof fn lemma_declared_dependencies(lines: Seq<Seq<char>>, d: (Seq<char>, Seq<char>))
    ensures
        declared_dependencies(lines).contains(d) <==> exists|i: int|
            0 <= i < lines.len() && dependency_declaration(#[trigger] lines[i]) == Some(d),
    decreases lines.len(),
{
    if lines.len() > 0 {
        let before = lines.drop_last();
        lemma_declared_dependencies(before, d);
        assert forall|i: int| 0 <= i < before.len() implies before[i] == lines[i] by {}
        let shorter = declared_dependencies(before);
        let all = declared_dependencies(lines);
        if dependency_declaration(lines.last()) is Some {
            assert(all == shorter.push(dependency_declaration(lines.last()).unwrap()));
            if shorter.contains(d) {
                let k = choose|k: int| 0 <= k < shorter.len() && shorter[k] == d;
                assert(all[k] == d);
            }
            if dependency_declaration(lines.last()) == Some(d) {
                assert(all[shorter.len() as int] == d);
                assert(lines[lines.len() - 1] == lines.last());
            }
            if all.contains(d) {
                let k = choose|k: int| 0 <= k < all.len() && all[k] == d;
                if k < shorter.len() {
                    assert(shorter[k] == d);
                } else {
                    assert(lines[lines.len() - 1] == lines.last());
                }
            }
        }
    }
}

/// Every name in a node is canonical, that of the node and those of its
/// requirements: names that normalize to the same text are the same name.
pub proof fn lemma_node_names_are_canonical(lines: Seq<Seq<char>>, r: Requirement)
    requires
        last_name(lines) is Some,
        node_meta(lines).dependencies.contains(r),
    ensures
        normalized(node_name(lines)) == node_name(lines),
        normalized(r.0) == r.0,
{
    lemma_node_name_is_canonical(lines);
    let declared = declared_dependencies(lines);
    lemma_requirements(declared);
    let i = choose|i: int|
        0 <= i < declared.len() && r == (normalized((#[trigger] declared[i]).0), declared[i].1);
    lemma_declared_dependencies(lines, declared[i]);
    let k = choose|k: int|
        0 <= k < lines.len() && dependency_declaration(#[trigger] lines[k]) == Some(declared[i]);
    lemma_declared_names_are_ascii(lines[k]);
    lemma_normalize_idempotent_on_ascii(declared[i].0);
}

} // verus!

use rdeptree::dag::{parse_line, DependencySet, DistributionMeta, ParsedLine, RequiredDistribution};
use rdeptree::graph::{meta_requires, DependencyDag};
use rdeptree::normalize::normalize_name;
use rdeptree::scan::{begins_with_ignoring_case, fold, scan_run, to_chars, word_at, CharClass};

fn set_of(pairs: &[(&str, &str)]) -> DependencySet {
    let mut set = DependencySet::new();
    for (name, version) in pairs {
        set.insert(RequiredDistribution::from_str(name, version));
    }
    set
}

#[test]
fn from_str_normalizes_the_name_and_keeps_the_text() {
    let d = RequiredDistribution::from_str("Some_Dep.Name", ">= 1.0 ; extra == 'X_y'");
    assert_eq!(d.name, "some-dep-name");
    assert_eq!(d.required_version, ">= 1.0 ; extra == 'X_y'");
    assert!(d.same_as(&RequiredDistribution::from_str("some-dep-name", ">= 1.0 ; extra == 'X_y'")));
    assert!(!d.same_as(&RequiredDistribution::from_str("some-dep-name", ">= 1.0")));
    assert!(!d.same_as(&RequiredDistribution::from_str("other", ">= 1.0 ; extra == 'X_y'")));
}

#[test]
fn dependency_set_holds_each_pair_once() {
    let mut set = DependencySet::new();
    assert!(set.is_empty());
    assert!(set.insert(RequiredDistribution::from_str("a", "==1")));
    assert!(!set.insert(RequiredDistribution::from_str("A", "==1")));
    assert!(set.insert(RequiredDistribution::from_str("a", "==2")));
    assert!(set.insert(RequiredDistribution::from_str("b", "==1")));
    assert_eq!(set.len(), 3);
    assert!(!set.is_empty());
    assert_eq!(set.at(0).required_version, "==1");
    assert_eq!(set.at(1).required_version, "==2");
    assert_eq!(set.at(2).name, "b");
    assert!(set.get(&RequiredDistribution::from_str("b", "==2")).is_none());
    assert_eq!(
        set.get(&RequiredDistribution::from_str("B", "==1")).unwrap().name,
        "b"
    );
}

#[test]
fn dependency_sets_compare_without_regard_to_order() {
    let one = set_of(&[("a", "==1"), ("b", "==2")]);
    let other = set_of(&[("b", "==2"), ("a", "==1")]);
    let smaller = set_of(&[("a", "==1")]);
    assert!(one == other);
    assert!(one != smaller);
    assert!(smaller.is_subset(&one));
    assert!(!one.is_subset(&smaller));
    assert!(DependencySet::new() == DependencySet::new());
}

#[test]
fn records_compare_by_version_and_requirements() {
    let make = |version: &str, deps: &[(&str, &str)]| {
        DistributionMeta::from_parsed_file(
            version.to_string(),
            deps.iter()
                .map(|(n, t)| (n.to_string(), t.to_string()))
                .collect(),
        )
        .unwrap()
    };
    assert!(make("1.0", &[("a", "==1"), ("b", "<2")]) == make("1.0", &[("b", "<2"), ("A", "==1")]));
    assert!(make("1.0", &[("a", "==1")]) != make("1.1", &[("a", "==1")]));
    assert!(make("1.0", &[("a", "==1")]) != make("1.0", &[("a", "==2")]));
}

#[test]
fn record_requires_by_name() {
    let meta = DistributionMeta::from_parsed_file(
        "1".to_string(),
        vec![("Dep_One".to_string(), "==1".to_string())],
    )
    .unwrap();
    assert!(meta_requires(&meta, "dep-one"));
    assert!(!meta_requires(&meta, "Dep_One"));
    assert!(!meta_requires(&meta, "dep"));
}

#[test]
fn graph_insert_and_lookup() {
    let mut dag = DependencyDag::new();
    assert!(dag.is_empty());
    let meta = |v: &str| DistributionMeta::from_parsed_file(v.to_string(), Vec::new()).unwrap();
    dag.insert("a".to_string(), meta("1"));
    dag.insert("b".to_string(), meta("2"));
    dag.insert("a".to_string(), meta("3"));
    assert_eq!(dag.len(), 2);
    assert_eq!(dag.find("a"), 0);
    assert_eq!(dag.find("b"), 1);
    assert_eq!(dag.get("a").unwrap().installed_version, "3");
    assert_eq!(dag.get("b").unwrap().installed_version, "2");
}

#[test]
fn parse_line_classifies() {
    assert!(matches!(parse_line("Name: X_y"), Some(ParsedLine::Name(n)) if n == "X_y"));
    assert!(matches!(parse_line("version: 1.2"), Some(ParsedLine::Version(v)) if v == "1.2"));
    assert!(matches!(
        parse_line("Requires-Dist: a.b (==1.0)"),
        Some(ParsedLine::Dependency(n, t)) if n == "a.b" && t == "==1.0"
    ));
    assert!(parse_line("Summary: a package").is_none());
    assert!(parse_line("").is_none());
    assert!(parse_line("Description-Content-Type").is_none());
}

#[test]
fn normalize_lowercases_beyond_ascii() {
    assert_eq!(normalize_name("ÄB__Ç"), "äb-ç");
}

#[test]
fn scanning_primitives() {
    let s = to_chars("ab  12.x");
    assert_eq!(s, vec!['a', 'b', ' ', ' ', '1', '2', '.', 'x']);
    assert_eq!(to_chars("é-ß"), vec!['é', '-', 'ß']);
    assert_eq!(scan_run(&s, 0, CharClass::Alnum), 2);
    assert_eq!(scan_run(&s, 2, CharClass::Blank), 4);
    assert_eq!(scan_run(&s, 4, CharClass::Digit), 6);
    assert_eq!(scan_run(&s, 4, CharClass::NameChar), 8);
    assert_eq!(scan_run(&s, 0, CharClass::Except('.')), 6);
    assert_eq!(scan_run(&s, 0, CharClass::Digit), 0);
    assert_eq!(scan_run(&s, 8, CharClass::Alnum), 8);
    assert_eq!(word_at(&s, 4, "12."), Some(7));
    assert_eq!(word_at(&s, 4, "12.xy"), None);
    assert_eq!(word_at(&s, 5, "12"), None);
    assert_eq!(word_at(&s, 8, ""), Some(8));
    assert!(begins_with_ignoring_case(&s, "AB "));
    assert!(!begins_with_ignoring_case(&s, "abc"));
    assert!(!begins_with_ignoring_case(&s, "ab  12.x and more"));
    assert_eq!(fold('Q'), 'q');
    assert_eq!(fold('q'), 'q');
    assert_eq!(fold('_'), '_');
    assert_eq!(fold('É'), 'É');
    assert!(CharClass::Blank.contains('\t'));
    assert!(!CharClass::Blank.contains('\n'));
    assert!(CharClass::NameChar.contains('-'));
    assert!(!CharClass::NameChar.contains('+'));
}

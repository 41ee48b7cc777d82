use rdeptree::dag::{node_from_file_iter, DistributionMeta, RequiredDistribution};
use rdeptree::error::NodeError;
use rdeptree::graph::{get_dep_dag_from_env, top_level_distributions, DependencyDag};
use rdeptree::render::{render_dag, render_forest};
use rdeptree::utils::{get_lnreader, header_lines, is_header_line, same_text};

fn lines(text: &[&str]) -> Vec<String> {
    text.iter().map(|l| l.to_string()).collect()
}

fn two_node_graph() -> DependencyDag {
    get_dep_dag_from_env(&[
        lines(&["Name: A", "Version: 1.0", "Requires-Dist: B >=2.0"]),
        lines(&["Name: B", "Version: 2.1"]),
    ])
    .unwrap()
}

#[test]
fn root_of_a_two_node_graph() {
    let dag = two_node_graph();
    assert_eq!(dag.len(), 2);
    assert_eq!(top_level_distributions(&dag), vec!["a".to_string()]);
    assert!(dag.is_required("b"));
    assert!(!dag.is_required("a"));
}

#[test]
fn roots_keep_the_order_of_the_nodes() {
    let dag = get_dep_dag_from_env(&[
        lines(&["Name: z", "Version: 1"]),
        lines(&["Name: m", "Version: 1", "Requires-Dist: k ==1"]),
        lines(&["Name: k", "Version: 1"]),
        lines(&["Name: a", "Version: 1", "Requires-Dist: missing ==1"]),
    ])
    .unwrap();
    assert_eq!(
        top_level_distributions(&dag),
        vec!["z".to_string(), "m".to_string(), "a".to_string()]
    );
}

#[test]
fn graph_without_nodes_has_no_roots() {
    let dag = get_dep_dag_from_env(&[]).unwrap();
    assert!(dag.is_empty());
    assert!(top_level_distributions(&dag).is_empty());
    assert!(render_forest(&dag).is_empty());
}

#[test]
fn last_write_wins_on_a_name_collision() {
    let dag = get_dep_dag_from_env(&[
        lines(&["Name: Same_Name", "Version: 1.0"]),
        lines(&["Name: other", "Version: 3.0"]),
        lines(&["Name: same-name", "Version: 2.0"]),
    ])
    .unwrap();
    assert_eq!(dag.len(), 2);
    assert_eq!(dag.get("same-name").unwrap().installed_version, "2.0");
    assert_eq!(dag.name_at(0), "same-name");
    assert_eq!(dag.name_at(1), "other");
    assert_eq!(dag.meta_at(1).installed_version, "3.0");
    assert!(dag.contains_key("other"));
    assert!(!dag.contains_key("Same_Name"));
    assert!(dag.get("absent").is_none());
    assert_eq!(dag.find("absent"), 2);
}

#[test]
fn lines_behind_the_header_are_not_read() {
    let dag = get_dep_dag_from_env(&[lines(&[
        "Name: pkg",
        "Version: 1.0",
        "Description-Content-Type",
        "Name: from-the-description",
        "Version: 9.9",
        "Requires-Dist: broken >= nothing",
    ])])
    .unwrap();
    assert_eq!(dag.len(), 1);
    assert_eq!(dag.get("pkg").unwrap().installed_version, "1.0");
    assert!(dag.get("pkg").unwrap().dependencies.is_empty());
}

#[test]
fn one_broken_distribution_fails_the_graph() {
    let good = lines(&["Name: pkg", "Version: 1.0"]);
    let no_version = lines(&["Name: other"]);
    let no_name = lines(&["Version: 1.0"]);
    let bad_dep = lines(&["Name: x", "Version: 1", "Requires-Dist: y >> 1"]);
    assert_eq!(
        get_dep_dag_from_env(&[good.clone(), no_version.clone(), no_name.clone()]).err(),
        Some(NodeError::MissingVersion)
    );
    assert_eq!(
        get_dep_dag_from_env(&[no_name, no_version]).err(),
        Some(NodeError::MissingName)
    );
    assert_eq!(
        get_dep_dag_from_env(&[good, bad_dep]).err(),
        Some(NodeError::InvalidDependencyConstraint)
    );
}

#[test]
fn missing_name_and_version_do_not_depend_on_the_order() {
    let a = lines(&["Requires-Dist: x ==1", "Version: 1.0", "free text"]);
    let b = lines(&["free text", "Version: 1.0", "Requires-Dist: x ==1"]);
    assert_eq!(node_from_file_iter(&a).err(), Some(NodeError::MissingName));
    assert_eq!(node_from_file_iter(&b).err(), Some(NodeError::MissingName));
    let c = lines(&["Requires-Dist: x ==1", "Name: n"]);
    let d = lines(&["Name: n", "Requires-Dist: x ==1"]);
    assert_eq!(node_from_file_iter(&c).err(), Some(NodeError::MissingVersion));
    assert_eq!(node_from_file_iter(&d).err(), Some(NodeError::MissingVersion));
    assert_eq!(node_from_file_iter(&[]).err(), Some(NodeError::MissingName));
}

#[test]
fn name_is_looked_for_before_the_constraints_are_checked() {
    let l = lines(&["Requires-Dist: x >> 1"]);
    assert_eq!(node_from_file_iter(&l).err(), Some(NodeError::MissingName));
    let l = lines(&["Name: n", "Requires-Dist: x >> 1"]);
    assert_eq!(node_from_file_iter(&l).err(), Some(NodeError::MissingVersion));
}

#[test]
fn last_name_and_version_declaration_win() {
    let l = lines(&["Name: first", "Version: 1", "Name: Second", "Version: 2"]);
    let (name, meta) = node_from_file_iter(&l).unwrap();
    assert_eq!(name, "second");
    assert_eq!(meta.installed_version, "2");
}

#[test]
fn equal_declarations_collapse_and_keep_their_order() {
    let l = lines(&[
        "Name: n",
        "Version: 1",
        "Requires-Dist: Dep_A >=1",
        "Requires-Dist: dep-b >=1",
        "Requires-Dist: dep.a >=1",
        "Requires-Dist: dep-a >=2",
    ]);
    let (_, meta) = node_from_file_iter(&l).unwrap();
    assert_eq!(meta.dependencies.len(), 3);
    assert_eq!(meta.dependencies.at(0).name, "dep-a");
    assert_eq!(meta.dependencies.at(0).required_version, ">=1");
    assert_eq!(meta.dependencies.at(1).name, "dep-b");
    assert_eq!(meta.dependencies.at(2).required_version, ">=2");
    assert!(meta.dependencies.contains(&RequiredDistribution::from_str("DEP_B", ">=1")));
    assert!(!meta.dependencies.contains(&RequiredDistribution::from_str("dep-b", ">=2")));
}

#[test]
fn dependency_without_a_constraint_is_invalid() {
    let l = lines(&["Name: n", "Version: 1", "Requires-Dist: six"]);
    assert_eq!(
        node_from_file_iter(&l).err(),
        Some(NodeError::InvalidDependencyConstraint)
    );
}

#[test]
fn from_parsed_file_rejects_an_empty_version() {
    assert_eq!(
        DistributionMeta::from_parsed_file(String::new(), Vec::new()).err(),
        Some(NodeError::MissingVersion)
    );
    let meta = DistributionMeta::from_parsed_file(
        "1.0".to_string(),
        vec![("Some_Dep".to_string(), "==1.0".to_string())],
    )
    .unwrap();
    assert_eq!(meta.installed_version, "1.0");
    assert_eq!(meta.dependencies.at(0).name, "some-dep");
    assert_eq!(
        DistributionMeta::from_parsed_file(
            "1.0".to_string(),
            vec![("dep".to_string(), "1.0".to_string())],
        )
        .err(),
        Some(NodeError::InvalidDependencyConstraint)
    );
}

#[test]
fn error_messages() {
    assert_eq!(
        NodeError::MissingName.message(),
        "Can not parse package name from file"
    );
    assert_eq!(
        NodeError::MissingVersion.message(),
        "Can not parse version name from file"
    );
    assert_eq!(
        NodeError::InvalidDependencyConstraint.message(),
        "Failed to parse dependency version expression"
    );
}

#[test]
fn render_root_and_dependency() {
    let dag = two_node_graph();
    assert_eq!(
        render_dag(&dag, &"a".to_string(), None, 0),
        vec![
            "a [installed=1.0]".to_string(),
            "----b [required=>=2.0, installed=2.1]".to_string(),
        ]
    );
    assert_eq!(
        render_dag(&dag, &"b".to_string(), Some(&"==2.1".to_string()), 2),
        vec!["--b [required===2.1, installed=2.1]".to_string()]
    );
}

#[test]
fn render_marks_what_is_not_installed() {
    let dag = get_dep_dag_from_env(&[lines(&[
        "Name: app",
        "Version: 0.1",
        "Requires-Dist: ghost >=1.0; extra == \"x\"",
    ])])
    .unwrap();
    assert_eq!(
        render_forest(&dag),
        vec![
            "app [installed=0.1]".to_string(),
            "----ghost [required=>=1.0; extra == \"x\", installed=Not-installed]".to_string(),
        ]
    );
    assert_eq!(
        render_dag(&dag, &"nobody".to_string(), None, 0),
        vec!["nobody [installed=Not-installed]".to_string()]
    );
}

#[test]
fn render_keeps_complex_versions_verbatim() {
    for version in ["1.0a12.dev456", "1.0+abc.5", "1!1.0", "1.0.post456"] {
        let dag = get_dep_dag_from_env(&[lines(&[
            "Name: pkg",
            &format!("Version: {}", version),
        ])])
        .unwrap();
        assert_eq!(dag.get("pkg").unwrap().installed_version, version);
        assert_eq!(
            render_forest(&dag),
            vec![format!("pkg [installed={}]", version)]
        );
    }
}

#[test]
fn render_descends_four_dashes_a_level() {
    let dag = get_dep_dag_from_env(&[
        lines(&["Name: top", "Version: 1", "Requires-Dist: mid ==2", "Requires-Dist: leaf <4"]),
        lines(&["Name: mid", "Version: 2", "Requires-Dist: leaf >=3"]),
        lines(&["Name: leaf", "Version: 3"]),
    ])
    .unwrap();
    assert_eq!(
        render_forest(&dag),
        vec![
            "top [installed=1]".to_string(),
            "----mid [required===2, installed=2]".to_string(),
            "--------leaf [required=>=3, installed=3]".to_string(),
            "----leaf [required=<4, installed=3]".to_string(),
        ]
    );
}

#[test]
fn render_stops_at_a_cycle() {
    let dag = get_dep_dag_from_env(&[
        lines(&["Name: a", "Version: 1", "Requires-Dist: b ==2"]),
        lines(&["Name: b", "Version: 2", "Requires-Dist: a ==1"]),
    ])
    .unwrap();
    assert!(top_level_distributions(&dag).is_empty());
    assert_eq!(
        render_dag(&dag, &"a".to_string(), None, 0),
        vec![
            "a [installed=1]".to_string(),
            "----b [required===2, installed=2]".to_string(),
            "--------a [required===1, installed=1] (cycle)".to_string(),
        ]
    );
}

#[test]
fn lnreader_stops_at_the_first_refusal() {
    let all = lines(&["a", "b", "stop", "c", "stop"]);
    let kept = get_lnreader(&all, |l: &String| l != "stop");
    assert_eq!(kept, &["a".to_string(), "b".to_string()][..]);
    assert_eq!(get_lnreader(&all, |_: &String| true).len(), 5);
    assert_eq!(get_lnreader(&all, |_: &String| false).len(), 0);
}

#[test]
fn header_ends_at_the_content_type_line() {
    let all = lines(&["Name: x", "Description-Content-Type", "Version: 1"]);
    assert_eq!(header_lines(&all), &["Name: x".to_string()][..]);
    assert!(is_header_line(&"Description-Content-Type: text/markdown".to_string()));
    assert!(!is_header_line(&"Description-Content-Type".to_string()));
    assert!(same_text("abc", "abc"));
    assert!(!same_text("abc", "abcd"));
    assert!(!same_text("abcd", "abc"));
    assert!(!same_text("abc", "abd"));
    assert!(same_text("", ""));
}

#[test]
fn metadata_of_a_released_distribution() {
    let source = lines(&[
        "Metadata-Version: 2.1",
        "Name: requests",
        "Version: 2.31.0",
        "Summary: Python HTTP for Humans.",
        "Requires-Python: >=3.7",
        "Requires-Dist: charset-normalizer (<4,>=2)",
        "Requires-Dist: idna (<4,>=2.5)",
        "Requires-Dist: urllib3 (<3,>=1.21.1)",
        "Requires-Dist: certifi (>=2017.4.17)",
        "Provides-Extra: socks",
        "Requires-Dist: PySocks (!=1.5.7,>=1.5.6) ; extra == 'socks'",
        "Description-Content-Type",
        "Requires-Dist: not a header line",
    ]);
    let dag = get_dep_dag_from_env(&[source]).unwrap();
    assert_eq!(
        render_forest(&dag),
        vec![
            "requests [installed=2.31.0]".to_string(),
            "----charset-normalizer [required=<4,>=2, installed=Not-installed]".to_string(),
            "----idna [required=<4,>=2.5, installed=Not-installed]".to_string(),
            "----urllib3 [required=<3,>=1.21.1, installed=Not-installed]".to_string(),
            "----certifi [required=>=2017.4.17, installed=Not-installed]".to_string(),
            "----pysocks [required=!=1.5.7,>=1.5.6 ; extra == 'socks', installed=Not-installed]"
                .to_string(),
        ]
    );
}

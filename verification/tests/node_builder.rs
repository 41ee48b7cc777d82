use rdeptree::dag::{node_from_file_iter, RequiredDistribution};
use rdeptree::error::NodeError;
use rdeptree::parser::DepParser;

#[test]
fn distr_meta_from_iter_simple() {
    let sample_meta = [
        "package: some-package",
        "Name: Sample_Package",
        "Version: 0.0.1",
        "Developed by me",
        "Requires-Dist: pyarrow>=10.0.1; extra == \"pyarrow\"",
    ];

    let (distribution_name, distribution_meta) =
        node_from_file_iter(&sample_meta.map(String::from)).unwrap();

    assert_eq!(distribution_name, "sample-package");
    assert_eq!(distribution_meta.installed_version, "0.0.1");
    assert_eq!(distribution_meta.dependencies.is_empty(), false);
    assert_eq!(distribution_meta.dependencies.len(), 1);

    let expected_dependency =
        RequiredDistribution::from_str("pyarrow", ">=10.0.1; extra == \"pyarrow\"");
    let actual_dependency = distribution_meta
        .dependencies
        .get(&expected_dependency)
        .unwrap();

    assert_eq!(expected_dependency.name, actual_dependency.name);
    assert_eq!(
        expected_dependency.required_version,
        actual_dependency.required_version
    );
    assert_eq!(
        DepParser::parse_version_comparison(&actual_dependency.required_version),
        Some(">=10.0.1".to_string())
    );
}

#[test]
fn distr_meta_from_iter_repeating_distrs_different_version() {
    let sample_meta = [
        "package: some-package",
        "Name: Sample_Package",
        "Version: 0.0.1",
        "Developed by me",
        "Requires-Dist: numpy>=1.22.4; python_version < \"3.11\"",
        "Requires-Dist: numpy>=1.23.2; python_version == \"3.11\"",
        "Requires-Dist: numpy>=1.26.0; python_version >= \"3.12\"",
    ];

    let (distribution_name, distribution_meta) =
        node_from_file_iter(&sample_meta.map(String::from)).unwrap();

    assert_eq!(distribution_name, "sample-package");
    assert_eq!(distribution_meta.installed_version, "0.0.1");
    assert_eq!(distribution_meta.dependencies.is_empty(), false);
    assert_eq!(distribution_meta.dependencies.len(), 3);

    for (depname, depver, marker) in [
        ("numpy", ">=1.22.4", "; python_version < \"3.11\""),
        ("numpy", ">=1.23.2", "; python_version == \"3.11\""),
        ("numpy", ">=1.26.0", "; python_version >= \"3.12\""),
    ] {
        let expected_dependency =
            RequiredDistribution::from_str(depname, &format!("{}{}", depver, marker));
        let actual_dependency = distribution_meta
            .dependencies
            .get(&expected_dependency)
            .expect("Can not find an according dependency");

        assert_eq!(expected_dependency.name, actual_dependency.name);
        assert_eq!(
            expected_dependency.required_version,
            actual_dependency.required_version
        );
        assert_eq!(
            DepParser::parse_version_comparison(&actual_dependency.required_version),
            Some(depver.to_string())
        );
    }
}

#[test]
fn parse_requires_dist_drop_unmatched_records() {
    let input_data = [
        "Header: document header",
        "Version: 1.99.1241",
        "NamedRow: ok",
        "Name: pythonDistr",
        "Requires-Dist: dependency_package == 1.0.1",
    ];

    let (distribution_name, distribution_meta) =
        node_from_file_iter(&input_data.map(String::from)).unwrap();

    assert_eq!(distribution_name, "pythondistr");
    assert_eq!(distribution_meta.installed_version, "1.99.1241");
    assert_eq!(distribution_meta.dependencies.len(), 1);

    let expected_dependency = RequiredDistribution::from_str("dependency-package", "== 1.0.1");
    let actual_dependency = distribution_meta
        .dependencies
        .get(&expected_dependency)
        .unwrap();

    assert_eq!(expected_dependency.name, actual_dependency.name);
    assert_eq!(
        expected_dependency.required_version,
        actual_dependency.required_version
    );
}

#[test]
fn parse_multiple_dependencies() {
    let input_data = [
        "Header: document header",
        "Version: 1.99.1241",
        "NamedRow: ok",
        "Name: pythonDistr",
        "Requires-Dist: dependency_package == 1.0.1",
        "Requires-Dist: some_dependency >= 99.123.456",
    ];

    let (distribution_name, distribution_meta) =
        node_from_file_iter(&input_data.map(String::from)).unwrap();

    assert_eq!(distribution_name, "pythondistr");
    assert_eq!(distribution_meta.installed_version, "1.99.1241");
    assert_eq!(distribution_meta.dependencies.len(), 2);

    for (depname, depver) in [
        ("dependency-package", "== 1.0.1"),
        ("some-dependency", ">= 99.123.456"),
    ] {
        let expected_dependency = RequiredDistribution::from_str(depname, depver);
        let actual_dependency = distribution_meta
            .dependencies
            .get(&expected_dependency)
            .unwrap();

        assert_eq!(expected_dependency.name, actual_dependency.name);
        assert_eq!(
            expected_dependency.required_version,
            actual_dependency.required_version
        );
    }
}

#[test]
fn distr_meta_no_version_fail() {
    let sample_meta = [
        String::from("package: some-package"),
        String::from("Name: Sample_Package"),
        String::from("Developed by me"),
    ];

    let result = node_from_file_iter(&sample_meta);
    assert!(result.is_err());
    assert_eq!(
        result.err().map(|e| e.message()),
        Some("Can not parse version name from file")
    );
}

#[test]
fn distr_meta_no_name_fail() {
    let sample_meta = [
        String::from("version: 1.0.1"),
        String::from("Developed by me"),
    ];

    let result = node_from_file_iter(&sample_meta);
    assert!(result.is_err());
    assert_eq!(
        result.err().map(|e| e.message()),
        Some("Can not parse package name from file")
    );
}

#[test]
fn parse_distr_meta_complex_names() {
    let tests_cases = [
        (
            [
                "Name: package",
                "Version: 2.4.1",
                "Requires-Dist: dependency_package == 1.0.1",
            ],
            ["package", "2.4.1", "dependency-package", "== 1.0.1"],
        ),
        (
            [
                "Name: some-package",
                "Version: 32.445.11",
                "Requires-Dist: some_dependency-package >= 3.3.3",
            ],
            [
                "some-package",
                "32.445.11",
                "some-dependency-package",
                ">= 3.3.3",
            ],
        ),
        (
            [
                "Name: some_package",
                "Version:2014.04",
                "Requires-Dist: some_dependency-package != 0.5.999",
            ],
            [
                "some-package",
                "2014.04",
                "some-dependency-package",
                "!= 0.5.999",
            ],
        ),
        (
            [
                "Name:there-is_very--complicated_name",
                "Version: 1.0",
                "Requires-Dist: there-is_very--complicated_DEPENDENCY_-_-name != 0.5.999",
            ],
            [
                "there-is-very-complicated-name",
                "1.0",
                "there-is-very-complicated-dependency-name",
                "!= 0.5.999",
            ],
        ),
    ];

    for (input_data, expected_data) in tests_cases.iter() {
        let (distribution_name, distribution_meta) =
            node_from_file_iter(&input_data.map(String::from)).unwrap();

        assert_eq!(
            distribution_name, expected_data[0],
            "Test failed for the pair: actual={}, expected={}",
            distribution_name, expected_data[0],
        );
        assert_eq!(
            distribution_meta.installed_version, expected_data[1],
            "Test failed for the pair: actual={}, expected={}",
            distribution_meta.installed_version, expected_data[1],
        );

        assert_eq!(distribution_meta.dependencies.len(), 1);

        let expected_dependency =
            RequiredDistribution::from_str(expected_data[2], expected_data[3]);
        let actual_dependency = &distribution_meta
            .dependencies
            .get(&expected_dependency)
            .expect("FAIL: There is no same object as expected");

        assert_eq!(
            expected_dependency.name, actual_dependency.name,
            "Test failed for the pair: actual={}, expected={}",
            expected_dependency.name, actual_dependency.name,
        );
        assert_eq!(
            expected_dependency.required_version, actual_dependency.required_version,
            "Test failed for the pair: actual={}, expected={}",
            expected_dependency.required_version, actual_dependency.required_version,
        );
    }
}

#[test]
fn parse_distr_meta_complex_version() {
    let tests_cases = [
        (
            [
                "Name: simple-name",
                "Version: 1.dev0",
                "Requires-Dist: some_dependency-package != 1.0.dev456",
            ],
            [
                "simple-name",
                "1.dev0",
                "some-dependency-package",
                "!= 1.0.dev456",
            ],
        ),
        (
            [
                "Name: simple-name",
                "Version: 1.0a1",
                "Requires-Dist: some_dependency-package < 1.0a2.dev456",
            ],
            [
                "simple-name",
                "1.0a1",
                "some-dependency-package",
                "< 1.0a2.dev456",
            ],
        ),
        (
            [
                "Name: simple-name",
                "Version: 1.0a12.dev456",
                "Requires-Dist: some_dependency-package > 1.0a12",
            ],
            [
                "simple-name",
                "1.0a12.dev456",
                "some-dependency-package",
                "> 1.0a12",
            ],
        ),
        (
            [
                "Name: simple-name",
                "Version: 1.0b1.dev456",
                "Requires-Dist: some_dependency-package <= 1.0b2",
            ],
            [
                "simple-name",
                "1.0b1.dev456",
                "some-dependency-package",
                "<= 1.0b2",
            ],
        ),
        (
            [
                "Name: simple-name",
                "Version: 1.0b2.post345.dev456",
                "Requires-Dist: some_dependency-package > 1.0b2.post345",
            ],
            [
                "simple-name",
                "1.0b2.post345.dev456",
                "some-dependency-package",
                "> 1.0b2.post345",
            ],
        ),
        (
            [
                "Name: simple-name",
                "Version: 1.0rc1.dev456",
                "Requires-Dist: some_dependency-package != 1.0rc1",
            ],
            [
                "simple-name",
                "1.0rc1.dev456",
                "some-dependency-package",
                "!= 1.0rc1",
            ],
        ),
        (
            [
                "Name: simple-name",
                "Version: 1.0+abc.5",
                "Requires-Dist: some_dependency-package < 1.0+abc.7",
            ],
            [
                "simple-name",
                "1.0+abc.5",
                "some-dependency-package",
                "< 1.0+abc.7",
            ],
        ),
        (
            [
                "Name: simple-name",
                "Version: 1.0+5",
                "Requires-Dist: some_dependency-package >= 1.0.post456.dev34",
            ],
            [
                "simple-name",
                "1.0+5",
                "some-dependency-package",
                ">= 1.0.post456.dev34",
            ],
        ),
        (
            [
                "Name: simple-name",
                "Version: 1.0.post456",
                "Requires-Dist: some_dependency-package >= 1!1.0",
            ],
            [
                "simple-name",
                "1.0.post456",
                "some-dependency-package",
                ">= 1!1.0",
            ],
        ),
        (
            [
                "Name: simple-name",
                "Version: 1.0.post456",
                "Requires-Dist: urllib3 <3,>=1.21.1",
            ],
            ["simple-name", "1.0.post456", "urllib3", "<3,>=1.21.1"],
        ),
    ];

    for (input_data, expected_data) in tests_cases.iter() {
        let (distribution_name, distribution_meta) =
            node_from_file_iter(&input_data.map(String::from)).unwrap();

        assert_eq!(
            distribution_name, expected_data[0],
            "Test failed for the pair: actual={}, expected={}",
            distribution_name, expected_data[0],
        );
        assert_eq!(
            distribution_meta.installed_version, expected_data[1],
            "Test failed for the pair: actual={}, expected={}",
            distribution_meta.installed_version, expected_data[1],
        );

        assert_eq!(distribution_meta.dependencies.len(), 1);

        let expected_dependency =
            RequiredDistribution::from_str(expected_data[2], expected_data[3]);
        let actual_dependency = &distribution_meta
            .dependencies
            .get(&expected_dependency)
            .expect("FAIL: There is no same object as expected");

        assert_eq!(
            expected_dependency.name, actual_dependency.name,
            "Test failed for the pair: actual={}, expected={}",
            expected_dependency.name, actual_dependency.name,
        );
        assert_eq!(
            expected_dependency.required_version, actual_dependency.required_version,
            "Test failed for the pair: actual={}, expected={}",
            expected_dependency.required_version, actual_dependency.required_version,
        );
    }
}

#[test]
fn invalid_constraint_fails_the_node() {
    let lines = [
        String::from("Name: pkg"),
        String::from("Version: 1.0"),
        String::from("Requires-Dist: dep >= not-a-version"),
    ];
    assert_eq!(
        node_from_file_iter(&lines).err(),
        Some(NodeError::InvalidDependencyConstraint)
    );
}

use boincview::client::project_names;

fn project(url: &str, name: &str) -> (Option<String>, Option<String>) {
    (Some(url.to_string()), Some(name.to_string()))
}

#[test]
fn names_by_url() {
    let names = project_names(&vec![
        project("https://einstein.phys.uwm.edu/", "Einstein@Home"),
        project("https://boinc.bakerlab.org/rosetta/", "Rosetta@home"),
    ]);
    assert_eq!(
        names,
        vec![
            ("https://einstein.phys.uwm.edu/".to_string(), "Einstein@Home".to_string()),
            ("https://boinc.bakerlab.org/rosetta/".to_string(), "Rosetta@home".to_string()),
        ]
    );
}

#[test]
fn later_project_of_same_url_wins() {
    let names = project_names(&vec![project("u", "old"), project("v", "x"), project("u", "new")]);
    assert_eq!(names, vec![("u".to_string(), "new".to_string()), ("v".to_string(), "x".to_string())]);
}

#[test]
fn no_projects() {
    assert!(project_names(&Vec::new()).is_empty());
}

use jira_store::models::{Epic, Status, Story};

#[test]
fn status_should_default_to_open() {
    let s = Status::default();
    assert_eq!(s, Status::Open)
}

#[test]
fn status_has_a_to_string_method() {
    let statuses: Vec<Status> = vec![
        Status::Open,
        Status::InProgress,
        Status::Resolved,
        Status::Closed,
    ];
    let expected_strings = vec!["OPEN", "IN PROGRESS", "RESOLVED", "CLOSED"];
    let strings_match: bool = statuses
        .iter()
        .zip(expected_strings.iter())
        .map(|(actual, expected)| {
            let actual_string = actual.to_string();
            if &actual_string == expected {
                Ok(actual_string)
            } else {
                Err(format!("{} and {} do not match", &actual_string, &expected))
            }
        })
        .all(|result| result.is_ok());

    assert_eq!(strings_match, true)
}

#[test]
fn new_epic_is_open_and_has_no_stories() {
    let epic = Epic::new("Name".to_owned(), "Description".to_owned());
    assert_eq!(epic.name, "Name");
    assert_eq!(epic.description, "Description");
    assert_eq!(epic.status, Status::Open);
    assert_eq!(epic.stories, Vec::<u32>::new());
}

#[test]
fn new_story_is_open() {
    let story = Story::new("Name".to_owned(), "Description".to_owned());
    assert_eq!(story.name, "Name");
    assert_eq!(story.description, "Description");
    assert_eq!(story.status, Status::Open);
}

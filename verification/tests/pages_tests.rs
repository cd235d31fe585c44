use jira_store::db::{JiraDatabase, MockDB};
use jira_store::models::{Action, Epic};
use jira_store::pages::{get_column_string, HomePage};

#[test]
fn should_ellipsify_a_string_to_given_width() {
    let text = "hello world";
    let width0 = 0usize;
    let width1 = 1usize;
    let width2 = 2usize;
    let width3 = 3usize;
    let width4 = 4usize;
    let width5 = 5usize;

    assert_eq!(get_column_string(text, width0), "".to_owned());
    assert_eq!(get_column_string(text, width1), "h...".to_owned());
    assert_eq!(get_column_string(text, width2), "he...".to_owned());
    assert_eq!(get_column_string(text, width3), "hel...".to_owned());
    assert_eq!(get_column_string(text, width4), "hell...".to_owned());
    assert_eq!(get_column_string(text, width5), "hello...".to_owned());
}

#[test]
fn should_produce_empty_string_with_width_of_zero() {
    let text = "yo";
    let width = 0usize;

    let expected = String::from("");
    let result = get_column_string(text, width);

    assert_eq!(result, expected)
}

#[test]
fn should_display_complete_text_if_smaller_than_width() {
    let text = "kiss me";
    let width = 20usize;

    let expected = String::from("kiss me");
    let result = get_column_string(text, width);

    assert_eq!(result, expected)
}

#[test]
fn draw_page_should_not_throw_error() {
    let db = JiraDatabase::new(MockDB::new());
    let home_page = HomePage::new(db);
    let result = home_page.draw_page();

    assert!(result.is_ok())
}

#[test]
fn handle_input_should_return_the_correct_actions() {
    let db = JiraDatabase::new(MockDB::new());
    let home_page = HomePage::new(db);
    let action = home_page.handle_input("q").unwrap();
    assert!(matches!(action, Some(Action::Exit)));
}

#[test]
fn drawn_page_lists_the_persisted_epics() {
    let mut db = JiraDatabase::new(MockDB::new());
    let epic = Epic::new(
        "Rainbows & Unicorns".to_owned(),
        "Things that make a great childhood".to_owned(),
    );
    let epic_id = db.create_epic(epic).unwrap();

    let home_page = HomePage::new(db);
    let output = home_page.draw_page().unwrap();

    assert!(output.contains("-------------------------- EPICS ----------------------------------"));
    assert!(output.contains(&epic_id.to_string()));
    assert!(output.contains("Rainbows"));
    assert!(output.contains("OPEN"));
    assert!(output.contains("[q] quit"));
}

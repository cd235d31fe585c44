use jira_store::db::{Database, JiraDatabase, MockDB};
use jira_store::models::{DbError, Epic, Status, Story};

#[test]
fn create_a_new_epic() {
    let mut db = JiraDatabase::new(MockDB::new());
    let epic = Epic::new("".to_owned(), "".to_owned());

    let result = db.create_epic(epic.clone());

    assert_eq!(result.is_ok(), true, "The result was an error");

    let id = result.unwrap();
    let db_state = db.read_db().unwrap();

    let expected_id = 1;

    assert_eq!(id, expected_id, "The resulting Id is not incremented");
    assert_eq!(
        db_state.last_item_id, expected_id,
        "The last_item_id should match the incremented id"
    );
    assert_eq!(db_state.epics.get(id), Some(&epic))
}

#[test]
fn create_story_should_error_with_invalid_epic_id() {
    let mut db = JiraDatabase::new(MockDB::new());
    let story = Story::new("Sample text".to_owned(), "description text".to_owned());
    let invalid_id: u32 = 100;
    let result: Result<u32, DbError> = db.create_story(story, invalid_id);

    assert_eq!(result.is_err(), true);
}

#[test]
fn create_story_should_work() {
    let mut db = JiraDatabase::new(MockDB::new());
    let epic = Epic::new("Key Project".to_owned(), "Attach some stories".to_owned());
    let story = Story::new(
        "New story".to_owned(),
        "A really important new story".to_owned(),
    );

    let result_epic_id = db.create_epic(epic);
    assert_eq!(result_epic_id.is_ok(), true);

    let epic_id = result_epic_id.unwrap();

    let result = db.create_story(story.clone(), epic_id);
    assert_eq!(
        result.is_ok(),
        true,
        "Calling `.create_story` resulted in an error"
    );

    let expected_id = 2u32;
    let id = result.unwrap();
    assert_eq!(
        id, expected_id,
        "The `id` of the added story didn't match the expected value"
    );

    let persisted_story = db
        .database
        .read_db()
        .unwrap()
        .stories
        .get(id)
        .unwrap()
        .clone();
    assert_eq!(
        persisted_story, story,
        "The story fetched does not match the story persisted"
    );
}

#[test]
fn delete_epic_should_error_with_invalid_epic_id() {
    let mut db = JiraDatabase::new(MockDB::new());
    let epic = Epic::new("".to_owned(), "".to_owned());
    let new_epic = db.create_epic(epic.clone());
    assert_eq!(new_epic.is_ok(), true);

    let invalid_epic_id = 99;
    let result = db.delete_epic(invalid_epic_id);

    assert_eq!(result.is_err(), true);
}

#[test]
fn delete_epic_should_delete_existing_epic() {
    let mut db = JiraDatabase::new(MockDB::new());
    let epic = Epic::new("".to_owned(), "".to_owned());
    let result_epic_id = db.create_epic(epic.clone());

    assert_eq!(result_epic_id.is_ok(), true);

    let id = result_epic_id.unwrap();
    let returned_epic = db.delete_epic(id).unwrap();

    let db_state = db.database.read_db().unwrap();
    let not_found = db_state.epics.get(id);
    assert_eq!(not_found, None);
    assert_eq!(returned_epic, epic);
}

#[test]
fn delete_story_should_error_if_invalid_epic_id() {
    let mut db = JiraDatabase::new(MockDB::new());
    let epic = Epic::new("".to_owned(), "".to_owned());
    let story = Story::new("".to_owned(), "".to_owned());

    let res_epic_id = db.create_epic(epic);
    assert!(res_epic_id.is_ok(), "Epic did not persist to db.");

    let epic_id = res_epic_id.unwrap();
    let res_story_id = db.create_story(story, epic_id);
    assert!(res_story_id.is_ok(), "The story was not created in DB");

    let invalid_epic_id = 999;
    assert_ne!(
        epic_id, invalid_epic_id,
        "The epic ID should not be invalid"
    );

    let result = db.delete_story(invalid_epic_id, res_story_id.unwrap());
    assert_eq!(result.is_err(), true);
}

#[test]
fn delete_story_should_error_if_story_not_found_in_epic() {
    let mut db = JiraDatabase::new(MockDB::new());
    let epic = Epic::new("".to_owned(), "".to_owned());
    let story = Story::new("".to_owned(), "".to_owned());
    let res_epic_id = db.create_epic(epic);
    assert!(res_epic_id.is_ok());

    let epic_id = res_epic_id.unwrap();
    let res_story_id = db.create_story(story, epic_id);
    assert!(res_story_id.is_ok());

    let invalid_story_id = 999;
    assert_ne!(invalid_story_id, res_story_id.unwrap());

    let result = db.delete_story(epic_id, invalid_story_id);
    assert_eq!(result.is_err(), true);
}

#[test]
fn delete_story_should_work() {
    let mut db = JiraDatabase::new(MockDB::new());
    let epic = Epic::new("".to_owned(), "".to_owned());
    let story = Story::new("".to_owned(), "".to_owned());
    let res_epic_id = db.create_epic(epic);
    assert!(res_epic_id.is_ok(), "Unable to write new epic");

    let epic_id = res_epic_id.unwrap();
    let res_story_id = db.create_story(story.clone(), epic_id);
    assert!(res_story_id.is_ok(), "Unable to write new story");

    let story_id = res_story_id.unwrap();

    let res_deleted_story = db.delete_story(epic_id, story_id);
    assert!(res_deleted_story.is_ok(), "Unable to delete story");
    assert_eq!(
        res_deleted_story.unwrap(),
        story,
        "The deleted story does not match was was added"
    );

    let current_state = db.read_db().unwrap();
    let not_found_story = current_state.stories.get(story_id);
    assert_eq!(
        not_found_story, None,
        "Requesting the deleted story should be None"
    );

    let epic_stories_len = current_state
        .epics
        .get(epic_id)
        .map(|epic| epic.stories.len());

    let expected_epic_story_len = 0usize;
    assert_eq!(epic_stories_len.unwrap(), expected_epic_story_len);
}

#[test]
fn read_should_fetch_an_existing_epic() {
    let mut db = JiraDatabase::new(MockDB::new());
    let epic = Epic::new("Roadmap".to_owned(), "Quarterly goals".to_owned());
    let id = db.create_epic(epic.clone()).unwrap();

    assert_eq!(db.read(id).unwrap(), epic);
    assert!(db.read(id + 1).is_err());
}

#[test]
fn create_epic_on_empty_store_issues_id_one() {
    let mut db = JiraDatabase::new(MockDB::new());
    let epic = Epic::new("E1".to_owned(), "".to_owned());

    let id = db.create_epic(epic.clone()).unwrap();
    assert_eq!(id, 1);

    let state = db.read_db().unwrap();
    assert_eq!(state.last_item_id, 1);
    assert_eq!(state.epics.len(), 1);
    assert_eq!(state.epics.get(1), Some(&epic));
    assert_eq!(state.stories.len(), 0);
}

#[test]
fn create_story_appends_id_to_owning_epic() {
    let mut db = JiraDatabase::new(MockDB::new());
    let epic = Epic::new("E1".to_owned(), "".to_owned());
    let story = Story::new("S1".to_owned(), "".to_owned());

    let epic_id = db.create_epic(epic).unwrap();
    assert_eq!(epic_id, 1);
    let story_id = db.create_story(story, epic_id).unwrap();
    assert_eq!(story_id, 2);

    let state = db.read_db().unwrap();
    assert_eq!(state.last_item_id, 2);
    assert_eq!(state.epics.get(1).unwrap().stories, vec![2]);
    assert!(state.stories.get(2).is_some());
}

#[test]
fn delete_story_strips_id_from_owning_epic() {
    let mut db = JiraDatabase::new(MockDB::new());
    let epic = Epic::new("E1".to_owned(), "".to_owned());
    let story = Story::new("S1".to_owned(), "".to_owned());

    let epic_id = db.create_epic(epic).unwrap();
    let story_id = db.create_story(story.clone(), epic_id).unwrap();

    let deleted = db.delete_story(epic_id, story_id).unwrap();
    assert_eq!(deleted.name, "S1");
    assert_eq!(deleted, story);

    let state = db.read_db().unwrap();
    assert_eq!(state.epics.get(epic_id).unwrap().stories, Vec::<u32>::new());
    assert_eq!(state.stories.get(story_id), None);
}

#[test]
fn delete_epic_with_absent_id_is_not_found_and_state_unchanged() {
    let mut db = JiraDatabase::new(MockDB::new());
    let epic = Epic::new("E1".to_owned(), "".to_owned());
    let _ = db.create_epic(epic).unwrap();
    let before = db.read_db().unwrap();

    let result = db.delete_epic(99);
    assert_eq!(result, Err(DbError::NotFound));

    let after = db.read_db().unwrap();
    assert_eq!(after, before);
}

#[test]
fn issued_ids_are_distinct_across_epics_and_stories() {
    let mut db = JiraDatabase::new(MockDB::new());
    let mut issued = Vec::new();
    let e1 = db.create_epic(Epic::new("a".to_owned(), "".to_owned())).unwrap();
    issued.push(e1);
    let s1 = db
        .create_story(Story::new("b".to_owned(), "".to_owned()), e1)
        .unwrap();
    issued.push(s1);
    let e2 = db.create_epic(Epic::new("c".to_owned(), "".to_owned())).unwrap();
    issued.push(e2);
    let s2 = db
        .create_story(Story::new("d".to_owned(), "".to_owned()), e2)
        .unwrap();
    issued.push(s2);

    for i in 0..issued.len() {
        for j in 0..issued.len() {
            if i != j {
                assert_ne!(issued[i], issued[j]);
            }
        }
    }
    let state = db.read_db().unwrap();
    assert_eq!(state.last_item_id, *issued.iter().max().unwrap());
}

#[test]
fn update_epic_status_changes_only_that_status() {
    let mut db = JiraDatabase::new(MockDB::new());
    let epic_id = db
        .create_epic(Epic::new("E1".to_owned(), "d".to_owned()))
        .unwrap();

    db.update_epic_status(epic_id, Status::Closed).unwrap();

    let state = db.read_db().unwrap();
    let epic = state.epics.get(epic_id).unwrap();
    assert_eq!(epic.status, Status::Closed);
    assert_eq!(epic.name, "E1");
    assert!(db.update_epic_status(99, Status::Open).is_err());
}

#[test]
fn update_story_status_changes_only_that_status() {
    let mut db = JiraDatabase::new(MockDB::new());
    let epic_id = db
        .create_epic(Epic::new("E1".to_owned(), "d".to_owned()))
        .unwrap();
    let story_id = db
        .create_story(Story::new("S1".to_owned(), "d".to_owned()), epic_id)
        .unwrap();

    db.update_story_status(story_id, Status::InProgress).unwrap();

    let state = db.read_db().unwrap();
    let story = state.stories.get(story_id).unwrap();
    assert_eq!(story.status, Status::InProgress);
    assert_eq!(story.name, "S1");
    assert!(db.update_story_status(99, Status::Open).is_err());
}

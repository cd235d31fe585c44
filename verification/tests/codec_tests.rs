use jira_store::codec::{decode_db_state, encode_db_state};
use jira_store::db::{Database, JiraDatabase, MockDB};
use jira_store::models::{DBState, Epic, Status, Story};

#[test]
fn empty_state_encodes_to_the_canonical_document() {
    let state = DBState::empty();
    let text = encode_db_state(&state);
    assert_eq!(text, "{\"last_item_id\":0,\"epics\":{},\"stories\":{}}");
}

#[test]
fn canonical_empty_document_decodes_to_the_empty_state() {
    let text = "{\"last_item_id\":0,\"epics\":{},\"stories\":{}}";
    let decoded = decode_db_state(text).expect("the canonical empty document should decode");
    assert_eq!(decoded.last_item_id, 0);
    assert_eq!(decoded.epics.len(), 0);
    assert_eq!(decoded.stories.len(), 0);
    assert_eq!(decoded, DBState::empty());
}

#[test]
fn malformed_document_fails_to_decode() {
    let invalid_json_contents = r#"{ "last_item_id": 0 epics: {} stories {} }"#;
    assert_eq!(decode_db_state(invalid_json_contents), None);
    assert_eq!(decode_db_state(""), None);
    assert_eq!(decode_db_state("{\"last_item_id\":0,\"epics\":{},\"stories\":{}}extra"), None);
    assert_eq!(decode_db_state("{\"last_item_id\":-1,\"epics\":{},\"stories\":{}}"), None);
    assert_eq!(decode_db_state("{\"last_item_id\":4294967296,\"epics\":{},\"stories\":{}}"), None);
}

#[test]
fn populated_state_round_trips_through_the_codec() {
    let mut db = JiraDatabase::new(MockDB::new());
    let epic_id = db
        .create_epic(Epic::new("epic 1".to_owned(), "epic 1".to_owned()))
        .unwrap();
    let story_id = db
        .create_story(Story::new("story \"2\"".to_owned(), "line\nbreak \\ tab\t".to_owned()), epic_id)
        .unwrap();
    assert_eq!((epic_id, story_id), (1, 2));

    let state = db.database.read_db().unwrap();
    let text = encode_db_state(&state);
    let decoded = decode_db_state(text.as_str()).expect("the encoded snapshot should decode");
    assert_eq!(decoded, state);
}

#[test]
fn empty_state_round_trips_through_the_codec() {
    let state = DBState::empty();
    let decoded = decode_db_state(encode_db_state(&state).as_str()).unwrap();
    assert_eq!(decoded, state);
}

#[test]
fn encoded_snapshot_spells_out_ids_statuses_and_escapes() {
    let mut db = JiraDatabase::new(MockDB::new());
    let epic_id = db
        .create_epic(Epic::new("E".to_owned(), "d".to_owned()))
        .unwrap();
    let _story_id = db
        .create_story(Story::new("S\"q".to_owned(), "".to_owned()), epic_id)
        .unwrap();
    let state = db.database.read_db().unwrap();
    let text = encode_db_state(&state);
    let expected = "{\"last_item_id\":2,\"epics\":{\"1\":{\"name\":\"E\",\"description\":\"d\",\"status\":\"Open\",\"stories\":[2]}},\"stories\":{\"2\":{\"name\":\"S\\\"q\",\"description\":\"\",\"status\":\"Open\"}}}";
    assert_eq!(text, expected);
}

#[test]
fn all_status_tags_round_trip() {
    for status in [
        Status::Open,
        Status::InProgress,
        Status::Resolved,
        Status::Closed,
    ] {
        let mut story = Story::new("s".to_owned(), "".to_owned());
        story.status = status;
        let mut db = JiraDatabase::new(MockDB::new());
        let epic_id = db
            .create_epic(Epic::new("e".to_owned(), "".to_owned()))
            .unwrap();
        db.create_story(story, epic_id).unwrap();
        let state = db.database.read_db().unwrap();
        let decoded = decode_db_state(encode_db_state(&state).as_str()).unwrap();
        assert_eq!(decoded, state);
        assert_eq!(decoded.stories.get(2).unwrap().status, status);
    }
}

#[test]
fn control_characters_round_trip_as_unicode_escapes() {
    let mut db = JiraDatabase::new(MockDB::new());
    db.create_epic(Epic::new("\u{1}\u{1f}".to_owned(), "\r".to_owned()))
        .unwrap();
    let state = db.database.read_db().unwrap();
    let text = encode_db_state(&state);
    assert!(text.contains("\\u0001"));
    assert!(text.contains("\\u001f"));
    assert!(text.contains("\\u000d"));
    let decoded = decode_db_state(text.as_str()).unwrap();
    assert_eq!(decoded, state);
}

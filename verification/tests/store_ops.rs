use mdsticker::sticker::Sticker;
use mdsticker::store::Store;
use mdsticker::store::StoreError;

fn sample(uuid: &str) -> Sticker {
    Sticker {
        uuid: uuid.to_string(),
        markdown: "hello *world*".to_string(),
        color: "#a1b2c3".to_string(),
        pos_x: 10,
        pos_y: -20,
        height: 400,
        width: 500,
        pinned: false,
        archived: false,
        created_at: String::new(),
        updated_at: String::new(),
    }
}

fn ids(v: &[&str]) -> Vec<String> {
    v.iter().map(|s| s.to_string()).collect()
}

#[test]
fn create_then_get_returns_every_field() {
    let mut store = Store::new();
    let note = sample("a1");
    store.create(note.clone()).unwrap();
    let got = store.get("a1").unwrap();
    assert_eq!(got.uuid, note.uuid);
    assert_eq!(got.markdown, note.markdown);
    assert_eq!(got.color, note.color);
    assert_eq!(got.pos_x, note.pos_x);
    assert_eq!(got.pos_y, note.pos_y);
    assert_eq!(got.height, note.height);
    assert_eq!(got.width, note.width);
    assert_eq!(got.pinned, note.pinned);
    assert_eq!(got.archived, note.archived);
}

#[test]
fn create_duplicate_id_is_a_constraint_violation() {
    let mut store = Store::new();
    store.create(sample("a1")).unwrap();
    let r = store.create(sample("a1"));
    assert_eq!(r, Err(StoreError::ConstraintViolation));
    // the store is unchanged: the first record is still there
    assert_eq!(store.list_live().len(), 1);
}

#[test]
fn get_missing_id_is_not_found() {
    let store = Store::new();
    assert_eq!(store.get("nope").err(), Some(StoreError::NotFound));
}

#[test]
fn updates_replace_single_fields() {
    let mut store = Store::new();
    store.create(sample("a1")).unwrap();
    store.update_markdown("a1", "# title");
    store.update_color("a1", "#000000");
    store.update_position("a1", 100, 200);
    store.update_size("a1", 300, 400);
    let got = store.get("a1").unwrap();
    assert_eq!(got.markdown, "# title");
    assert_eq!(got.color, "#000000");
    assert_eq!(got.pos_x, 100);
    assert_eq!(got.pos_y, 200);
    assert_eq!(got.width, 300);
    assert_eq!(got.height, 400);
}

#[test]
fn updates_for_unknown_ids_are_no_ops() {
    let mut store = Store::new();
    store.create(sample("a1")).unwrap();
    store.update_markdown("zz", "changed");
    store.update_color("zz", "#ffffff");
    store.update_position("zz", 1, 2);
    store.update_size("zz", 3, 4);
    let got = store.get("a1").unwrap();
    assert_eq!(got.markdown, "hello *world*");
    assert_eq!(got.color, "#a1b2c3");
    assert_eq!(got.pos_x, 10);
    assert_eq!(got.pos_y, -20);
}

#[test]
fn toggle_pinned_is_its_own_inverse() {
    let mut store = Store::new();
    store.create(sample("a1")).unwrap();
    let first = store.toggle_pinned("a1");
    let second = store.toggle_pinned("a1");
    assert!(first);
    assert!(!second);
    assert!(!store.get("a1").unwrap().pinned);
}

#[test]
fn toggle_pinned_unknown_id_returns_false_and_changes_nothing() {
    let mut store = Store::new();
    store.create(sample("a1")).unwrap();
    assert!(!store.toggle_pinned("zz"));
    assert!(!store.get("a1").unwrap().pinned);
}

#[test]
fn archive_then_restore_preserves_all_fields_including_pinned() {
    let mut store = Store::new();
    store.create(sample("a1")).unwrap();
    store.toggle_pinned("a1");
    store.archive("a1");
    assert_eq!(store.list_live().len(), 0);
    store.restore(&ids(&["a1"]));
    let live = store.list_live();
    assert_eq!(live.len(), 1);
    assert_eq!(live[0].uuid, "a1");
    assert_eq!(live[0].markdown, "hello *world*");
    assert_eq!(live[0].color, "#a1b2c3");
    assert!(live[0].pinned);
    assert!(!live[0].archived);
}

#[test]
fn archive_is_idempotent() {
    let mut store = Store::new();
    store.create(sample("a1")).unwrap();
    store.archive("a1");
    store.archive("a1");
    assert_eq!(store.list_archived().len(), 1);
    assert_eq!(store.list_live().len(), 0);
}

#[test]
fn delete_after_archive_makes_get_fail_with_not_found() {
    let mut store = Store::new();
    store.create(sample("a1")).unwrap();
    store.archive("a1");
    store.delete_permanently(&ids(&["a1"]));
    assert_eq!(store.get("a1").err(), Some(StoreError::NotFound));
}

#[test]
fn listings_partition_the_store_and_are_ordered_by_id() {
    let mut store = Store::new();
    store.create(sample("c3")).unwrap();
    store.create(sample("a1")).unwrap();
    store.create(sample("b2")).unwrap();
    store.create(sample("d4")).unwrap();
    store.archive("b2");
    store.archive("d4");
    let live = store.list_live();
    let archived = store.list_archived();
    assert_eq!(live.len() + archived.len(), 4);
    let live_ids: Vec<&str> = live.iter().map(|s| s.uuid.as_str()).collect();
    let archived_ids: Vec<&str> = archived.iter().map(|s| s.uuid.as_str()).collect();
    assert_eq!(live_ids, vec!["a1", "c3"]);
    assert_eq!(archived_ids, vec!["b2", "d4"]);
    for id in &live_ids {
        assert!(!archived_ids.contains(id));
    }
}

#[test]
fn batch_restore_and_delete_touch_only_the_selected_records() {
    let mut store = Store::new();
    store.create(sample("a1")).unwrap();
    store.create(sample("b2")).unwrap();
    store.create(sample("c3")).unwrap();
    store.archive("a1");
    store.archive("b2");
    store.archive("c3");
    store.restore(&ids(&["a1", "c3"]));
    let live_ids: Vec<String> =
        store.list_live().iter().map(|s| s.uuid.clone()).collect();
    assert_eq!(live_ids, vec!["a1".to_string(), "c3".to_string()]);
    store.delete_permanently(&ids(&["b2", "zz"]));
    assert_eq!(store.get("b2").err(), Some(StoreError::NotFound));
    assert!(store.get("a1").is_ok());
    assert!(store.get("c3").is_ok());
}

#[test]
fn recover_unarchives_and_reports_the_reopened_records() {
    let mut store = Store::new();
    store.create(sample("a1")).unwrap();
    store.create(sample("b2")).unwrap();
    store.toggle_pinned("b2");
    store.archive("a1");
    store.archive("b2");
    let reopened = store.recover(&ids(&["b2"]));
    assert_eq!(reopened.len(), 1);
    assert_eq!(reopened[0].uuid, "b2");
    assert!(reopened[0].pinned);
    assert!(!reopened[0].archived);
    assert_eq!(store.list_archived().len(), 1);
    assert_eq!(store.list_archived()[0].uuid, "a1");
}

#[test]
fn geometry_at_the_extremes_is_stored_verbatim() {
    let mut store = Store::new();
    store.create(sample("a1")).unwrap();
    store.update_position("a1", i32::MIN, i32::MAX);
    store.update_size("a1", u32::MAX, u32::MAX);
    let got = store.get("a1").unwrap();
    assert_eq!((got.pos_x, got.pos_y), (i32::MIN, i32::MAX));
    assert_eq!((got.width, got.height), (u32::MAX, u32::MAX));
}

#[test]
fn end_to_end_note_lifecycle() {
    let mut store = Store::new();
    let a = Sticker::new("note-a", 0, 0, 400, 500);
    let id = a.uuid.clone();
    store.create(a).unwrap();
    store.update_position(&id, 100, 200);
    store.update_size(&id, 300, 400);
    let got = store.get(&id).unwrap();
    assert_eq!((got.pos_x, got.pos_y), (100, 200));
    assert_eq!((got.width, got.height), (300, 400));
    store.archive(&id);
    assert!(store.list_archived().iter().any(|s| s.uuid == id));
    assert!(!store.list_live().iter().any(|s| s.uuid == id));
    store.recover(&ids(&[&id]));
    let live = store.list_live();
    assert_eq!(live.len(), 1);
    assert_eq!(live[0].uuid, id);
    assert_eq!((live[0].pos_x, live[0].pos_y), (100, 200));
    assert_eq!((live[0].width, live[0].height), (300, 400));
    assert!(!live[0].pinned);
    store.delete_permanently(&ids(&[&id]));
    assert_eq!(store.get(&id).err(), Some(StoreError::NotFound));
}

use mdsticker::order::str_eq;
use mdsticker::order::str_lt;
use mdsticker::paths::path_mapper;
use mdsticker::session::allocate_note_id;
use mdsticker::session::plan_startup;
use mdsticker::session::register_note;
use mdsticker::session::StartupAction;
use mdsticker::sticker::format_color;
use mdsticker::sticker::generate_random_color;
use mdsticker::sticker::Sticker;
use mdsticker::store::Store;
use mdsticker::store::StoreError;

fn assert_color_tag(color: &str) {
    assert_eq!(color.len(), 7);
    let chars: Vec<char> = color.chars().collect();
    assert_eq!(chars[0], '#');
    for c in &chars[1..] {
        assert!(c.is_ascii_hexdigit() && !c.is_ascii_uppercase());
    }
}

#[test]
fn new_sticker_has_documented_defaults() {
    let s = Sticker::new("some-id", 12, 34, 400, 500);
    assert_eq!(s.uuid, "some-id");
    assert_eq!(s.markdown, "");
    assert_color_tag(&s.color);
    assert_eq!(s.pos_x, 12);
    assert_eq!(s.pos_y, 34);
    assert_eq!(s.height, 400);
    assert_eq!(s.width, 500);
    assert!(!s.pinned);
    assert!(!s.archived);
    assert_eq!(s.created_at, "");
    assert_eq!(s.updated_at, "");
}

#[test]
fn format_color_renders_exact_hex_digits() {
    assert_eq!(format_color(0, 255, 16), "#00ff10");
    assert_eq!(format_color(171, 205, 239), "#abcdef");
    assert_eq!(format_color(1, 2, 3), "#010203");
}

#[test]
fn random_color_is_a_well_formed_tag() {
    for _ in 0..16 {
        let c = generate_random_color();
        assert_color_tag(&c);
    }
}

#[test]
fn allocated_note_ids_have_the_hyphenated_length() {
    let id = allocate_note_id();
    assert_eq!(id.len(), 36);
    let other = allocate_note_id();
    assert_eq!(other.len(), 36);
}

#[test]
fn register_note_persists_the_host_reported_geometry() {
    let mut store = Store::new();
    let s = register_note(&mut store, "win-1", 7, 8, 400, 500).unwrap();
    assert_eq!(s.uuid, "win-1");
    assert_eq!(s.markdown, "");
    assert_color_tag(&s.color);
    assert_eq!((s.pos_x, s.pos_y), (7, 8));
    assert_eq!((s.width, s.height), (500, 400));
    assert!(!s.pinned);
    let got = store.get("win-1").unwrap();
    assert_eq!(got.color, s.color);
    assert_eq!((got.pos_x, got.pos_y), (7, 8));
}

#[test]
fn register_note_rejects_a_taken_id() {
    let mut store = Store::new();
    register_note(&mut store, "win-1", 0, 0, 1, 1).unwrap();
    let r = register_note(&mut store, "win-1", 9, 9, 2, 2);
    assert_eq!(r.err(), Some(StoreError::ConstraintViolation));
    let got = store.get("win-1").unwrap();
    assert_eq!((got.pos_x, got.pos_y), (0, 0));
}

#[test]
fn startup_with_no_live_record_creates_exactly_one_note() {
    let store = Store::new();
    match plan_startup(store.list_live()) {
        StartupAction::CreateNew => {}
        StartupAction::Reopen(_) => panic!("expected a single fresh note"),
    }
}

#[test]
fn startup_with_live_records_reopens_each_of_them_and_no_more() {
    let mut store = Store::new();
    register_note(&mut store, "a1", 1, 2, 30, 40).unwrap();
    register_note(&mut store, "b2", 5, 6, 70, 80).unwrap();
    store.toggle_pinned("b2");
    match plan_startup(store.list_live()) {
        StartupAction::CreateNew => panic!("expected the stored notes back"),
        StartupAction::Reopen(windows) => {
            assert_eq!(windows.len(), 2);
            assert_eq!(windows[0].uuid, "a1");
            assert_eq!((windows[0].pos_x, windows[0].pos_y), (1, 2));
            assert_eq!((windows[0].height, windows[0].width), (30, 40));
            assert!(!windows[0].pinned);
            assert_eq!(windows[1].uuid, "b2");
            assert!(windows[1].pinned);
        }
    }
}

#[test]
fn path_mapper_joins_directory_and_file_under_the_scheme() {
    let mapped = path_mapper("/home/someone/.local/share/app".to_string(), "sqlite:app.db");
    assert_eq!(mapped, "sqlite:/home/someone/.local/share/app/app.db");
}

#[test]
fn path_mapper_splits_at_the_first_colon() {
    let mapped = path_mapper("dir".to_string(), "scheme:a:b.db");
    assert_eq!(mapped, "sqlite:dir/a:b.db");
}

#[test]
fn id_order_is_lexicographic() {
    assert!(str_lt("a1", "b2"));
    assert!(!str_lt("b2", "a1"));
    assert!(!str_lt("a1", "a1"));
    assert!(str_lt("a", "a1"));
    assert!(str_eq("a1", "a1"));
    assert!(!str_eq("a1", "a2"));
}

use dynamic_query::tick::{tick_delta, ComponentTicks};
use dynamic_query::asset::{JsScript, JsScriptLoader};

#[test]
fn delta_without_wraparound() {
    assert_eq!(tick_delta(10, 3), 7);
    assert_eq!(tick_delta(10, 10), 0);
}

#[test]
fn delta_with_wraparound() {
    assert_eq!(tick_delta(3, u32::MAX - 1), 5);
    assert_eq!(tick_delta(0, u32::MAX), 1);
}

#[test]
fn changed_inside_window() {
    let t = ComponentTicks { added: 1, changed: 5 };
    assert!(t.is_changed(3, 7));
    assert!(t.is_changed(4, 5));
}

#[test]
fn changed_at_window_start_does_not_count() {
    let t = ComponentTicks { added: 1, changed: 3 };
    assert!(!t.is_changed(3, 7));
}

#[test]
fn changed_across_counter_wraparound() {
    // written at tick 2 after the counter wrapped; the window started at
    // tick u32::MAX - 1 and now stands at 3
    let t = ComponentTicks { added: 2, changed: 2 };
    assert!(t.is_changed(u32::MAX - 1, 3));
    assert!(t.is_added(u32::MAX - 1, 3));
    // the same write is invisible to a window that starts after it
    assert!(!t.is_changed(2, 3));
}

#[test]
fn set_changed_records_the_write_tick() {
    let mut t = ComponentTicks::new(4);
    assert_eq!(t.added, 4);
    assert_eq!(t.changed, 4);
    t.set_changed(9);
    assert_eq!(t.added, 4);
    assert_eq!(t.changed, 9);
}

#[test]
fn script_asset_holds_source_and_path() {
    let s = JsScript::new("update();".to_owned(), "scripts/main.ts".to_owned());
    assert_eq!(s.source, "update();");
    assert_eq!(s.path, "scripts/main.ts");
}

#[test]
fn script_loader_names_its_extensions() {
    let exts = JsScriptLoader.extensions();
    assert_eq!(exts, vec!["js".to_owned(), "ts".to_owned()]);
}

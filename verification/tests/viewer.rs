use racy::codec::Event;
use racy::data::example;
use racy::event::EventsBuilder;
use racy::viewer::{FlameGraphApp, MenuAction, MenuDirective};

fn sample_app() -> FlameGraphApp {
    let mut builder = EventsBuilder::new();
    builder.add(Event { id: 1, duration: 10, timestamp: 100, name: "a".to_string() });
    builder.add(Event { id: 2, duration: 10, timestamp: 105, name: "b".to_string() });
    FlameGraphApp::new(builder.build())
}

#[test]
fn new_file_clears_everything() {
    let mut app = sample_app();
    app.saved_to("profile.json".to_string());
    let directive = app.handle_menu_action(MenuAction::NewFile);
    assert!(matches!(directive, MenuDirective::Nothing));
    assert!(app.events.is_empty());
    assert!(app.folded_processes.is_empty());
    assert!(app.current_file.is_none());
}

#[test]
fn save_goes_to_the_current_file_or_asks() {
    let mut app = sample_app();
    match app.handle_menu_action(MenuAction::SaveFile) {
        MenuDirective::PickSaveFile => {},
        _ => panic!("without a current file, save asks for one"),
    }
    app.saved_to("profile.json".to_string());
    match app.handle_menu_action(MenuAction::SaveFile) {
        MenuDirective::SaveTo(path) => assert_eq!(path, "profile.json"),
        _ => panic!("with a current file, save reuses it"),
    }
}

#[test]
fn open_save_as_and_exit_are_directives() {
    let mut app = sample_app();
    assert!(matches!(app.handle_menu_action(MenuAction::OpenFile), MenuDirective::PickOpenFile));
    assert!(matches!(app.handle_menu_action(MenuAction::SaveFileAs), MenuDirective::PickSaveFile));
    assert!(matches!(app.handle_menu_action(MenuAction::Exit), MenuDirective::CloseApp));
    assert!(matches!(app.handle_menu_action(MenuAction::NoOp), MenuDirective::Nothing));
}

#[test]
fn collapse_all_folds_every_thread_and_expand_all_unfolds() {
    let mut app = sample_app();
    app.folded_processes.insert(999, false);
    let directive = app.handle_menu_action(MenuAction::CollapseAll);
    assert!(matches!(directive, MenuDirective::Nothing));
    assert_eq!(app.folded_processes.get(&1), Some(&true));
    assert_eq!(app.folded_processes.get(&2), Some(&true));
    assert_eq!(app.folded_processes.get(&999), Some(&false));
    app.handle_menu_action(MenuAction::ExpandAll);
    assert!(app.folded_processes.is_empty());
}

#[test]
fn loading_replaces_the_log_and_errors_are_dismissable() {
    let mut app = sample_app();
    app.folded_processes.insert(1, true);
    let mut builder = EventsBuilder::new();
    builder.add(Event { id: 9, duration: 1, timestamp: 50, name: "x".to_string() });
    app.set_loaded(builder.build(), "other.json".to_string());
    assert!(app.folded_processes.is_empty());
    assert_eq!(app.current_file.as_deref(), Some("other.json"));
    assert!(app.events.threads.contains_key(&9));

    app.set_error("could not parse".to_string());
    assert_eq!(app.show_error_dialog.as_deref(), Some("could not parse"));
    app.dismiss_error();
    assert!(app.show_error_dialog.is_none());
}

#[test]
fn example_covers_six_seconds_of_one_process() {
    let log = example();
    assert_eq!(log.total_duration, 6_000_000_000);
    assert_eq!(log.thread_ids(), vec![12345]);
    let thread = log.threads.get(&12345).unwrap();
    assert_eq!(thread.spans.len(), 15);
    // the first span starts at the anchor itself
    assert_eq!(thread.spans[0].timestamp, 0);
    assert_eq!(thread.spans[0].name, "database_query");
}

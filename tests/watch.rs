use pig::watch::{Change, Event, Step, Watcher};

#[test]
fn startup_sets_up_then_cleans_then_renders() {
    assert_eq!(
        Watcher::startup(2),
        vec![
            Step::WatchConfig,
            Step::Setup(0),
            Step::Setup(1),
            Step::Clean,
            Step::Render(0),
            Step::Render(1)
        ]
    );
    assert_eq!(Watcher::startup(0), vec![Step::WatchConfig, Step::Clean]);
}

#[test]
fn schema_change_refreshes_cleans_and_renders_one_entry() {
    assert_eq!(
        Watcher::steps(Event::Openapi(1), 3),
        vec![Step::Refresh(1), Step::Clean, Step::Render(1)]
    );
}

#[test]
fn input_change_relists_templates() {
    assert_eq!(
        Watcher::steps(Event::Input(0), 1),
        vec![Step::Templates(0), Step::Clean, Step::Render(0)]
    );
}

#[test]
fn config_change_reloads() {
    assert_eq!(Watcher::steps(Event::Config, 0), vec![Step::Reload]);
}

#[test]
fn only_content_writes_are_actionable() {
    assert!(Watcher::actionable(Change::Data));
    for c in [
        Change::Any,
        Change::Access,
        Change::Create,
        Change::Metadata,
        Change::Name,
        Change::OtherModify,
        Change::Remove,
        Change::Other,
    ] {
        assert!(!Watcher::actionable(c));
    }
}

#[test]
fn single_pass_prepares_cleans_once_then_renders() {
    assert_eq!(
        Watcher::once(2),
        vec![Step::Prepare(0), Step::Prepare(1), Step::Clean, Step::Render(0), Step::Render(1)]
    );
    assert_eq!(Watcher::once(0), vec![Step::Clean]);
}

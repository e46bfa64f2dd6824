use greenscreen::commands::CommandKind;
use greenscreen::commands::Events;

#[test]
fn dispatch_by_command_name() {
    let events = Events;
    assert_eq!(events.dispatch("join"), Some(CommandKind::Join));
    assert_eq!(events.dispatch("leave"), Some(CommandKind::Leave));
    assert_eq!(events.dispatch("ban"), None);
    assert_eq!(events.dispatch(""), None);
    assert_eq!(events.dispatch("Join"), None);
}

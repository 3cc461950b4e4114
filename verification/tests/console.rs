use voxel_world::console::{ConsoleKey, DebugConsole, SsaoCommand};

#[test]
fn console_starts_closed_with_ssao() {
    let console = DebugConsole::default();
    assert!(!console.open);
    assert!(console.ssao_enabled);
    assert_eq!(console.visibility(), (false, true));
}

#[test]
fn toggle_opens_and_closes_the_panel() {
    let mut console = DebugConsole::default();
    assert_eq!(console.press(ConsoleKey::Toggle), SsaoCommand::Keep);
    assert!(console.open);
    assert_eq!(console.visibility(), (true, false));
    console.press(ConsoleKey::Toggle);
    assert_eq!(console, DebugConsole::default());
}

#[test]
fn ssao_key_removes_then_inserts() {
    let mut console = DebugConsole::default();
    assert_eq!(console.press(ConsoleKey::ToggleSsao), SsaoCommand::Remove);
    assert!(!console.ssao_enabled);
    assert_eq!(console.press(ConsoleKey::ToggleSsao), SsaoCommand::Insert);
    assert!(console.ssao_enabled);
}

#[test]
fn reset_turns_ssao_back_on() {
    let mut console = DebugConsole { open: true, ssao_enabled: false };
    assert_eq!(console.press(ConsoleKey::Reset), SsaoCommand::Insert);
    assert_eq!(console, DebugConsole { open: true, ssao_enabled: true });
}

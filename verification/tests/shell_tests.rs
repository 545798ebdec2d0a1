use kernel_core::input::{EventType, InputEvent};
use kernel_core::keyboard::Key;
use kernel_core::shell::{
    command_kind, console_event, cursor_blinks, parse_command, program_path, resolve_argument, shell_key, split_words,
    CommandKind, ConsoleAction, ShellAction,
};

fn chars(s: &str) -> Vec<char> {
    s.chars().collect()
}

fn text(v: &[char]) -> String {
    v.iter().collect()
}

#[test]
fn shell_typing() {
    let mut line = Vec::new();
    assert!(matches!(shell_key(&mut line, Key::L, false), ShellAction::Echo('l')));
    assert!(matches!(shell_key(&mut line, Key::L, true), ShellAction::Nothing));
    assert!(matches!(shell_key(&mut line, Key::S, false), ShellAction::Echo('s')));
    assert_eq!(text(&line), "ls");
    assert!(matches!(shell_key(&mut line, Key::Backspace, false), ShellAction::Erase));
    assert_eq!(text(&line), "l");
    match shell_key(&mut line, Key::Enter, false) {
        ShellAction::Run(cmd) => assert_eq!(text(&cmd), "l"),
        _ => panic!("expected a command"),
    }
    assert!(line.is_empty());
    assert!(matches!(shell_key(&mut line, Key::Backspace, false), ShellAction::Nothing));
    for k in [Key::E, Key::X, Key::I, Key::T] {
        shell_key(&mut line, k, false);
    }
    assert!(matches!(shell_key(&mut line, Key::Enter, false), ShellAction::Exit));
}

#[test]
fn command_words() {
    let words: Vec<String> = split_words(&chars("  cp  a b ")).iter().map(|w| text(w)).collect();
    assert_eq!(words, vec!["cp", "a", "b"]);
    let (name, args) = parse_command(&chars("mkdir x y")).unwrap();
    assert_eq!(text(&name), "mkdir");
    assert_eq!(args.len(), 2);
    assert!(parse_command(&chars("   ")).is_none());
    assert_eq!(command_kind(&chars("ls")), CommandKind::Ls);
    assert_eq!(command_kind(&chars("cd")), CommandKind::Cd);
    assert_eq!(command_kind(&chars("cp")), CommandKind::Cp);
    assert_eq!(command_kind(&chars("mkdir")), CommandKind::Mkdir);
    assert_eq!(command_kind(&chars("erase")), CommandKind::Erase);
    assert_eq!(command_kind(&chars("hello")), CommandKind::Program);
    assert_eq!(text(&resolve_argument(&chars("home/"), &chars("docs"))), "home/docs");
    assert_eq!(text(&resolve_argument(&chars("home/"), &chars("/etc"))), "/etc");
    assert_eq!(text(&program_path(&chars("hello"))), "programs/hello");
}

#[test]
fn console_events() {
    let key = |code: u16, value: i32| InputEvent { event_type: EventType::Key, code, value };
    let mut line = Vec::new();
    assert!(matches!(console_event(&mut line, key(0x1e, 1)), ConsoleAction::Render));
    assert!(matches!(console_event(&mut line, key(0x1e, 0)), ConsoleAction::Nothing));
    assert!(matches!(
        console_event(&mut line, InputEvent { event_type: EventType::Syn, code: 0, value: 1 }),
        ConsoleAction::Nothing
    ));
    assert_eq!(text(&line), "a");
    assert!(matches!(console_event(&mut line, key(14, 1)), ConsoleAction::Render));
    assert!(line.is_empty());
    console_event(&mut line, key(0x30, 1));
    match console_event(&mut line, key(28, 1)) {
        ConsoleAction::Submit(cmd) => assert_eq!(text(&cmd), "b"),
        _ => panic!("expected a command"),
    }
    for code in [0x12, 0x2d, 0x17, 0x14] {
        console_event(&mut line, key(code, 1));
    }
    assert!(matches!(console_event(&mut line, key(28, 1)), ConsoleAction::Exit));
    assert!(cursor_blinks(0, 501));
    assert!(!cursor_blinks(0, 500));
}

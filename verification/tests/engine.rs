use mudras::config::kdl::{Literal, Node, Span, Value};
use mudras::config::{Bind, BindArgs, Command, Config, Keyword, Submap};
use mudras::input::keyboard::{key_state, Emit, Handled, InputEvent};
use mudras::input::udev::{handle_udev, register_opened, EventType, UdevAction, UdevEvent};
use mudras::input::utils::DeviceInfo;
use mudras::input::utils::{trigger_action, KeyState, KeyboardState, SubmapState};
use mudras::input::{listen_keyboard, Input, Step};
use mudras::server::signal::{Signal, SignalAction};
use mudras::server::Server;

const SUPER: u16 = 125;
const T: u16 = 20;
const A: u16 = 30;
const K: u16 = 37;
const F: u16 = 33;
const SPACE: u16 = 57;
const ESC: u16 = 1;

fn span() -> Span {
    Span { start: 0, end: 0 }
}

fn text(s: &str) -> Value {
    Value { type_tag: None, literal: Literal::String(s.to_string()), span: span() }
}

fn node(name: &str, arguments: Vec<Value>, children: Vec<Node>) -> Node {
    Node { node_name: name.to_string(), arguments, properties: Vec::new(), children, span: span() }
}

fn with(mut node: Node, name: &str, value: Literal) -> Node {
    node.properties.push((name.to_string(), Value { type_tag: None, literal: value, span: span() }));
    node
}

fn shell(command: &str) -> Node {
    node("-", vec![text(command)], Vec::new())
}

fn press(chord: &str, commands: Vec<Node>) -> Node {
    node(chord, Vec::new(), vec![node("@press", Vec::new(), commands)])
}

fn release(chord: &str, commands: Vec<Node>) -> Node {
    node(chord, Vec::new(), vec![node("@release", Vec::new(), commands)])
}

fn server(nodes: Vec<Node>) -> Server<u32> {
    let config = Config::from_nodes(&nodes).unwrap();
    let mut server = Server::new(config).unwrap();
    server.devices.insert("/dev/input/event0".to_string(), 0);
    server
}

fn key(server: &mut Server<u32>, code: u16, value: i32) -> Handled {
    server.listen_keyboard(&"/dev/input/event0".to_string(), InputEvent { event_type: 1, code, value })
}

fn forwarded_quietly(handled: &Handled) -> bool {
    handled.emit == Emit::Keyboard
        && handled.fired.is_none()
        && handled.shell.is_empty()
        && handled.unknown.is_empty()
        && !handled.orphan
}

fn super_t() -> Vec<Node> {
    vec![press("super+t", vec![shell("alacritty")])]
}

#[test]
fn plain_typing_is_forwarded() {
    let mut server = server(super_t());
    let down = key(&mut server, A, 1);
    assert!(forwarded_quietly(&down));
    let up = key(&mut server, A, 0);
    assert!(forwarded_quietly(&up));
    assert_eq!(server.submaps.current, "main");
}

#[test]
fn a_chord_fires_once_on_its_last_key() {
    let mut server = server(super_t());
    // Nothing is bound to `super` alone, so its press goes on.
    let first = key(&mut server, SUPER, 1);
    assert!(forwarded_quietly(&first));
    let second = key(&mut server, T, 1);
    assert_eq!(second.emit, Emit::Nothing);
    assert_eq!(second.fired, Some(0));
    assert_eq!(second.shell, vec!["alacritty".to_string()]);
    assert!(second.unknown.is_empty());
    let third = key(&mut server, T, 0);
    assert!(third.fired.is_none() && third.shell.is_empty());
    assert_eq!(third.emit, Emit::Keyboard);
    let fourth = key(&mut server, SUPER, 0);
    assert!(fourth.fired.is_none() && fourth.shell.is_empty());
    assert_eq!(fourth.emit, Emit::Keyboard);
}

#[test]
fn a_chord_fires_in_either_order_of_its_keys() {
    let mut server = server(super_t());
    key(&mut server, T, 1);
    let second = key(&mut server, SUPER, 1);
    assert_eq!(second.fired, Some(0));
    assert_eq!(second.emit, Emit::Nothing);
}

#[test]
fn a_modifier_without_a_match_fires_nothing() {
    let mut server = server(super_t());
    let events = vec![(SUPER, 1), (K, 1), (K, 0), (SUPER, 0)];
    for (code, value) in events {
        let handled = key(&mut server, code, value);
        assert!(handled.fired.is_none());
        assert!(handled.shell.is_empty());
        // An event that completes no chord is forwarded exactly once.
        assert_eq!(handled.emit, Emit::Keyboard);
    }
    assert_eq!(server.submaps.current, "main");
}

#[test]
fn a_submap_is_entered_and_left() {
    let nodes = vec![
        press("super+space", vec![node("@enter", vec![text("launcher")], Vec::new())]),
        with(
            node(
                "@submap",
                Vec::new(),
                vec![
                    press("f", vec![shell("firefox")]),
                    press("escape", vec![node("@exit", Vec::new(), Vec::new())]),
                ],
            ),
            "name",
            Literal::String("launcher".to_string()),
        ),
    ];
    let mut server = server(nodes);
    key(&mut server, SUPER, 1);
    let enter = key(&mut server, SPACE, 1);
    assert_eq!(enter.fired, Some(0));
    assert_eq!(enter.emit, Emit::Nothing);
    assert!(enter.shell.is_empty());
    assert_eq!(server.submaps.current, "launcher");
    key(&mut server, SPACE, 0);
    key(&mut server, SUPER, 0);
    assert_eq!(server.submaps.current, "launcher");

    let firefox = key(&mut server, F, 1);
    assert_eq!(firefox.shell, vec!["firefox".to_string()]);
    assert_eq!(firefox.emit, Emit::Nothing);
    assert_eq!(server.submaps.current, "launcher");
    let up = key(&mut server, F, 0);
    assert!(up.fired.is_none());

    let leave = key(&mut server, ESC, 1);
    assert!(leave.fired.is_some());
    assert_eq!(leave.emit, Emit::Nothing);
    assert_eq!(server.submaps.current, "main");
    key(&mut server, ESC, 0);

    let plain = key(&mut server, F, 1);
    assert!(forwarded_quietly(&plain));
}

#[test]
fn a_hot_plugged_keyboard_fires_binds() {
    let mut server = server(super_t());
    let node = "/dev/input/event7".to_string();
    let event =
        UdevEvent { initialized: true, event_type: EventType::Add, devnode: Some(node.clone()) };
    match listen_keyboard(&mut server, Input::Udev(event)) {
        Step::Udev(UdevAction::Open(path)) => assert_eq!(path, node),
        _ => panic!("an arrival asks to open the device"),
    }
    // Not registered before the caller has opened it: its events are orphans.
    let early = server.listen_keyboard(&node, InputEvent { event_type: 1, code: SUPER, value: 1 });
    assert!(early.orphan);
    assert_eq!(early.emit, Emit::Nothing);

    let info =
        DeviceInfo { name: Some("USB keyboard".to_string()), has_key_enter: true, has_abs_x: false };
    assert!(register_opened(&mut server.devices, node.clone(), &info, false, 7));
    assert!(server.devices.contains(&node));
    assert_eq!(server.devices.len(), 2);
    server.listen_keyboard(&node, InputEvent { event_type: 1, code: SUPER, value: 1 });
    let fired = server.listen_keyboard(&node, InputEvent { event_type: 1, code: T, value: 1 });
    assert_eq!(fired.shell, vec!["alacritty".to_string()]);
    assert_eq!(fired.emit, Emit::Nothing);

    let gone =
        UdevEvent { initialized: true, event_type: EventType::Remove, devnode: Some(node.clone()) };
    match handle_udev(gone, &mut server.devices) {
        UdevAction::Removed(path, stream) => {
            assert_eq!(path, node);
            assert_eq!(stream, 7);
        }
        _ => panic!("a departure hands the stream back"),
    }
    assert!(!server.devices.contains(&node));
    assert_eq!(server.devices.len(), 1);
}

#[test]
fn each_keyboard_has_its_own_state() {
    let mut server = server(super_t());
    let other = "/dev/input/event1".to_string();
    server.devices.insert(other.clone(), 1);
    key(&mut server, SUPER, 1);
    // `t` on the other keyboard completes nothing there.
    let handled = server.listen_keyboard(&other, InputEvent { event_type: 1, code: T, value: 1 });
    assert!(forwarded_quietly(&handled));
    let fired = key(&mut server, T, 1);
    assert_eq!(fired.fired, Some(0));
}

#[test]
fn released_keyboards_fire_nothing_until_grabbed_again() {
    let mut server = server(super_t());
    assert!(server.grabbing);
    assert_eq!(server.handle_signals(Signal::Usr1), SignalAction::Ungrab);
    assert!(!server.grabbing);
    for (code, value) in vec![(SUPER, 1), (T, 1), (T, 0), (SUPER, 0)] {
        let handled = key(&mut server, code, value);
        assert_eq!(handled.emit, Emit::Nothing);
        assert!(handled.fired.is_none() && handled.shell.is_empty() && !handled.orphan);
    }
    // Switches and other events go on as ever.
    let node = "/dev/input/event0".to_string();
    let switch = server.listen_keyboard(&node, InputEvent { event_type: 5, code: 0, value: 1 });
    assert_eq!(switch.emit, Emit::Switch);
    let sync = server.listen_keyboard(&node, InputEvent { event_type: 0, code: 0, value: 0 });
    assert_eq!(sync.emit, Emit::Keyboard);

    match listen_keyboard(&mut server, Input::Signal(Signal::Usr2)) {
        Step::Signal(action) => assert_eq!(action, SignalAction::Grab),
        _ => panic!("a signal gives a signal's step"),
    }
    assert!(server.grabbing);
    key(&mut server, SUPER, 1);
    let fired = key(&mut server, T, 1);
    assert_eq!(fired.shell, vec!["alacritty".to_string()]);
    assert_eq!(fired.emit, Emit::Nothing);
}

#[test]
fn signals_ask_for_what_they_mean() {
    let mut server = server(super_t());
    assert_eq!(server.handle_signals(Signal::Hup), SignalAction::Nothing);
    assert!(server.grabbing);
    assert_eq!(server.handle_signals(Signal::Int), SignalAction::Exit(1));
    assert!(!server.grabbing);
    assert_eq!(server.handle_signals(Signal::Usr2), SignalAction::Grab);
    assert_eq!(server.handle_signals(Signal::Other(15)), SignalAction::Exit(1));
    assert!(!server.grabbing);
    assert_eq!(server.submaps.current, "main");
    assert_eq!(server.devices.len(), 1);
}

#[test]
fn switches_and_other_events_pass_by_the_binds() {
    let mut server = server(super_t());
    let node = "/dev/input/event0".to_string();
    let switch = server.listen_keyboard(&node, InputEvent { event_type: 5, code: 0, value: 1 });
    assert_eq!(switch.emit, Emit::Switch);
    assert!(switch.fired.is_none() && !switch.orphan);
    for event_type in vec![0u16, 2, 3, 4, 17, 20] {
        let other = server.listen_keyboard(&node, InputEvent { event_type, code: 4, value: 9 });
        assert_eq!(other.emit, Emit::Keyboard);
        assert!(other.fired.is_none());
    }
    // Neither touches the keyboard's state.
    key(&mut server, SUPER, 1);
    server.listen_keyboard(&node, InputEvent { event_type: 4, code: 4, value: 9 });
    let fired = key(&mut server, T, 1);
    assert_eq!(fired.fired, Some(0));
}

#[test]
fn events_are_told_apart_by_their_type() {
    let node = "/dev/input/event0".to_string();
    let mut first = server(vec![press("a", vec![shell("one")])]);
    // Type 1 is a key: this one completes the chord `a`.
    let key = first.listen_keyboard(&node, InputEvent { event_type: 1, code: A, value: 1 });
    assert_eq!(key.fired, Some(0));
    assert_eq!(key.emit, Emit::Nothing);
    // The same numbers under any other type are no key.
    for event_type in vec![0u16, 2, 3, 4, 17, 18, 20, 21, 22, 23, 257, 999] {
        let mut fresh = server(vec![press("a", vec![shell("one")])]);
        let other = fresh.listen_keyboard(&node, InputEvent { event_type, code: A, value: 1 });
        assert_eq!(other.emit, Emit::Keyboard);
        assert!(other.fired.is_none());
        assert!(fresh.devices.states[0].1.current.keys.is_empty());
    }
    let switch = first.listen_keyboard(&node, InputEvent { event_type: 5, code: A, value: 1 });
    assert_eq!(switch.emit, Emit::Switch);
    assert!(switch.fired.is_none());
    // A key event carries its code and its value on as they are.
    let mut last = server(super_t());
    last.listen_keyboard(&node, InputEvent { event_type: 1, code: 767, value: 1 });
    last.listen_keyboard(&node, InputEvent { event_type: 1, code: 3, value: 0 });
    assert_eq!(
        last.devices.states[0].1.current.keys,
        vec![(3, KeyState::Released), (767, KeyState::Pressed)]
    );
    assert_eq!(key_state(1), KeyState::Pressed);
    assert_eq!(key_state(0), KeyState::Released);
    assert_eq!(key_state(2), KeyState::Undefined);
    assert_eq!(key_state(-1), KeyState::Undefined);
}

#[test]
fn a_key_event_of_unknown_value_is_dropped() {
    let mut server = server(super_t());
    key(&mut server, SUPER, 1);
    let odd = key(&mut server, T, 7);
    assert_eq!(odd.emit, Emit::Nothing);
    assert!(odd.fired.is_none() && !odd.orphan);
    let state = &server.devices.states[0].1;
    assert_eq!(state.current.keys, vec![(SUPER, KeyState::Pressed)]);
}

#[test]
fn an_auto_repeat_fires_only_where_the_bind_asks_for_it() {
    let once = super_t();
    let mut server_once = server(once);
    key(&mut server_once, SUPER, 1);
    assert_eq!(key(&mut server_once, T, 1).fired, Some(0));
    let held = key(&mut server_once, T, 2);
    assert!(held.fired.is_none() && held.shell.is_empty());
    assert_eq!(held.emit, Emit::Nothing);

    let again = vec![node(
        "super+t",
        Vec::new(),
        vec![with(node("@press", Vec::new(), vec![shell("alacritty")]), "repeat", Literal::Bool(true))],
    )];
    let mut server_again = server(again);
    key(&mut server_again, SUPER, 1);
    assert_eq!(key(&mut server_again, T, 1).fired, Some(0));
    let held = key(&mut server_again, T, 2);
    assert_eq!(held.fired, Some(0));
    assert_eq!(held.shell, vec!["alacritty".to_string()]);
    assert_eq!(held.emit, Emit::Nothing);
    // A repeat that completes no chord is forwarded like any other key event.
    let mut plain = server(super_t());
    key(&mut plain, A, 1);
    assert!(forwarded_quietly(&key(&mut plain, A, 2)));
}

#[test]
fn a_bind_that_does_not_swallow_is_forwarded_and_fired() {
    let nodes = vec![with(press("super+t", vec![shell("alacritty")]), "swallow", Literal::Bool(false))];
    let mut server = server(nodes);
    key(&mut server, SUPER, 1);
    let fired = key(&mut server, T, 1);
    assert_eq!(fired.fired, Some(0));
    assert_eq!(fired.emit, Emit::Keyboard);
    assert_eq!(fired.shell, vec!["alacritty".to_string()]);
}

#[test]
fn a_swallowing_bind_that_fires_is_never_forwarded_off_a_release_edge() {
    let nodes = vec![
        press("super+t", vec![shell("one")]),
        press("a", vec![shell("two")]),
        release("super", vec![shell("three")]),
        release("a", vec![shell("four")]),
    ];
    let codes = vec![SUPER, T, A];
    let values = vec![0, 1, 2];
    // Every run of four events over three keys.
    let mut run = vec![0usize; 4];
    loop {
        let config = Config::from_nodes(&nodes).unwrap();
        let mut server: Server<u32> = Server::new(config).unwrap();
        server.devices.insert("/dev/input/event0".to_string(), 0);
        for step in &run {
            let code = codes[step % 3];
            let value = values[(step / 3) % 3];
            let handled = key(&mut server, code, value);
            let keyboard = &server.devices.states[0].1;
            let edge = value == 0 && keyboard.previous.keys.len() > keyboard.current.keys.len();
            if handled.fired.is_some() && !edge {
                assert_eq!(handled.emit, Emit::Nothing);
            }
            if handled.fired.is_none() {
                assert!(handled.shell.is_empty());
            }
        }
        let mut at = 0;
        while at < run.len() {
            run[at] += 1;
            if run[at] < 9 {
                break;
            }
            run[at] = 0;
            at += 1;
        }
        if at == run.len() {
            break;
        }
    }
}

#[test]
fn a_release_chord_fires_when_its_key_comes_up() {
    let nodes = vec![release("super", vec![shell("menu")])];
    let mut server = server(nodes);
    let down = key(&mut server, SUPER, 1);
    assert!(forwarded_quietly(&down));
    let up = key(&mut server, SUPER, 0);
    assert_eq!(up.fired, Some(0));
    assert_eq!(up.shell, vec!["menu".to_string()]);
    assert_eq!(up.emit, Emit::Nothing);
}

#[test]
fn on_a_release_edge_the_event_is_forwarded_and_a_release_chord_fires() {
    let nodes = vec![release("super", vec![shell("menu")])];
    let mut server = server(nodes);
    key(&mut server, SUPER, 1);
    key(&mut server, T, 1);
    key(&mut server, T, 0);
    // `t` is still in the state as released: this release clears it away.
    let up = key(&mut server, SUPER, 0);
    assert_eq!(up.emit, Emit::Keyboard);
    assert_eq!(up.fired, Some(0));
    assert_eq!(up.shell, vec!["menu".to_string()]);
}

#[test]
fn the_last_transition_of_a_bind_counts_and_unknown_targets_are_reported() {
    let submaps = vec![
        Submap { name: "one".to_string(), mods: Vec::new(), binds: Vec::new() },
        Submap {
            name: "main".to_string(),
            mods: vec![A],
            binds: vec![Bind {
                sequence: vec![(A, KeyState::Pressed)],
                args: BindArgs {
                    commands: vec![
                        Command::Sh("first".to_string()),
                        Command::Internal(Keyword::Enter("one".to_string())),
                        Command::Internal(Keyword::Enter("nowhere".to_string())),
                        Command::Sh("second".to_string()),
                    ],
                    swallow: true,
                    repeat: false,
                    exact: true,
                },
            }],
        },
    ];
    let mut state = SubmapState::new(Config { submaps });
    let mut keyboard = KeyboardState::new();
    keyboard.update(A, KeyState::Pressed);
    let dispatch = trigger_action(&mut state, &keyboard, &KeyState::Pressed, false);
    assert!(!dispatch.forward);
    assert_eq!(dispatch.fired, Some(0));
    assert_eq!(dispatch.shell, vec!["first".to_string(), "second".to_string()]);
    assert_eq!(dispatch.unknown, vec!["nowhere".to_string()]);
    assert_eq!(state.current, "one");
    // In `one` nothing is bound.
    let next = trigger_action(&mut state, &keyboard, &KeyState::Pressed, false);
    assert!(next.forward);
    assert_eq!(next.fired, None);
    assert_eq!(state.current, "one");
}

#[test]
fn the_current_submap_is_always_one_of_the_submaps() {
    let mut state = SubmapState::default();
    assert_eq!(state.current, "main");
    assert_eq!(state.current_index(), 0);
    assert!(!state.enter(&"launcher".to_string()));
    assert_eq!(state.current, "main");
    state.submaps.push(Submap { name: "launcher".to_string(), mods: Vec::new(), binds: Vec::new() });
    assert!(state.enter(&"launcher".to_string()));
    assert_eq!(state.current, "launcher");
    assert_eq!(state.current_index(), 1);
    let (shell, unknown) = state.run(&vec![
        Command::Internal(Keyword::Exit),
        Command::Internal(Keyword::Enter("gone".to_string())),
    ]);
    assert!(shell.is_empty());
    assert_eq!(unknown, vec!["gone".to_string()]);
    assert_eq!(state.current, "main");
    state.enter(&"launcher".to_string());
    state.exit();
    assert_eq!(state.current, "main");
}

#[test]
fn a_device_step_changes_neither_grabbing_nor_the_registry_keys() {
    let mut server = server(super_t());
    let input = Input::Device(
        "/dev/input/event0".to_string(),
        InputEvent { event_type: 1, code: A, value: 1 },
    );
    match listen_keyboard(&mut server, input) {
        Step::Device(handled) => assert!(forwarded_quietly(&handled)),
        _ => panic!("a device event gives a device's step"),
    }
    assert!(server.grabbing);
    assert_eq!(server.devices.len(), 1);
    assert_eq!(server.devices.streams[0], ("/dev/input/event0".to_string(), 0));
}

use mudras::config::utils::{debug_path, is_text, release_path, shellexpand};
use mudras::error::{LibError, MudrasError, WrapError};
use mudras::input::udev::{
    handle_udev, register_opened, DeviceRegistry, EventType, Skipped, UdevAction, UdevEvent,
};
use mudras::input::utils::{
    check_device_is_keyboard, check_device_is_pointer, DeviceInfo, KeyState,
};
use mudras::input::virtuals::{create_keyboard, create_pointer, create_switch};
use mudras::server::events::Event;

fn device(name: Option<&str>, has_key_enter: bool, has_abs_x: bool) -> DeviceInfo {
    DeviceInfo { name: name.map(|n| n.to_string()), has_key_enter, has_abs_x }
}

fn nodes<S>(registry: &DeviceRegistry<S>) -> (Vec<String>, Vec<String>) {
    (
        registry.streams.iter().map(|e| e.0.clone()).collect(),
        registry.states.iter().map(|e| e.0.clone()).collect(),
    )
}

fn udev(initialized: bool, event_type: EventType, devnode: Option<&str>) -> UdevEvent {
    UdevEvent { initialized, event_type, devnode: devnode.map(|n| n.to_string()) }
}

fn skipped<S>(action: UdevAction<S>) -> Option<Skipped> {
    match action {
        UdevAction::Skipped(why) => Some(why),
        _ => None,
    }
}

#[test]
fn a_keyboard_has_an_enter_key_and_is_not_one_of_ours() {
    assert!(check_device_is_keyboard(&device(Some("AT Translated Set 2 keyboard"), true, false)));
    assert!(check_device_is_keyboard(&device(None, true, true)));
    assert!(!check_device_is_keyboard(&device(Some("Some mouse"), false, true)));
    assert!(!check_device_is_keyboard(&device(Some("Mudras virtual keyboard"), true, false)));
    assert!(!check_device_is_keyboard(&device(Some("Mudras virtual switch"), true, false)));
    assert!(!check_device_is_keyboard(&device(Some("Mudras virtual pointer"), true, false)));
    assert!(check_device_is_keyboard(&device(Some("mudras virtual keyboard"), true, false)));
    assert!(!check_device_is_keyboard(&device(None, false, false)));
}

#[test]
fn a_pointer_has_an_absolute_axis_and_is_not_ours() {
    assert!(check_device_is_pointer(&device(Some("Tablet"), false, true)));
    assert!(check_device_is_pointer(&device(None, false, true)));
    assert!(!check_device_is_pointer(&device(Some("Tablet"), true, false)));
    assert!(!check_device_is_pointer(&device(Some("Mudras virtual pointer"), true, true)));
    assert!(check_device_is_pointer(&device(Some("Mudras virtual keyboard"), true, true)));
}

#[test]
fn the_virtual_devices_are_named_and_advertise_their_codes() {
    let keyboard = create_keyboard();
    assert_eq!(keyboard.name, "Mudras virtual keyboard");
    assert_eq!(keyboard.keys.len(), 768);
    assert_eq!(keyboard.keys[0], 0);
    assert_eq!(keyboard.keys[125], 125);
    assert_eq!(keyboard.keys[767], 767);
    assert!(keyboard.switches.is_empty() && keyboard.relative_axes.is_empty());

    let switch = create_switch();
    assert_eq!(switch.name, "Mudras virtual switch");
    assert_eq!(switch.switches, vec![0u16, 1]);
    assert!(switch.keys.is_empty() && switch.relative_axes.is_empty());
    assert_eq!(evdev::SwitchCode::SW_LID.0, 0);
    assert_eq!(evdev::SwitchCode::SW_TABLET_MODE.0, 1);

    let pointer = create_pointer();
    assert_eq!(pointer.name, "Mudras virtual pointer");
    assert_eq!(pointer.relative_axes, (0u16..13).collect::<Vec<u16>>());
    assert_eq!(evdev::RelativeAxisCode::REL_HWHEEL_HI_RES.0, 12);
    assert!(pointer.keys.is_empty() && pointer.switches.is_empty());
    assert!(!check_device_is_keyboard(&device(Some(&keyboard.name), true, false)));
    assert!(!check_device_is_keyboard(&device(Some(&switch.name), true, false)));
    assert!(!check_device_is_keyboard(&device(Some(&pointer.name), true, false)));
}

#[test]
fn streams_and_states_name_the_same_devices() {
    let mut registry: DeviceRegistry<u32> = DeviceRegistry::new();
    assert_eq!(registry.len(), 0);
    assert_eq!(registry.insert("/dev/input/event0".to_string(), 10), None);
    assert_eq!(registry.insert("/dev/input/event1".to_string(), 11), None);
    assert_eq!(registry.insert("/dev/input/event2".to_string(), 12), None);
    let (streams, states) = nodes(&registry);
    assert_eq!(streams, states);
    assert_eq!(registry.len(), 3);
    assert_eq!(registry.position(&"/dev/input/event1".to_string()), Some(1));
    assert_eq!(registry.position(&"/dev/input/event9".to_string()), None);

    assert_eq!(registry.remove(&"/dev/input/event1".to_string()), Some(11));
    assert_eq!(registry.remove(&"/dev/input/event1".to_string()), None);
    let (streams, states) = nodes(&registry);
    assert_eq!(streams, states);
    assert_eq!(streams, vec!["/dev/input/event0".to_string(), "/dev/input/event2".to_string()]);
    assert!(registry.contains(&"/dev/input/event2".to_string()));
    assert!(!registry.contains(&"/dev/input/event1".to_string()));
}

#[test]
fn registering_a_device_again_replaces_it_with_a_fresh_state() {
    let mut registry: DeviceRegistry<u32> = DeviceRegistry::new();
    registry.insert("/dev/input/event0".to_string(), 10);
    registry.insert("/dev/input/event1".to_string(), 11);
    registry.states[0].1.update(30, KeyState::Pressed);
    registry.states[1].1.update(31, KeyState::Pressed);
    assert_eq!(registry.insert("/dev/input/event0".to_string(), 20), Some(10));
    let (streams, states) = nodes(&registry);
    assert_eq!(streams, states);
    assert_eq!(registry.len(), 2);
    let at = registry.position(&"/dev/input/event0".to_string()).unwrap();
    assert_eq!(registry.streams[at].1, 20);
    assert!(registry.states[at].1.current.keys.is_empty());
    assert!(registry.states[at].1.previous.keys.is_empty());
    let other = registry.position(&"/dev/input/event1".to_string()).unwrap();
    assert_eq!(registry.states[other].1.current.keys, vec![(31, KeyState::Pressed)]);
}

#[test]
fn hot_plug_events_are_skipped_for_their_reasons() {
    let mut registry: DeviceRegistry<u32> = DeviceRegistry::new();
    registry.insert("/dev/input/event0".to_string(), 10);
    let node = Some("/dev/input/event0");
    for event_type in vec![EventType::Add, EventType::Remove, EventType::Other] {
        let action = handle_udev(udev(false, event_type, node), &mut registry);
        assert_eq!(skipped(action), Some(Skipped::Uninitialized));
    }
    assert_eq!(
        skipped(handle_udev(udev(true, EventType::Add, None), &mut registry)),
        Some(Skipped::NoDevnode)
    );
    assert_eq!(
        skipped(handle_udev(udev(true, EventType::Remove, None), &mut registry)),
        Some(Skipped::NoDevnode)
    );
    assert_eq!(
        skipped(handle_udev(udev(true, EventType::Other, node), &mut registry)),
        Some(Skipped::OtherEvent)
    );
    assert_eq!(
        skipped(handle_udev(udev(true, EventType::Other, None), &mut registry)),
        Some(Skipped::OtherEvent)
    );
    assert_eq!(
        skipped(handle_udev(
            udev(true, EventType::Remove, Some("/dev/input/event5")),
            &mut registry
        )),
        Some(Skipped::NotOwned)
    );
    assert_eq!(registry.len(), 1);
    assert!(registry.contains(&"/dev/input/event0".to_string()));
}

#[test]
fn an_arrival_asks_to_open_and_a_departure_drops_the_device() {
    let mut registry: DeviceRegistry<u32> = DeviceRegistry::new();
    registry.insert("/dev/input/event0".to_string(), 10);
    match handle_udev(udev(true, EventType::Add, Some("/dev/input/event0")), &mut registry) {
        UdevAction::Open(node) => assert_eq!(node, "/dev/input/event0"),
        _ => panic!("an arrival asks to open the device"),
    }
    assert_eq!(registry.len(), 1);
    match handle_udev(udev(true, EventType::Remove, Some("/dev/input/event0")), &mut registry) {
        UdevAction::Removed(node, stream) => {
            assert_eq!(node, "/dev/input/event0");
            assert_eq!(stream, 10);
        }
        _ => panic!("a departure hands the stream back"),
    }
    let (streams, states) = nodes(&registry);
    assert!(streams.is_empty() && states.is_empty());
}

#[test]
fn the_home_directory_is_written_out() {
    assert_eq!(shellexpand("~/.config/mudras/config.kdl", "/home/ada"), "/home/ada/.config/mudras/config.kdl");
    assert_eq!(shellexpand("~", "/root"), "/root");
    assert_eq!(shellexpand("~/a~b", "/h"), "/h/a/hb");
    assert_eq!(shellexpand("/etc/~/x", "/home/ada"), "/etc/~/x");
    assert_eq!(shellexpand("", "/home/ada"), "");
    assert_eq!(shellexpand("~é/ü", "/hö"), "/höé/ü");
    assert_eq!(shellexpand("~/x", ""), "/x");
    assert_eq!(release_path("/home/ada"), "/home/ada/.config/mudras/config.kdl");
    assert_eq!(debug_path("/src/mudras"), "/src/mudras/./config.kdl");
    assert!(is_text(&"main".to_string(), "main"));
    assert!(!is_text(&"main".to_string(), "Main"));
}

#[test]
fn errors_keep_what_they_are_given() {
    let root = LibError::new("Couldn't find file.", "Are you sure the file exist?");
    assert_eq!(root.message, "Couldn't find file.");
    assert_eq!(root.help, "Are you sure the file exist?");
    let wrapped = WrapError::new(
        "Couldn't find a configuration file.",
        "Create a configuration file at ~/.config/mudras/config.kdl",
        MudrasError::from(root),
    );
    assert_eq!(wrapped.message, "Couldn't find a configuration file.");
    assert_eq!(wrapped.help, "Create a configuration file at ~/.config/mudras/config.kdl");
    match *wrapped.origin {
        MudrasError::LibError(ref inner) => assert_eq!(inner.message, "Couldn't find file."),
        _ => panic!("the origin is the error that was wrapped"),
    }
    let outer = MudrasError::from(wrapped);
    assert!(matches!(outer, MudrasError::WrapError(_)));
    let io = MudrasError::from(std::io::Error::other("broken"));
    match io {
        MudrasError::IoError(e) => assert_eq!(format!("{e}"), "broken"),
        _ => panic!("an I/O error stays one"),
    }
}

#[test]
fn the_events_of_the_channel() {
    assert_ne!(Event::Quit, Event::Action);
    assert_eq!(Event::Quit.clone(), Event::Quit);
}

#[test]
fn only_a_keyboard_that_could_be_grabbed_is_registered() {
    let mut registry: DeviceRegistry<u32> = DeviceRegistry::new();
    registry.insert("/dev/input/event0".to_string(), 10);
    registry.states[0].1.update(30, KeyState::Pressed);
    let keyboard = device(Some("USB keyboard"), true, false);

    assert!(register_opened(&mut registry, "/dev/input/event5".to_string(), &keyboard, false, 15));
    let (streams, states) = nodes(&registry);
    assert_eq!(streams, states);
    assert_eq!(streams, vec!["/dev/input/event0".to_string(), "/dev/input/event5".to_string()]);
    assert_eq!(registry.streams[1].1, 15);
    assert!(registry.states[1].1.current.keys.is_empty());
    assert_eq!(registry.states[0].1.current.keys, vec![(30, KeyState::Pressed)]);

    // A failed grab, a device without an Enter key and the daemon's own
    // devices leave the registry as it is.
    let skipped = vec![
        (device(Some("USB keyboard"), true, false), true),
        (device(Some("USB mouse"), false, true), false),
        (device(None, false, false), false),
        (device(Some("Mudras virtual keyboard"), true, false), false),
        (device(Some("Mudras virtual switch"), true, false), false),
        (device(Some("Mudras virtual pointer"), true, true), false),
    ];
    for (info, grab_failed) in skipped {
        assert!(!register_opened(&mut registry, "/dev/input/event6".to_string(), &info, grab_failed, 16));
        assert_eq!(registry.len(), 2);
        assert!(!registry.contains(&"/dev/input/event6".to_string()));
        assert_eq!(registry.states[0].1.current.keys, vec![(30, KeyState::Pressed)]);
    }
    // Taken in again, a keyboard starts afresh.
    assert!(register_opened(&mut registry, "/dev/input/event0".to_string(), &keyboard, false, 20));
    assert_eq!(registry.len(), 2);
    let at = registry.position(&"/dev/input/event0".to_string()).unwrap();
    assert_eq!(registry.streams[at].1, 20);
    assert!(registry.states[at].1.current.keys.is_empty());
}

use mudras::config::check::{
    all_are_exact, all_are_keyed, all_sorted, all_targets_known, binds_are_distinct, codes_ascend, holds_code,
    is_key_of_a_bind, is_sorted, meets_mods, mods_cover_binds, names_are_distinct, names_key,
    targets_are_known, Fault,
};
use mudras::config::kdl::{
    assemble, children_to_commands, decode_binds, decode_bool, decode_string, parse_arg_node,
    read_bool_property, read_string_property, ConfigError, Context, DecodeError, Literal, Mistake,
    Node, Span, Value,
};
use mudras::config::{
    copy_binds, copy_commands, submap_index, Bind, BindArgs, Command, Config, Keyword, Submap,
};
use mudras::error::MudrasError;
use mudras::input::utils::KeyState;
use mudras::server::{describe, Server};

fn span(start: usize, end: usize) -> Span {
    Span { start, end }
}

fn value(literal: Literal) -> Value {
    Value { type_tag: None, literal, span: span(0, 0) }
}

fn text(s: &str) -> Value {
    value(Literal::String(s.to_string()))
}

fn node(name: &str, arguments: Vec<Value>, children: Vec<Node>) -> Node {
    Node { node_name: name.to_string(), arguments, properties: Vec::new(), children, span: span(0, 0) }
}

fn with(mut node: Node, name: &str, literal: Literal) -> Node {
    node.properties.push((name.to_string(), value(literal)));
    node
}

fn shell(command: &str) -> Node {
    node("-", vec![text(command)], Vec::new())
}

fn press(chord: &str, commands: Vec<Node>) -> Node {
    node(chord, Vec::new(), vec![node("@press", Vec::new(), commands)])
}

fn bind(sequence: Vec<(u16, KeyState)>, commands: Vec<Command>) -> Bind {
    Bind { sequence, args: BindArgs { commands, swallow: true, repeat: false, exact: true } }
}

fn submap(name: &str, mods: Vec<u16>, binds: Vec<Bind>) -> Submap {
    Submap { name: name.to_string(), mods, binds }
}

fn server_refuses(config: Config) -> bool {
    Server::<()>::new(config).is_err()
}

fn mistakes(nodes: &Vec<Node>) -> Vec<Mistake> {
    match Config::from_nodes(nodes) {
        Err(ConfigError::Decode(errors)) => errors.iter().map(|e| e.kind).collect(),
        Err(ConfigError::Invalid(fault, _)) => panic!("{}", format!("fault {fault:?}")),
        Ok(_) => Vec::new(),
    }
}

fn fault(nodes: &Vec<Node>) -> Option<Fault> {
    match Config::from_nodes(nodes) {
        Err(ConfigError::Invalid(fault, _)) => Some(fault),
        Err(ConfigError::Decode(errors)) => panic!("{}", format!("mistakes {errors:?}")),
        Ok(_) => None,
    }
}

#[test]
fn the_defaults_of_a_bind() {
    let args = BindArgs::default();
    assert!(args.swallow);
    assert!(!args.repeat);
    assert!(args.exact);
    assert!(args.commands.is_empty());
}

#[test]
fn a_document_reads_as_its_submaps_and_main_last() {
    let nodes = vec![
        press("super+t", vec![shell("alacritty"), shell("notify-send hi")]),
        with(
            node(
                "@submap",
                Vec::new(),
                vec![
                    press("f", vec![shell("firefox")]),
                    press("escape", vec![node("@exit", Vec::new(), Vec::new())]),
                ],
            ),
            "name",
            Literal::String("launcher".to_string()),
        ),
        with(
            node(
                "super+space",
                Vec::new(),
                vec![node(
                    "@release",
                    Vec::new(),
                    vec![node("@enter", vec![text("launcher")], Vec::new())],
                )],
            ),
            "swallow",
            Literal::Bool(false),
        ),
    ];
    let config = Config::from_nodes(&nodes).unwrap();
    assert_eq!(config.submaps.len(), 2);
    let launcher = &config.submaps[0];
    assert_eq!(launcher.name, "launcher");
    assert_eq!(launcher.mods, vec![1u16, 33]);
    assert_eq!(
        launcher.binds,
        vec![
            bind(vec![(33, KeyState::Pressed)], vec![Command::Sh("firefox".to_string())]),
            bind(vec![(1, KeyState::Pressed)], vec![Command::Internal(Keyword::Exit)]),
        ]
    );
    let main = &config.submaps[1];
    assert_eq!(main.name, "main");
    // Both chords are written with `super` first.
    assert_eq!(main.mods, vec![125u16]);
    assert_eq!(
        main.binds,
        vec![
            bind(
                vec![(20, KeyState::Pressed), (125, KeyState::Pressed)],
                vec![
                    Command::Sh("alacritty".to_string()),
                    Command::Sh("notify-send hi".to_string())
                ]
            ),
            Bind {
                sequence: vec![(57, KeyState::Released), (125, KeyState::Pressed)],
                args: BindArgs {
                    commands: vec![Command::Internal(Keyword::Enter("launcher".to_string()))],
                    swallow: false,
                    repeat: false,
                    exact: true,
                },
            },
        ]
    );
    assert_eq!(config.check(), None);
}

#[test]
fn an_empty_document_is_an_empty_main() {
    let config = Config::from_nodes(&Vec::new()).unwrap();
    assert_eq!(config.submaps.len(), 1);
    assert_eq!(config.submaps[0].name, "main");
    assert!(config.submaps[0].binds.is_empty());
    assert!(config.submaps[0].mods.is_empty());
}

#[test]
fn a_bind_node_gives_a_bind_for_each_trigger_in_the_order_of_the_chord() {
    let both = node(
        "super+t",
        Vec::new(),
        vec![
            with(node("@press", Vec::new(), vec![shell("down")]), "repeat", Literal::Bool(true)),
            node("@release", Vec::new(), vec![shell("up")]),
        ],
    );
    let mut ctx = Context::new();
    let read = Bind::decode_node(&both, &mut ctx).unwrap();
    assert!(!ctx.has_errors());
    assert_eq!(read.len(), 2);
    assert_eq!(read[0].sequence, vec![(125, KeyState::Pressed), (20, KeyState::Pressed)]);
    assert_eq!(read[0].args.commands, vec![Command::Sh("down".to_string())]);
    assert!(read[0].args.repeat && read[0].args.swallow && read[0].args.exact);
    assert_eq!(read[1].sequence, vec![(125, KeyState::Pressed), (20, KeyState::Released)]);
    assert_eq!(read[1].args.commands, vec![Command::Sh("up".to_string())]);
    assert!(!read[1].args.repeat && read[1].args.swallow && read[1].args.exact);

    let config = Config::from_nodes(&vec![both]).unwrap();
    assert_eq!(config.submaps[0].mods, vec![125u16]);
    assert_eq!(
        config.submaps[0].binds[0].sequence,
        vec![(20, KeyState::Pressed), (125, KeyState::Pressed)]
    );
    assert_eq!(
        config.submaps[0].binds[1].sequence,
        vec![(20, KeyState::Released), (125, KeyState::Pressed)]
    );
}

#[test]
fn a_single_press_bind_reads_as_the_chord_is_written() {
    let single = with(press("super+t", vec![shell("alacritty")]), "swallow", Literal::Bool(false));
    let mut ctx = Context::new();
    let read = Bind::decode_node(&single, &mut ctx).unwrap();
    assert_eq!(read.len(), 1);
    assert_eq!(read[0].sequence, vec![(125, KeyState::Pressed), (20, KeyState::Pressed)]);
    assert_eq!(read[0].args.commands, vec![Command::Sh("alacritty".to_string())]);
    assert!(!read[0].args.swallow);
    assert!(!read[0].args.repeat);
    assert!(read[0].args.exact);

    let nodes = vec![press("super+t", vec![shell("alacritty")])];
    let mut ctx = Context::new();
    let config = match Config::decode_children(&nodes, &mut ctx) {
        Ok(config) => config,
        Err(_) => panic!("a sound document gives its configuration"),
    };
    assert!(!ctx.has_errors());
    assert_eq!(config.submaps.len(), 1);
    assert_eq!(config.submaps[0].name, "main");
    assert_eq!(config.submaps[0].mods, vec![125u16]);
    assert_eq!(
        config.submaps[0].binds,
        vec![bind(
            vec![(20, KeyState::Pressed), (125, KeyState::Pressed)],
            vec![Command::Sh("alacritty".to_string())]
        )]
    );
}

#[test]
fn a_bind_node_without_a_trigger_is_a_mistake() {
    let mut none = node("super+t", Vec::new(), Vec::new());
    none.span = span(3, 10);
    let mut ctx = Context::new();
    let read = Bind::decode_node(&none, &mut ctx).unwrap();
    assert!(read.is_empty());
    assert_eq!(ctx.errors, vec![DecodeError { kind: Mistake::MissingTrigger, span: span(3, 10) }]);
    assert_eq!(mistakes(&vec![node("a", Vec::new(), Vec::new())]), vec![Mistake::MissingTrigger]);
}

#[test]
fn the_loader_refuses_what_breaks_an_invariant() {
    let twice = vec![press("super+t", vec![shell("one")]), press("t+super", vec![shell("two")])];
    let mut ctx = Context::new();
    match Config::decode_children(&twice, &mut ctx) {
        Err(ConfigError::Invalid(fault, _)) => assert_eq!(fault, Fault::DuplicateBind),
        _ => panic!("two binds of one sequence are refused"),
    }
    let nowhere = vec![press("a", vec![node("@enter", vec![text("x")], Vec::new())])];
    match Config::decode_children(&nowhere, &mut ctx) {
        Err(ConfigError::Invalid(fault, _)) => assert_eq!(fault, Fault::UnknownTarget),
        _ => panic!("an unknown submap is refused"),
    }
    let known = vec![
        press("a", vec![node("@enter", vec![text("x")], Vec::new())]),
        with(node("@submap", Vec::new(), Vec::new()), "name", Literal::String("x".to_string())),
    ];
    assert!(Config::decode_children(&known, &mut ctx).is_ok());
    assert!(!ctx.has_errors());
    let broken = vec![press("a", vec![node("-", Vec::new(), Vec::new())])];
    match Config::decode_children(&broken, &mut ctx) {
        Err(ConfigError::Decode(errors)) => {
            assert_eq!(errors, vec![DecodeError { kind: Mistake::MissingArgument, span: span(0, 0) }])
        }
        _ => panic!("a command without its argument ends the decoding"),
    }
}

#[test]
fn binds_are_stored_sorted_with_the_modifiers_as_written() {
    let nodes = vec![
        press("t+super", vec![]),
        press("super+a", vec![]),
        node("ctrl+b", Vec::new(), vec![node("@release", Vec::new(), Vec::new())]),
    ];
    let mut ctx = Context::new();
    let written = decode_binds(&nodes, &mut ctx).unwrap();
    assert_eq!(written.len(), 3);
    assert_eq!(written[0].sequence, vec![(20, KeyState::Pressed), (125, KeyState::Pressed)]);
    assert_eq!(written[1].sequence, vec![(125, KeyState::Pressed), (30, KeyState::Pressed)]);
    assert_eq!(written[2].sequence, vec![(29, KeyState::Pressed), (48, KeyState::Released)]);
    let submap = assemble("x".to_string(), &written);
    assert_eq!(submap.name, "x");
    assert_eq!(submap.mods, vec![20u16, 29, 125]);
    assert_eq!(submap.binds[0].sequence, vec![(20, KeyState::Pressed), (125, KeyState::Pressed)]);
    assert_eq!(submap.binds[1].sequence, vec![(30, KeyState::Pressed), (125, KeyState::Pressed)]);
    assert_eq!(submap.binds[2].sequence, vec![(29, KeyState::Pressed), (48, KeyState::Released)]);
    assert_eq!(submap.check(), None);
}

#[test]
fn a_property_written_twice_counts_where_it_is_last() {
    let props = vec![
        ("swallow".to_string(), value(Literal::Bool(false))),
        ("other".to_string(), value(Literal::Int)),
        ("swallow".to_string(), value(Literal::Bool(true))),
    ];
    let mut ctx = Context::new();
    assert!(read_bool_property(&props, "swallow", false, &mut ctx));
    assert!(read_bool_property(&props, "repeat", true, &mut ctx));
    assert!(!read_bool_property(&props, "repeat", false, &mut ctx));
    assert!(!ctx.has_errors());
    assert!(!read_bool_property(&props, "other", true, &mut ctx));
    assert_eq!(ctx.errors, vec![DecodeError { kind: Mistake::ScalarKind, span: span(0, 0) }]);

    let names = vec![
        ("name".to_string(), text("one")),
        ("name".to_string(), text("two")),
    ];
    let mut ctx = Context::new();
    assert_eq!(read_string_property(&names, "name", &mut ctx), "two");
    assert_eq!(read_string_property(&names, "title", &mut ctx), "");
    assert!(!ctx.has_errors());
}

#[test]
fn scalars_of_the_wrong_kind_are_mistakes() {
    let mut ctx = Context::new();
    assert_eq!(decode_string(&text("abc"), &mut ctx), "abc");
    assert!(decode_bool(&value(Literal::Bool(true)), &mut ctx));
    assert!(!ctx.has_errors());

    assert_eq!(decode_string(&value(Literal::Bool(true)), &mut ctx), "");
    assert!(!decode_bool(&text("true"), &mut ctx));
    assert_eq!(decode_string(&value(Literal::Null), &mut ctx), "");
    assert!(!decode_bool(&value(Literal::Decimal), &mut ctx));
    let kinds: Vec<Mistake> = ctx.errors.iter().map(|e| e.kind).collect();
    assert_eq!(kinds, vec![Mistake::ScalarKind; 4]);

    let mut ctx = Context::new();
    let typed = Value {
        type_tag: Some("u8".to_string()),
        literal: Literal::String("x".to_string()),
        span: span(3, 9),
    };
    assert_eq!(decode_string(&typed, &mut ctx), "x");
    assert_eq!(ctx.errors, vec![DecodeError { kind: Mistake::TypeName, span: span(3, 9) }]);
    let typed = Value { type_tag: Some("u8".to_string()), literal: Literal::Int, span: span(1, 2) };
    assert!(!decode_bool(&typed, &mut ctx));
    let kinds: Vec<Mistake> = ctx.errors.iter().map(|e| e.kind).collect();
    assert_eq!(kinds, vec![Mistake::TypeName, Mistake::TypeName, Mistake::ScalarKind]);
}

#[test]
fn an_argument_node_takes_one_argument_and_nothing_else() {
    let mut ctx = Context::new();
    assert_eq!(parse_arg_node(&shell("ls"), &mut ctx), Ok("ls".to_string()));
    assert!(!ctx.has_errors());

    let mut bare = node("-", Vec::new(), Vec::new());
    bare.span = span(4, 5);
    assert_eq!(
        parse_arg_node(&bare, &mut ctx),
        Err(DecodeError { kind: Mistake::MissingArgument, span: span(4, 5) })
    );
    assert!(!ctx.has_errors());

    let crowded = with(
        with(
            node("-", vec![text("ls"), text("-l"), text("-a")], vec![shell("x"), shell("y")]),
            "a",
            Literal::Null,
        ),
        "b",
        Literal::Null,
    );
    assert_eq!(parse_arg_node(&crowded, &mut ctx), Ok("ls".to_string()));
    let kinds: Vec<Mistake> = ctx.errors.iter().map(|e| e.kind).collect();
    assert_eq!(
        kinds,
        vec![
            Mistake::UnexpectedArgument,
            Mistake::UnexpectedProperty,
            Mistake::UnexpectedProperty,
            Mistake::UnexpectedNode,
            Mistake::UnexpectedNode,
        ]
    );
}

#[test]
fn commands_are_read_in_their_order() {
    let parent = node(
        "@press",
        Vec::new(),
        vec![
            shell("one"),
            node("@enter", vec![text("launcher"), text("ignored")], Vec::new()),
            node("comment", Vec::new(), Vec::new()),
            node("@exit", vec![text("ignored")], Vec::new()),
            shell("two"),
        ],
    );
    let mut ctx = Context::new();
    assert_eq!(
        children_to_commands(&parent, &mut ctx),
        Ok(vec![
            Command::Sh("one".to_string()),
            Command::Internal(Keyword::Enter("launcher".to_string())),
            Command::Internal(Keyword::Exit),
            Command::Sh("two".to_string()),
        ])
    );
    assert!(!ctx.has_errors());
    assert_eq!(children_to_commands(&node("@press", Vec::new(), Vec::new()), &mut ctx), Ok(Vec::new()));
}

#[test]
fn a_command_without_its_argument_ends_the_decoding() {
    let nodes = vec![press("super+t", vec![shell("ok"), node("-", Vec::new(), Vec::new())])];
    assert_eq!(mistakes(&nodes), vec![Mistake::MissingArgument]);
    let nodes = vec![press("super+t", vec![node("@enter", Vec::new(), Vec::new())])];
    assert_eq!(mistakes(&nodes), vec![Mistake::MissingArgument]);
    let nodes = vec![with(
        node("@submap", Vec::new(), vec![press("a", vec![node("-", Vec::new(), Vec::new())])]),
        "name",
        Literal::String("x".to_string()),
    )];
    assert_eq!(mistakes(&nodes), vec![Mistake::MissingArgument]);
}

#[test]
fn every_mistake_of_a_document_is_reported() {
    let nodes = vec![
        with(press("super+t", vec![shell("ok")]), "swallow", Literal::String("no".to_string())),
        node("a", Vec::new(), vec![node("@hold", Vec::new(), Vec::new())]),
        node(
            "b",
            Vec::new(),
            vec![with(
                node("@press", Vec::new(), vec![node("-", vec![value(Literal::Int)], Vec::new())]),
                "repeat",
                Literal::Null,
            )],
        ),
        with(node("@submap", Vec::new(), Vec::new()), "name", Literal::Bool(true)),
    ];
    assert_eq!(
        mistakes(&nodes),
        vec![
            Mistake::ScalarKind,
            Mistake::UnexpectedNode,
            Mistake::MissingTrigger,
            Mistake::ScalarKind,
            Mistake::ScalarKind,
            Mistake::ScalarKind,
        ]
    );
}

#[test]
fn a_document_that_breaks_an_invariant_is_refused_with_the_fault() {
    let twice = vec![press("super+t", vec![shell("one")]), press("t+super", vec![shell("two")])];
    assert_eq!(fault(&twice), Some(Fault::DuplicateBind));

    let nowhere = vec![press("a", vec![node("@enter", vec![text("launcher")], Vec::new())])];
    assert_eq!(fault(&nowhere), Some(Fault::UnknownTarget));

    let named = |name: &str| {
        with(node("@submap", Vec::new(), Vec::new()), "name", Literal::String(name.to_string()))
    };
    assert_eq!(fault(&vec![named("one"), named("one")]), Some(Fault::DuplicateSubmap));
    assert_eq!(fault(&vec![named("main")]), Some(Fault::DuplicateSubmap));
    assert_eq!(fault(&vec![named("one"), named("two")]), None);

    match Config::from_nodes(&twice) {
        Err(ConfigError::Invalid(Fault::DuplicateBind, config)) => {
            assert_eq!(config.submaps.len(), 1);
            assert_eq!(config.submaps[0].binds.len(), 2);
            assert_eq!(config.submaps[0].binds[0].sequence, config.submaps[0].binds[1].sequence);
        }
        _ => panic!("two binds of one sequence are a fault"),
    }
}

#[test]
fn each_fault_is_found() {
    let good = Config {
        submaps: vec![
            submap("main", vec![20], vec![bind(vec![(20, KeyState::Pressed), (125, KeyState::Pressed)], vec![])]),
            submap("other", vec![], vec![]),
        ],
    };
    assert_eq!(good.check(), None);

    let no_main = Config { submaps: vec![submap("other", vec![], vec![])] };
    assert_eq!(no_main.check(), Some(Fault::MissingMain));
    assert_eq!(Config { submaps: Vec::new() }.check(), Some(Fault::MissingMain));

    let same_name =
        Config { submaps: vec![submap("main", vec![], vec![]), submap("main", vec![], vec![])] };
    assert_eq!(same_name.check(), Some(Fault::DuplicateSubmap));

    let same_bind = Config {
        submaps: vec![submap(
            "main",
            vec![20],
            vec![bind(vec![(20, KeyState::Pressed)], vec![]), bind(vec![(20, KeyState::Pressed)], vec![])],
        )],
    };
    assert_eq!(same_bind.check(), Some(Fault::DuplicateBind));

    let unsorted = Config {
        submaps: vec![submap(
            "main",
            vec![125],
            vec![bind(vec![(125, KeyState::Pressed), (20, KeyState::Pressed)], vec![])],
        )],
    };
    assert_eq!(unsorted.check(), Some(Fault::UnsortedSequence));

    let with_mods = |mods: Vec<u16>| Config {
        submaps: vec![submap(
            "main",
            mods,
            vec![bind(vec![(20, KeyState::Pressed), (125, KeyState::Pressed)], vec![])],
        )],
    };
    for mods in vec![vec![], vec![20, 20], vec![125, 20], vec![1, 20], vec![20, 126]] {
        assert_eq!(with_mods(mods).check(), Some(Fault::StaleModifiers));
    }
    for mods in vec![vec![20], vec![125], vec![20, 125]] {
        assert_eq!(with_mods(mods).check(), None);
    }

    let empty = Config { submaps: vec![submap("main", vec![], vec![bind(vec![], vec![])])] };
    assert_eq!(empty.check(), Some(Fault::EmptySequence));

    let mut inexact = with_mods(vec![125]);
    inexact.submaps[0].binds[0].args.exact = false;
    assert_eq!(inexact.check(), Some(Fault::InexactBind));
    assert_eq!(inexact.submaps[0].check(), Some(Fault::InexactBind));
    assert!(server_refuses(inexact));

    let target = Config {
        submaps: vec![submap(
            "main",
            vec![20],
            vec![bind(
                vec![(20, KeyState::Pressed)],
                vec![Command::Internal(Keyword::Enter("gone".to_string()))],
            )],
        )],
    };
    assert_eq!(target.check(), Some(Fault::UnknownTarget));

    // The first fault in the order of the checks is the one reported.
    let several = Config {
        submaps: vec![
            submap("a", vec![9], vec![bind(vec![(3, KeyState::Pressed), (2, KeyState::Pressed)], vec![])]),
            submap("a", vec![], vec![]),
            submap("main", vec![], vec![]),
        ],
    };
    assert_eq!(several.check(), Some(Fault::DuplicateSubmap));
    assert_eq!(several.submaps[0].check(), Some(Fault::UnsortedSequence));
}

#[test]
fn the_parts_of_the_check() {
    let binds = vec![
        bind(vec![(20, KeyState::Pressed)], vec![]),
        bind(vec![(20, KeyState::Released)], vec![]),
        bind(vec![], vec![]),
    ];
    assert!(binds_are_distinct(&binds));
    assert!(all_sorted(&binds));
    assert!(all_are_exact(&binds));
    assert!(!all_are_keyed(&binds) && all_are_keyed(&binds[..2].to_vec()));
    assert!(mods_cover_binds(&vec![20], &binds));
    assert!(!mods_cover_binds(&vec![0, 20], &binds));
    assert!(!mods_cover_binds(&vec![], &binds));
    assert!(codes_ascend(&vec![1, 2, 9]) && codes_ascend(&vec![]) && !codes_ascend(&vec![1, 1]));
    assert!(!codes_ascend(&vec![1, 3, 2]));
    assert!(holds_code(&vec![1, 2], 2) && !holds_code(&vec![1, 2], 3));
    assert!(names_key(&binds[0].sequence, 20) && !names_key(&binds[0].sequence, 21));
    assert!(is_key_of_a_bind(&binds, 20) && !is_key_of_a_bind(&binds, 125));
    assert!(meets_mods(&binds[0].sequence, &vec![1, 20]));
    assert!(!meets_mods(&binds[0].sequence, &vec![1]) && !meets_mods(&binds[2].sequence, &vec![1]));
    assert!(is_sorted(&vec![(1, KeyState::Pressed), (1, KeyState::Released), (2, KeyState::Pressed)]));
    assert!(!is_sorted(&vec![(1, KeyState::Pressed), (3, KeyState::Released), (2, KeyState::Pressed)]));
    assert!(is_sorted(&Vec::new()));

    let submaps = vec![submap("main", vec![], vec![]), submap("one", vec![], vec![])];
    assert!(names_are_distinct(&submaps));
    assert_eq!(submap_index(&submaps, &"one".to_string()), Some(1));
    assert_eq!(submap_index(&submaps, &"two".to_string()), None);
    let enter = |name: &str| Command::Internal(Keyword::Enter(name.to_string()));
    assert!(targets_are_known(&vec![enter("one"), Command::Sh("two".to_string())], &submaps));
    assert!(!targets_are_known(&vec![enter("one"), enter("two")], &submaps));
    assert!(all_targets_known(&submaps));
}

#[test]
fn a_server_starts_only_on_a_sound_configuration() {
    let good = Config::from_nodes(&vec![press("super+t", vec![shell("alacritty")])]).unwrap();
    let server: Server<()> = Server::new(good).unwrap();
    assert!(server.grabbing);
    assert_eq!(server.submaps.current, "main");
    assert_eq!(server.devices.len(), 0);

    let bad = Config { submaps: vec![submap("other", vec![], vec![])] };
    match Server::<()>::new(bad) {
        Err(MudrasError::LibError(e)) => {
            assert_eq!(e.message, "The configuration has no `main` submap.");
            assert_eq!(e.help, "Mend the configuration file and start again.");
        }
        _ => panic!("a configuration without `main` is refused"),
    }
    assert_eq!(describe(Fault::DuplicateSubmap), "Two submaps have the same name.");
    assert_eq!(describe(Fault::DuplicateBind), "Two binds of one submap have the same key sequence.");
    assert_eq!(describe(Fault::UnsortedSequence), "A key sequence is not sorted by key code.");
    assert_eq!(describe(Fault::StaleModifiers), "The modifiers of a submap do not fit its binds.");
    assert_eq!(describe(Fault::InexactBind), "A bind is not exact.");
    assert_eq!(describe(Fault::EmptySequence), "A bind names no key.");
    assert_eq!(describe(Fault::UnknownTarget), "A bind enters a submap that does not exist.");
}

#[test]
fn the_submaps_are_listed_with_their_binds() {
    let nodes = vec![
        press("super+t", vec![shell("alacritty")]),
        with(
            node("@submap", Vec::new(), vec![press("f", vec![shell("firefox")])]),
            "name",
            Literal::String("launcher".to_string()),
        ),
    ];
    let config = Config::from_nodes(&nodes).unwrap();
    let list = config.get_submaps().unwrap();
    assert_eq!(list.len(), 2);
    assert_eq!(list[0].0, "launcher");
    assert_eq!(list[0].1, config.submaps[0].binds);
    assert_eq!(list[1].0, "main");
    assert_eq!(list[1].1, config.submaps[1].binds);
    assert_eq!(copy_binds(&config.submaps[1].binds), config.submaps[1].binds);
    let commands = vec![
        Command::Sh("a".to_string()),
        Command::Internal(Keyword::Enter("b".to_string())),
        Command::Internal(Keyword::Exit),
    ];
    assert_eq!(copy_commands(&commands), commands);
}

#[test]
fn mistakes_come_in_their_order_with_their_places() {
    let at = |start: usize| span(start, start + 1);
    let typed = |start: usize, literal: Literal| Value {
        type_tag: Some("u8".to_string()),
        literal,
        span: at(start),
    };
    let placed = |mut node: Node, start: usize| {
        node.span = at(start);
        node
    };
    let mut command = node("-", vec![typed(1, Literal::Int), typed(2, Literal::Null)], Vec::new());
    command.properties.push(("p".to_string(), typed(3, Literal::Null)));
    command.children.push(placed(node("x", Vec::new(), Vec::new()), 4));
    let mut press = node("@press", Vec::new(), vec![command]);
    press.properties.push(("repeat".to_string(), typed(5, Literal::Bool(true))));
    let mut bind = node("a", Vec::new(), vec![placed(node("@hold", Vec::new(), Vec::new()), 6), press]);
    bind.properties.push(("swallow".to_string(), typed(7, Literal::Decimal)));
    let mut submap = node(
        "@submap",
        Vec::new(),
        vec![node(
            "b",
            Vec::new(),
            vec![node(
                "@release",
                Vec::new(),
                vec![
                    node("@enter", vec![typed(8, Literal::String("x".to_string()))], Vec::new()),
                    placed(node("-", Vec::new(), Vec::new()), 9),
                    node("@enter", vec![typed(10, Literal::Null)], Vec::new()),
                ],
            )],
        )],
    );
    submap.properties.push(("name".to_string(), typed(11, Literal::Bool(false))));
    let later = node("c", Vec::new(), vec![placed(node("@hold", Vec::new(), Vec::new()), 12)]);

    let expected = vec![
        DecodeError { kind: Mistake::TypeName, span: at(7) },
        DecodeError { kind: Mistake::ScalarKind, span: at(7) },
        DecodeError { kind: Mistake::UnexpectedNode, span: at(6) },
        DecodeError { kind: Mistake::TypeName, span: at(5) },
        DecodeError { kind: Mistake::TypeName, span: at(1) },
        DecodeError { kind: Mistake::ScalarKind, span: at(1) },
        DecodeError { kind: Mistake::UnexpectedArgument, span: at(2) },
        DecodeError { kind: Mistake::UnexpectedProperty, span: at(3) },
        DecodeError { kind: Mistake::UnexpectedNode, span: at(4) },
        DecodeError { kind: Mistake::TypeName, span: at(11) },
        DecodeError { kind: Mistake::ScalarKind, span: at(11) },
        DecodeError { kind: Mistake::TypeName, span: at(8) },
        // The decoding ends here: what follows is not looked at.
        DecodeError { kind: Mistake::MissingArgument, span: at(9) },
    ];
    match Config::from_nodes(&vec![bind, submap, later]) {
        Err(ConfigError::Decode(errors)) => assert_eq!(errors, expected),
        _ => panic!("a document with mistakes gives no configuration"),
    }
}

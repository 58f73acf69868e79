//! From the nodes of a configuration document to the configuration.
//!
//! The document is a tree of nodes, each with a name, arguments, named
//! properties and children. A top-level node is a bind, named by its chord,
//! or `@submap name="..."` with binds as children. A bind holds `@press`
//! and `@release` nodes, whose children are the commands: `- "shell text"`,
//! `@enter "submap"` and `@exit`.
//!
//! Decoding goes on after a mistake where it can, so that the user sees
//! every mistake at once: such mistakes are put down in the context. A
//! mistake after which nothing sensible can follow ends the decoding.

use crate::config::check::{
    all_targets_exist, fault_of, first_submap_fault, lemma_codes_canonical, sequences_sorted,
    submap_fault, Fault,
};
use crate::config::utils::{
    bind_to_keys, chord_sequence, get_modifiers, is_text, sort_by_code, sort_sequence,
};
use crate::config::{
    all_exact, all_keyed, binds_distinct, codes_ascending, copy_commands, find_submap,
    find_submap_from, has_key, is_bound_key, is_first_key, meets, mods_cover, names_distinct,
    targets_exist, Bind, BindArgs, Command, Config, Keyword,
    SequenceType, Submap,
};
use crate::input::keys::KeyCode;
use crate::config::sorted_by_code;
use crate::input::utils::KeyEntry;
use vstd::prelude::*;

verus! {

/// A scalar of the document.
#[derive(Clone, Debug, PartialEq)]
pub enum Literal {
    Null,
    Bool(bool),
    /// An integer, of which the configuration has no use.
    Int,
    /// A decimal number, of which the configuration has no use.
    Decimal,
    String(String),
}

/// Where in the text something stands: the first byte and the byte behind
/// the last.
#[derive(Clone, Copy, Debug, PartialEq, Eq, Structural)]
pub struct Span {
    pub start: usize,
    pub end: usize,
}

/// A scalar with the type name written in front of it, if any.
#[derive(Clone, Debug, PartialEq)]
pub struct Value {
    pub type_tag: Option<String>,
    pub literal: Literal,
    pub span: Span,
}

/// A node of the document.
#[derive(Debug)]
pub struct Node {
    pub node_name: String,
    pub arguments: Vec<Value>,
    /// The properties in the order of their names; a name written twice
    /// counts where it is written last.
    pub properties: Vec<(String, Value)>,
    pub children: Vec<Node>,
    pub span: Span,
}

/// The kind of a mistake in the document.
#[derive(Clone, Copy, Debug, PartialEq, Eq, Structural)]
pub enum Mistake {
    /// A scalar has a type name where none is expected.
    TypeName,
    /// A scalar is of another kind than the one expected.
    ScalarKind,
    /// A node lacks an argument that it needs.
    MissingArgument,
    /// An argument too many.
    UnexpectedArgument,
    /// A property that the node does not have.
    UnexpectedProperty,
    /// A node where none is expected, or none of this name.
    UnexpectedNode,
    /// A bind node holds neither `@press` nor `@release`.
    MissingTrigger,
}

/// A mistake with the place where it stands.
#[derive(Clone, Copy, Debug, PartialEq, Eq, Structural)]
pub struct DecodeError {
    pub kind: Mistake,
    pub span: Span,
}

/// The mistakes found so far.
#[derive(Debug)]
pub struct Context {
    pub errors: Vec<DecodeError>,
}

impl Context {
    /// A context without mistakes.
    pub fn new() -> (r: Self)
        ensures
            r.errors@.len() == 0,
    {
        Context { errors: Vec::new() }
    }

    /// Puts a mistake down and lets the decoding go on.
    pub fn emit_error(&mut self, kind: Mistake, span: Span)
        ensures
            final(self).errors@ == old(self).errors@.push(DecodeError { kind, span }),
    {
        self.errors.push(DecodeError { kind, span });
    }

    /// Whether a mistake has been put down.
    pub fn has_errors(&self) -> (r: bool)
        ensures
            r == (self.errors@.len() > 0),
    {
        self.errors.len() > 0
    }
}

/// What decoding a part of the document comes to, besides the value it
/// reads: the mistakes that it puts down, in their order, and the mistake
/// on which it ends, if it does.
pub struct Run {
    pub mistakes: Seq<DecodeError>,
    pub failure: Option<DecodeError>,
}

/// A run that puts these mistakes down and goes on.
pub open spec fn noted(mistakes: Seq<DecodeError>) -> Run {
    Run { mistakes, failure: None }
}

/// A run that ends on this mistake.
pub open spec fn failed(kind: Mistake, span: Span) -> Run {
    Run { mistakes: Seq::empty(), failure: Some(DecodeError { kind, span }) }
}

/// One run after another: the second does not start once the first has
/// ended the decoding.
pub open spec fn then(first: Run, second: Run) -> Run {
    if first.failure is Some {
        first
    } else {
        Run { mistakes: first.mistakes + second.mistakes, failure: second.failure }
    }
}

/// One mistake.
pub open spec fn mistake(kind: Mistake, span: Span) -> Seq<DecodeError> {
    seq![DecodeError { kind, span }]
}

/// The string that a scalar gives: its text if it is a string, the empty
/// string otherwise.
pub open spec fn string_value(value: Value) -> Seq<char> {
    match value.literal {
        Literal::String(s) => s@,
        _ => Seq::empty(),
    }
}

/// The mistake of a type name where none is expected.
pub open spec fn tag_mistakes(value: Value) -> Seq<DecodeError> {
    if value.type_tag is Some {
        mistake(Mistake::TypeName, value.span)
    } else {
        Seq::empty()
    }
}

/// The mistakes of a scalar that is read as a string.
pub open spec fn string_mistakes(value: Value) -> Seq<DecodeError> {
    tag_mistakes(value) + if value.literal is String {
        Seq::empty()
    } else {
        mistake(Mistake::ScalarKind, value.span)
    }
}

/// The truth value that a scalar gives: its own if it is one, `false`
/// otherwise.
pub open spec fn bool_value(value: Value) -> bool {
    match value.literal {
        Literal::Bool(b) => b,
        _ => false,
    }
}

/// The mistakes of a scalar that is read as a truth value.
pub open spec fn bool_mistakes(value: Value) -> Seq<DecodeError> {
    tag_mistakes(value) + if value.literal is Bool {
        Seq::empty()
    } else {
        mistake(Mistake::ScalarKind, value.span)
    }
}

/// Reads a string. A type name is a mistake, and so is a scalar of another
/// kind, which reads as the empty string.
pub fn decode_string(value: &Value, ctx: &mut Context) -> (r: String)
    ensures
        r@ == string_value(*value),
        final(ctx).errors@ == old(ctx).errors@ + string_mistakes(*value),
{
    if value.type_tag.is_some() {
        ctx.emit_error(Mistake::TypeName, value.span);
    }
    match &value.literal {
        Literal::String(s) => {
            assert(ctx.errors@ =~= old(ctx).errors@ + string_mistakes(*value));
            s.clone()
        },
        _ => {
            ctx.emit_error(Mistake::ScalarKind, value.span);
            assert(ctx.errors@ =~= old(ctx).errors@ + string_mistakes(*value));
            String::new()
        },
    }
}

/// Reads a truth value. A type name is a mistake, and so is a scalar of
/// another kind, which reads as `false`.
pub fn decode_bool(value: &Value, ctx: &mut Context) -> (r: bool)
    ensures
        r == bool_value(*value),
        final(ctx).errors@ == old(ctx).errors@ + bool_mistakes(*value),
{
    if value.type_tag.is_some() {
        ctx.emit_error(Mistake::TypeName, value.span);
    }
    match &value.literal {
        Literal::Bool(b) => {
            assert(ctx.errors@ =~= old(ctx).errors@ + bool_mistakes(*value));
            *b
        },
        _ => {
            ctx.emit_error(Mistake::ScalarKind, value.span);
            assert(ctx.errors@ =~= old(ctx).errors@ + bool_mistakes(*value));
            false
        },
    }
}

/// The mistake of each property, in their order.
pub open spec fn property_mistakes(props: Seq<(String, Value)>) -> Seq<DecodeError> {
    props.map_values(
        |p: (String, Value)| (DecodeError { kind: Mistake::UnexpectedProperty, span: p.1.span }),
    )
}

/// The mistake of each node, in their order.
pub open spec fn node_mistakes(nodes: Seq<Node>) -> Seq<DecodeError> {
    nodes.map_values(|n: Node| (DecodeError { kind: Mistake::UnexpectedNode, span: n.span }))
}

/// The run of a node that carries one string argument and nothing else:
/// without an argument the decoding ends; a second argument, each property
/// and each child is a mistake.
pub open spec fn arg_node_run(node: Node) -> Run {
    if node.arguments@.len() == 0 {
        failed(Mistake::MissingArgument, node.span)
    } else {
        noted(
            string_mistakes(node.arguments@[0]) + (if node.arguments@.len() > 1 {
                mistake(Mistake::UnexpectedArgument, node.arguments@[1].span)
            } else {
                Seq::empty()
            }) + property_mistakes(node.properties@) + node_mistakes(node.children@),
        )
    }
}

/// Reads the one argument of a node such as `- "text"`.
pub fn parse_arg_node(node: &Node, ctx: &mut Context) -> (r: Result<String, DecodeError>)
    ensures
        final(ctx).errors@ == old(ctx).errors@ + arg_node_run(*node).mistakes,
        r is Err <==> arg_node_run(*node).failure is Some,
        r is Err ==> r->Err_0 == arg_node_run(*node).failure->0,
        r is Ok ==> r->Ok_0@ == string_value(node.arguments@[0]),
{
    if node.arguments.len() == 0 {
        assert(ctx.errors@ =~= old(ctx).errors@ + arg_node_run(*node).mistakes);
        return Err(DecodeError { kind: Mistake::MissingArgument, span: node.span });
    }
    let value = decode_string(&node.arguments[0], ctx);
    if node.arguments.len() > 1 {
        ctx.emit_error(Mistake::UnexpectedArgument, node.arguments[1].span);
    }
    let ghost mid = ctx.errors@;
    let mut i: usize = 0;
    while i < node.properties.len()
        invariant
            i <= node.properties@.len(),
            ctx.errors@ == mid + property_mistakes(node.properties@.take(i as int)),
        decreases node.properties@.len() - i,
    {
        ctx.emit_error(Mistake::UnexpectedProperty, node.properties[i].1.span);
        proof {
            assert(node.properties@.take(i + 1) =~= node.properties@.take(i as int).push(
                node.properties@[i as int],
            ));
            assert(ctx.errors@ =~= mid + property_mistakes(node.properties@.take(i + 1)));
        }
        i += 1;
    }
    assert(node.properties@.take(i as int) =~= node.properties@);
    let ghost mid2 = ctx.errors@;
    let mut j: usize = 0;
    while j < node.children.len()
        invariant
            j <= node.children@.len(),
            ctx.errors@ == mid2 + node_mistakes(node.children@.take(j as int)),
        decreases node.children@.len() - j,
    {
        ctx.emit_error(Mistake::UnexpectedNode, node.children[j].span);
        proof {
            assert(node.children@.take(j + 1) =~= node.children@.take(j as int).push(
                node.children@[j as int],
            ));
            assert(ctx.errors@ =~= mid2 + node_mistakes(node.children@.take(j + 1)));
        }
        j += 1;
    }
    proof {
        assert(node.children@.take(j as int) =~= node.children@);
        assert(ctx.errors@ =~= old(ctx).errors@ + arg_node_run(*node).mistakes);
    }
    Ok(value)
}

/// A command, with its text by its characters.
pub enum CommandModel {
    Sh(Seq<char>),
    Enter(Seq<char>),
    Exit,
}

/// What a command is.
pub open spec fn command_model(command: Command) -> CommandModel {
    match command {
        Command::Sh(text) => CommandModel::Sh(text@),
        Command::Internal(Keyword::Enter(name)) => CommandModel::Enter(name@),
        Command::Internal(Keyword::Exit) => CommandModel::Exit,
    }
}

/// What the commands of a list are.
pub open spec fn commands_model(commands: Seq<Command>) -> Seq<CommandModel> {
    commands.map_values(|c: Command| command_model(c))
}

/// The command that a node stands for, if it stands for one.
pub open spec fn command_of(child: Node) -> Option<CommandModel> {
    if child.node_name@ == "-"@ {
        Some(CommandModel::Sh(string_value(child.arguments@[0])))
    } else if child.node_name@ == "@enter"@ {
        Some(CommandModel::Enter(string_value(child.arguments@[0])))
    } else if child.node_name@ == "@exit"@ {
        Some(CommandModel::Exit)
    } else {
        None
    }
}

/// The run of a command node. A `-` is read as a node of one argument. An
/// `@enter` needs its argument and reads the first; what else it carries
/// is passed over, and so is what an `@exit` carries and any node that is
/// no command.
pub open spec fn command_run(child: Node) -> Run {
    if child.node_name@ == "-"@ {
        arg_node_run(child)
    } else if child.node_name@ == "@enter"@ {
        if child.arguments@.len() == 0 {
            failed(Mistake::MissingArgument, child.span)
        } else {
            noted(string_mistakes(child.arguments@[0]))
        }
    } else {
        noted(Seq::empty())
    }
}

/// The commands that the nodes stand for, in their order.
pub open spec fn commands_of(children: Seq<Node>) -> Seq<CommandModel>
    decreases children.len(),
{
    if children.len() == 0 {
        Seq::empty()
    } else {
        let front = commands_of(children.drop_last());
        match command_of(children.last()) {
            Some(command) => front.push(command),
            None => front,
        }
    }
}

/// The run of the command nodes, one after the other.
pub open spec fn commands_run(children: Seq<Node>) -> Run
    decreases children.len(),
{
    if children.len() == 0 {
        noted(Seq::empty())
    } else {
        then(commands_run(children.drop_last()), command_run(children.last()))
    }
}

/// A run that has ended stays what it is when more nodes follow.
pub proof fn lemma_commands_run_ended(children: Seq<Node>, upto: int)
    requires
        0 <= upto <= children.len(),
        commands_run(children.take(upto)).failure is Some,
    ensures
        commands_run(children) == commands_run(children.take(upto)),
    decreases children.len() - upto,
{
    if upto < children.len() {
        assert(children.take(upto + 1).drop_last() =~= children.take(upto));
        lemma_commands_run_ended(children, upto + 1);
    } else {
        assert(children.take(upto) =~= children);
    }
}

/// Reads the commands under a `@press` or `@release` node: `- "text"` is a
/// shell command, `@enter "name"` enters a submap, `@exit` leaves for
/// `main`; a node of another name is passed over. A `-` or an `@enter`
/// without an argument ends the decoding.
pub fn children_to_commands(node: &Node, ctx: &mut Context) -> (r: Result<
    Vec<Command>,
    DecodeError,
>)
    ensures
        final(ctx).errors@ == old(ctx).errors@ + commands_run(node.children@).mistakes,
        r is Err <==> commands_run(node.children@).failure is Some,
        r is Err ==> r->Err_0 == commands_run(node.children@).failure->0,
        r is Ok ==> commands_model(r->Ok_0@) == commands_of(node.children@),
{
    let mut commands: Vec<Command> = Vec::new();
    let mut i: usize = 0;
    proof {
        assert(commands_model(commands@) =~= commands_of(node.children@.take(0)));
        assert(ctx.errors@ =~= old(ctx).errors@ + commands_run(node.children@.take(0)).mistakes);
    }
    while i < node.children.len()
        invariant
            i <= node.children@.len(),
            ctx.errors@ == old(ctx).errors@ + commands_run(node.children@.take(i as int)).mistakes,
            commands_run(node.children@.take(i as int)).failure is None,
            commands_model(commands@) == commands_of(node.children@.take(i as int)),
        decreases node.children@.len() - i,
    {
        let child = &node.children[i];
        let ghost seen = node.children@.take(i as int);
        let ghost next = node.children@.take(i + 1);
        let ghost so_far = commands@;
        proof {
            assert(next.drop_last() =~= seen);
            assert(next.last() == *child);
            assert(commands_run(next) == then(commands_run(seen), command_run(*child)));
        }
        if is_text(&child.node_name, "-") {
            match parse_arg_node(child, ctx) {
                Ok(text) => {
                    commands.push(Command::Sh(text));
                },
                Err(e) => {
                    proof {
                        assert(ctx.errors@ =~= old(ctx).errors@ + commands_run(next).mistakes);
                        lemma_commands_run_ended(node.children@, i + 1);
                    }
                    return Err(e);
                },
            }
        } else if is_text(&child.node_name, "@enter") {
            if child.arguments.len() == 0 {
                proof {
                    assert(ctx.errors@ =~= old(ctx).errors@ + commands_run(next).mistakes);
                    lemma_commands_run_ended(node.children@, i + 1);
                }
                return Err(DecodeError { kind: Mistake::MissingArgument, span: child.span });
            }
            let name = decode_string(&child.arguments[0], ctx);
            commands.push(Command::Internal(Keyword::Enter(name)));
        } else if is_text(&child.node_name, "@exit") {
            commands.push(Command::Internal(Keyword::Exit));
        }
        proof {
            match command_of(*child) {
                Some(c) => {
                    assert(commands_model(commands@) =~= commands_model(so_far).push(c));
                },
                None => {},
            }
            assert(ctx.errors@ =~= old(ctx).errors@ + commands_run(next).mistakes);
        }
        i += 1;
    }
    proof {
        assert(node.children@.take(i as int) =~= node.children@);
    }
    Ok(commands)
}

/// The truth value of the property of the given name: that of the last
/// property of that name, `default` where there is none.
pub open spec fn bool_property(props: Seq<(String, Value)>, name: Seq<char>, default: bool) -> bool
    decreases props.len(),
{
    if props.len() == 0 {
        default
    } else if props.last().0@ == name {
        bool_value(props.last().1)
    } else {
        bool_property(props.drop_last(), name, default)
    }
}

/// The mistakes of the properties of the given name, read as truth values.
pub open spec fn bool_property_mistakes(props: Seq<(String, Value)>, name: Seq<char>) -> Seq<
    DecodeError,
>
    decreases props.len(),
{
    if props.len() == 0 {
        Seq::empty()
    } else {
        bool_property_mistakes(props.drop_last(), name) + if props.last().0@ == name {
            bool_mistakes(props.last().1)
        } else {
            Seq::empty()
        }
    }
}

/// Reads the truth value of the property of the given name.
pub fn read_bool_property(
    props: &Vec<(String, Value)>,
    name: &str,
    default: bool,
    ctx: &mut Context,
) -> (r: bool)
    ensures
        r == bool_property(props@, name@, default),
        final(ctx).errors@ == old(ctx).errors@ + bool_property_mistakes(props@, name@),
{
    let mut value = default;
    let mut i: usize = 0;
    proof {
        assert(ctx.errors@ =~= old(ctx).errors@ + bool_property_mistakes(props@.take(0), name@));
    }
    while i < props.len()
        invariant
            i <= props@.len(),
            value == bool_property(props@.take(i as int), name@, default),
            ctx.errors@ == old(ctx).errors@ + bool_property_mistakes(
                props@.take(i as int),
                name@,
            ),
        decreases props@.len() - i,
    {
        proof {
            assert(props@.take(i + 1).drop_last() =~= props@.take(i as int));
            assert(props@.take(i + 1).last() == props@[i as int]);
        }
        if is_text(&props[i].0, name) {
            value = decode_bool(&props[i].1, ctx);
        }
        proof {
            assert(ctx.errors@ =~= old(ctx).errors@ + bool_property_mistakes(
                props@.take(i + 1),
                name@,
            ));
        }
        i += 1;
    }
    proof {
        assert(props@.take(i as int) =~= props@);
    }
    value
}

/// The string of the property of the given name: that of the last property
/// of that name, the empty string where there is none.
pub open spec fn string_property(props: Seq<(String, Value)>, name: Seq<char>) -> Seq<char>
    decreases props.len(),
{
    if props.len() == 0 {
        Seq::empty()
    } else if props.last().0@ == name {
        string_value(props.last().1)
    } else {
        string_property(props.drop_last(), name)
    }
}

/// The mistakes of the properties of the given name, read as strings.
pub open spec fn string_property_mistakes(props: Seq<(String, Value)>, name: Seq<char>) -> Seq<
    DecodeError,
>
    decreases props.len(),
{
    if props.len() == 0 {
        Seq::empty()
    } else {
        string_property_mistakes(props.drop_last(), name) + if props.last().0@ == name {
            string_mistakes(props.last().1)
        } else {
            Seq::empty()
        }
    }
}

/// Reads the string of the property of the given name.
pub fn read_string_property(props: &Vec<(String, Value)>, name: &str, ctx: &mut Context) -> (r:
    String)
    ensures
        r@ == string_property(props@, name@),
        final(ctx).errors@ == old(ctx).errors@ + string_property_mistakes(props@, name@),
{
    let mut value = String::new();
    let mut i: usize = 0;
    proof {
        assert(ctx.errors@ =~= old(ctx).errors@ + string_property_mistakes(props@.take(0), name@));
    }
    while i < props.len()
        invariant
            i <= props@.len(),
            value@ == string_property(props@.take(i as int), name@),
            ctx.errors@ == old(ctx).errors@ + string_property_mistakes(
                props@.take(i as int),
                name@,
            ),
        decreases props@.len() - i,
    {
        proof {
            assert(props@.take(i + 1).drop_last() =~= props@.take(i as int));
            assert(props@.take(i + 1).last() == props@[i as int]);
        }
        if is_text(&props[i].0, name) {
            value = decode_string(&props[i].1, ctx);
        }
        proof {
            assert(ctx.errors@ =~= old(ctx).errors@ + string_property_mistakes(
                props@.take(i + 1),
                name@,
            ));
        }
        i += 1;
    }
    proof {
        assert(props@.take(i as int) =~= props@);
    }
    value
}

/// A bind, with its commands by what they are.
pub struct BindModel {
    pub sequence: Seq<KeyEntry>,
    pub commands: Seq<CommandModel>,
    pub swallow: bool,
    pub repeat: bool,
    pub exact: bool,
}

/// What a bind is.
pub open spec fn bind_model(bind: Bind) -> BindModel {
    BindModel {
        sequence: bind.sequence@,
        commands: commands_model(bind.args.commands@),
        swallow: bind.args.swallow,
        repeat: bind.args.repeat,
        exact: bind.args.exact,
    }
}

/// What the binds of a list are.
pub open spec fn binds_model(binds: Seq<Bind>) -> Seq<BindModel> {
    binds.map_values(|b: Bind| bind_model(b))
}

/// The node says when a bind triggers: it is `@press` or `@release`.
pub open spec fn is_trigger(child: Node) -> bool {
    child.node_name@ == "@press"@ || child.node_name@ == "@release"@
}

/// The bind that a `@press` or `@release` node makes of a chord: the keys
/// in the order of the chord, the commands of the node, and for a `@press`
/// its `repeat` property. Every bind is exact.
pub open spec fn bind_of_trigger(chord: Seq<char>, swallow: bool, child: Node) -> BindModel {
    if child.node_name@ == "@press"@ {
        BindModel {
            sequence: chord_sequence(chord, SequenceType::Press),
            commands: commands_of(child.children@),
            swallow,
            repeat: bool_property(child.properties@, "repeat"@, false),
            exact: true,
        }
    } else {
        BindModel {
            sequence: chord_sequence(chord, SequenceType::Release),
            commands: commands_of(child.children@),
            swallow,
            repeat: false,
            exact: true,
        }
    }
}

/// The binds that the children of a bind node make of the chord: one for
/// each `@press` and each `@release`, in their order.
pub open spec fn binds_of_children(chord: Seq<char>, swallow: bool, children: Seq<Node>) -> Seq<
    BindModel,
>
    decreases children.len(),
{
    if children.len() == 0 {
        Seq::empty()
    } else if is_trigger(children.last()) {
        binds_of_children(chord, swallow, children.drop_last()).push(
            bind_of_trigger(chord, swallow, children.last()),
        )
    } else {
        binds_of_children(chord, swallow, children.drop_last())
    }
}

/// The binds that a bind node stands for: its name is the chord, its
/// `swallow` property overrides the default, which is to swallow.
pub open spec fn binds_of_node(node: Node) -> Seq<BindModel> {
    binds_of_children(
        node.node_name@,
        bool_property(node.properties@, "swallow"@, true),
        node.children@,
    )
}

/// The run of a child of a bind node: a `@press` reads its `repeat`
/// property and its commands, a `@release` its commands; any other node is
/// a mistake.
pub open spec fn trigger_run(child: Node) -> Run {
    if child.node_name@ == "@press"@ {
        then(
            noted(bool_property_mistakes(child.properties@, "repeat"@)),
            commands_run(child.children@),
        )
    } else if child.node_name@ == "@release"@ {
        commands_run(child.children@)
    } else {
        noted(mistake(Mistake::UnexpectedNode, child.span))
    }
}

/// The run of the children of a bind node, one after the other.
pub open spec fn triggers_run(children: Seq<Node>) -> Run
    decreases children.len(),
{
    if children.len() == 0 {
        noted(Seq::empty())
    } else {
        then(triggers_run(children.drop_last()), trigger_run(children.last()))
    }
}

/// A run that has ended stays what it is when more children follow.
pub proof fn lemma_triggers_run_ended(children: Seq<Node>, upto: int)
    requires
        0 <= upto <= children.len(),
        triggers_run(children.take(upto)).failure is Some,
    ensures
        triggers_run(children) == triggers_run(children.take(upto)),
    decreases children.len() - upto,
{
    if upto < children.len() {
        assert(children.take(upto + 1).drop_last() =~= children.take(upto));
        lemma_triggers_run_ended(children, upto + 1);
    } else {
        assert(children.take(upto) =~= children);
    }
}

/// The run of a bind node: its `swallow` property, then its children; a
/// node that holds neither `@press` nor `@release` is a mistake.
pub open spec fn bind_run(node: Node) -> Run {
    then(
        then(
            noted(bool_property_mistakes(node.properties@, "swallow"@)),
            triggers_run(node.children@),
        ),
        noted(
            if binds_of_node(node).len() == 0 {
                mistake(Mistake::MissingTrigger, node.span)
            } else {
                Seq::empty()
            },
        ),
    )
}

impl Bind {
    /// Reads a bind node: the binds of its chord, one for each `@press`
    /// and each `@release`, each with its keys in the order of the chord.
    pub fn decode_node(node: &Node, ctx: &mut Context) -> (r: Result<Vec<Bind>, DecodeError>)
        ensures
            final(ctx).errors@ == old(ctx).errors@ + bind_run(*node).mistakes,
            r is Err <==> bind_run(*node).failure is Some,
            r is Err ==> r->Err_0 == bind_run(*node).failure->0,
            r is Ok ==> binds_model(r->Ok_0@) == binds_of_node(*node),
    {
        let swallow = read_bool_property(&node.properties, "swallow", true, ctx);
        let mut binds: Vec<Bind> = Vec::new();
        let ghost chord = node.node_name@;
        let ghost first = ctx.errors@;
        let mut i: usize = 0;
        proof {
            assert(binds_model(binds@) =~= binds_of_children(
                chord,
                swallow,
                node.children@.take(0),
            ));
            assert(ctx.errors@ =~= first + triggers_run(node.children@.take(0)).mistakes);
        }
        while i < node.children.len()
            invariant
                i <= node.children@.len(),
                chord == node.node_name@,
                first == old(ctx).errors@ + bool_property_mistakes(node.properties@, "swallow"@),
                ctx.errors@ == first + triggers_run(node.children@.take(i as int)).mistakes,
                triggers_run(node.children@.take(i as int)).failure is None,
                binds_model(binds@) == binds_of_children(
                    chord,
                    swallow,
                    node.children@.take(i as int),
                ),
            decreases node.children@.len() - i,
        {
            let child = &node.children[i];
            let ghost seen = node.children@.take(i as int);
            let ghost next = node.children@.take(i + 1);
            let ghost so_far = binds@;
            proof {
                assert(next.drop_last() =~= seen);
                assert(next.last() == *child);
                assert(triggers_run(next) == then(triggers_run(seen), trigger_run(*child)));
            }
            let press = is_text(&child.node_name, "@press");
            if press || is_text(&child.node_name, "@release") {
                let kind = if press {
                    SequenceType::Press
                } else {
                    SequenceType::Release
                };
                let sequence = match bind_to_keys(node.node_name.as_str(), &kind) {
                    Ok(keys) => keys,
                    Err(_) => Vec::new(),
                };
                let repeat = if press {
                    read_bool_property(&child.properties, "repeat", false, ctx)
                } else {
                    false
                };
                match children_to_commands(child, ctx) {
                    Ok(commands) => {
                        let bind = Bind {
                            sequence,
                            args: BindArgs { commands, swallow, repeat, exact: true },
                        };
                        binds.push(bind);
                        proof {
                            assert(binds_model(binds@) =~= binds_model(so_far).push(
                                bind_model(bind),
                            ));
                        }
                    },
                    Err(e) => {
                        proof {
                            assert(ctx.errors@ =~= first + triggers_run(next).mistakes);
                            lemma_triggers_run_ended(node.children@, i + 1);
                            assert(ctx.errors@ =~= old(ctx).errors@ + bind_run(*node).mistakes);
                        }
                        return Err(e);
                    },
                }
            } else {
                ctx.emit_error(Mistake::UnexpectedNode, child.span);
            }
            proof {
                assert(ctx.errors@ =~= first + triggers_run(next).mistakes);
            }
            i += 1;
        }
        proof {
            assert(node.children@.take(i as int) =~= node.children@);
        }
        if binds.len() == 0 {
            ctx.emit_error(Mistake::MissingTrigger, node.span);
        }
        proof {
            assert(ctx.errors@ =~= old(ctx).errors@ + bind_run(*node).mistakes);
        }
        Ok(binds)
    }
}

/// The binds that bind nodes stand for, as they are written, in their
/// order.
pub open spec fn written_of(nodes: Seq<Node>) -> Seq<BindModel>
    decreases nodes.len(),
{
    if nodes.len() == 0 {
        Seq::empty()
    } else {
        written_of(nodes.drop_last()) + binds_of_node(nodes.last())
    }
}

/// The run of bind nodes, one after the other.
pub open spec fn binds_run(nodes: Seq<Node>) -> Run
    decreases nodes.len(),
{
    if nodes.len() == 0 {
        noted(Seq::empty())
    } else {
        then(binds_run(nodes.drop_last()), bind_run(nodes.last()))
    }
}

/// A run that has ended stays what it is when more binds follow.
pub proof fn lemma_binds_run_ended(nodes: Seq<Node>, upto: int)
    requires
        0 <= upto <= nodes.len(),
        binds_run(nodes.take(upto)).failure is Some,
    ensures
        binds_run(nodes) == binds_run(nodes.take(upto)),
    decreases nodes.len() - upto,
{
    if upto < nodes.len() {
        assert(nodes.take(upto + 1).drop_last() =~= nodes.take(upto));
        lemma_binds_run_ended(nodes, upto + 1);
    } else {
        assert(nodes.take(upto) =~= nodes);
    }
}

/// A bind as it is stored: its sequence sorted by key code.
pub open spec fn stored(bind: BindModel) -> BindModel {
    BindModel {
        sequence: sort_by_code(bind.sequence),
        commands: bind.commands,
        swallow: bind.swallow,
        repeat: bind.repeat,
        exact: bind.exact,
    }
}

/// The binds as they are stored.
pub open spec fn stored_all(binds: Seq<BindModel>) -> Seq<BindModel> {
    binds.map_values(|b: BindModel| stored(b))
}

/// The keys with which the chords of the binds begin, as they are written.
pub open spec fn first_keys(binds: Seq<BindModel>) -> Set<KeyCode> {
    Set::new(
        |k: KeyCode|
            exists|i: int|
                0 <= i < binds.len() && (#[trigger] binds[i]).sequence.len() > 0
                    && binds[i].sequence[0].0 == k,
    )
}

/// A submap, with its binds by what they are and its modifiers as a set;
/// the list of the modifiers is the set in ascending order.
pub struct SubmapModel {
    pub name: Seq<char>,
    pub mods: Set<KeyCode>,
    pub binds: Seq<BindModel>,
}

/// What a submap is.
pub open spec fn submap_model(submap: Submap) -> SubmapModel {
    SubmapModel {
        name: submap.name@,
        mods: submap.mods@.to_set(),
        binds: binds_model(submap.binds@),
    }
}

/// What a configuration is.
pub open spec fn config_model(config: Config) -> Seq<SubmapModel> {
    config.submaps@.map_values(|s: Submap| submap_model(s))
}

/// The submap of a name and of binds as they are written: its modifiers
/// are the first keys of the chords as written, its binds are stored
/// sorted.
pub open spec fn submap_of(name: Seq<char>, written: Seq<BindModel>) -> SubmapModel {
    SubmapModel { name, mods: first_keys(written), binds: stored_all(written) }
}

/// Makes a submap of its name and of its binds as they are written.
pub fn assemble(name: String, written: &Vec<Bind>) -> (r: Submap)
    ensures
        submap_model(r) == submap_of(name@, binds_model(written@)),
        codes_ascending(r.mods@),
        sequences_sorted(r.binds@),
{
    let mods = match get_modifiers(written) {
        Ok(mods) => mods,
        Err(_) => Vec::new(),
    };
    assert(forall|k: KeyCode| mods@.contains(k) <==> is_first_key(written@, k));
    let mut binds: Vec<Bind> = Vec::new();
    let mut i: usize = 0;
    while i < written.len()
        invariant
            i <= written@.len(),
            binds@.len() == i,
            forall|j: int| 0 <= j < i ==> bind_model(#[trigger] binds@[j]) == stored(
                bind_model(written@[j]),
            ),
            sequences_sorted(binds@),
        decreases written@.len() - i,
    {
        let ghost before = binds@;
        let bind = Bind {
            sequence: sort_sequence(&written[i].sequence),
            args: BindArgs {
                commands: copy_commands(&written[i].args.commands),
                swallow: written[i].args.swallow,
                repeat: written[i].args.repeat,
                exact: written[i].args.exact,
            },
        };
        binds.push(bind);
        proof {
            assert forall|j: int| 0 <= j < binds@.len() implies sorted_by_code(
                (#[trigger] binds@[j]).sequence@,
            ) by {
                if j < before.len() {
                    assert(binds@[j] == before[j]);
                }
            }
            assert forall|j: int| 0 <= j < i + 1 implies bind_model(#[trigger] binds@[j])
                == stored(bind_model(written@[j])) by {
                if j < i {
                    assert(binds@[j] == before[j]);
                }
            }
        }
        i += 1;
    }
    let r = Submap { name, mods, binds };
    proof {
        let models = binds_model(written@);
        assert(binds_model(r.binds@) =~= stored_all(models));
        assert forall|k: KeyCode| r.mods@.to_set().contains(k) == first_keys(models).contains(
            k,
        ) by {
            if r.mods@.contains(k) {
                assert(is_first_key(written@, k));
                let j = choose|j: int|
                    0 <= j < written@.len() && (#[trigger] written@[j]).sequence@.len() > 0
                        && written@[j].sequence@[0].0 == k;
                assert(models[j].sequence == written@[j].sequence@);
            }
            if first_keys(models).contains(k) {
                let j = choose|j: int|
                    0 <= j < models.len() && (#[trigger] models[j]).sequence.len() > 0
                        && models[j].sequence[0].0 == k;
                assert(written@[j].sequence@ == models[j].sequence);
                assert(is_first_key(written@, k));
                assert(r.mods@.contains(k));
            }
        }
        assert(r.mods@.to_set() =~= first_keys(models));
    }
    r
}

/// The submap that a `@submap` node stands for: its `name` property names
/// it, its children are its binds.
pub open spec fn submap_of_node(node: Node) -> SubmapModel {
    submap_of(string_property(node.properties@, "name"@), written_of(node.children@))
}

/// The run of a `@submap` node: its `name` property, then its binds.
pub open spec fn submap_run(node: Node) -> Run {
    then(
        noted(string_property_mistakes(node.properties@, "name"@)),
        binds_run(node.children@),
    )
}

/// Reads bind nodes one after the other: the binds as they are written.
pub fn decode_binds(nodes: &Vec<Node>, ctx: &mut Context) -> (r: Result<Vec<Bind>, DecodeError>)
    ensures
        final(ctx).errors@ == old(ctx).errors@ + binds_run(nodes@).mistakes,
        r is Err <==> binds_run(nodes@).failure is Some,
        r is Err ==> r->Err_0 == binds_run(nodes@).failure->0,
        r is Ok ==> binds_model(r->Ok_0@) == written_of(nodes@),
{
    let mut written: Vec<Bind> = Vec::new();
    let mut i: usize = 0;
    proof {
        assert(binds_model(written@) =~= written_of(nodes@.take(0)));
        assert(ctx.errors@ =~= old(ctx).errors@ + binds_run(nodes@.take(0)).mistakes);
    }
    while i < nodes.len()
        invariant
            i <= nodes@.len(),
            ctx.errors@ == old(ctx).errors@ + binds_run(nodes@.take(i as int)).mistakes,
            binds_run(nodes@.take(i as int)).failure is None,
            binds_model(written@) == written_of(nodes@.take(i as int)),
        decreases nodes@.len() - i,
    {
        let ghost so_far = written@;
        let ghost seen = nodes@.take(i as int);
        let ghost next = nodes@.take(i + 1);
        proof {
            assert(next.drop_last() =~= seen);
            assert(next.last() == nodes@[i as int]);
            assert(binds_run(next) == then(binds_run(seen), bind_run(nodes@[i as int])));
        }
        match Bind::decode_node(&nodes[i], ctx) {
            Ok(mut binds) => {
                let ghost more = binds@;
                written.append(&mut binds);
                proof {
                    assert(binds_model(written@) =~= binds_model(so_far) + binds_model(more));
                    assert(ctx.errors@ =~= old(ctx).errors@ + binds_run(next).mistakes);
                }
            },
            Err(e) => {
                proof {
                    assert(ctx.errors@ =~= old(ctx).errors@ + binds_run(next).mistakes);
                    lemma_binds_run_ended(nodes@, i + 1);
                }
                return Err(e);
            },
        }
        i += 1;
    }
    proof {
        assert(nodes@.take(i as int) =~= nodes@);
    }
    Ok(written)
}

impl Submap {
    /// Reads a `@submap` node. The submap comes with its binds stored
    /// sorted and with its modifiers, the first keys of the chords as they
    /// are written.
    pub fn decode_node(node: &Node, ctx: &mut Context) -> (r: Result<Submap, DecodeError>)
        ensures
            final(ctx).errors@ == old(ctx).errors@ + submap_run(*node).mistakes,
            r is Err <==> submap_run(*node).failure is Some,
            r is Err ==> r->Err_0 == submap_run(*node).failure->0,
            r is Ok ==> submap_model(r->Ok_0) == submap_of_node(*node),
            r is Ok ==> codes_ascending(r->Ok_0.mods@) && sequences_sorted(r->Ok_0.binds@),
    {
        let name = read_string_property(&node.properties, "name", ctx);
        let ghost first = ctx.errors@;
        match decode_binds(&node.children, ctx) {
            Ok(written) => {
                proof {
                    assert(ctx.errors@ =~= old(ctx).errors@ + submap_run(*node).mistakes);
                }
                Ok(assemble(name, &written))
            },
            Err(e) => {
                proof {
                    assert(ctx.errors@ =~= old(ctx).errors@ + submap_run(*node).mistakes);
                }
                Err(e)
            },
        }
    }
}

/// The node opens a submap.
pub open spec fn is_submap_node(node: Node) -> bool {
    node.node_name@ == "@submap"@
}

/// The binds of `main` as they are written: what the top-level nodes that
/// are no `@submap` stand for, in their order.
pub open spec fn main_written_of(nodes: Seq<Node>) -> Seq<BindModel>
    decreases nodes.len(),
{
    if nodes.len() == 0 {
        Seq::empty()
    } else if is_submap_node(nodes.last()) {
        main_written_of(nodes.drop_last())
    } else {
        main_written_of(nodes.drop_last()) + binds_of_node(nodes.last())
    }
}

/// The submaps that the `@submap` nodes stand for, in their order.
pub open spec fn submaps_of(nodes: Seq<Node>) -> Seq<SubmapModel>
    decreases nodes.len(),
{
    if nodes.len() == 0 {
        Seq::empty()
    } else if is_submap_node(nodes.last()) {
        submaps_of(nodes.drop_last()).push(submap_of_node(nodes.last()))
    } else {
        submaps_of(nodes.drop_last())
    }
}

/// The configuration that a document stands for: the submaps it names,
/// then `main` with the binds of the top level.
pub open spec fn config_of(nodes: Seq<Node>) -> Seq<SubmapModel> {
    submaps_of(nodes).push(submap_of("main"@, main_written_of(nodes)))
}

/// The run of a top-level node: a submap or a bind.
pub open spec fn node_run(node: Node) -> Run {
    if is_submap_node(node) {
        submap_run(node)
    } else {
        bind_run(node)
    }
}

/// The run of a document: its top-level nodes, one after the other.
pub open spec fn document_run(nodes: Seq<Node>) -> Run
    decreases nodes.len(),
{
    if nodes.len() == 0 {
        noted(Seq::empty())
    } else {
        then(document_run(nodes.drop_last()), node_run(nodes.last()))
    }
}

/// A run that has ended stays what it is when more nodes follow.
pub proof fn lemma_document_run_ended(nodes: Seq<Node>, upto: int)
    requires
        0 <= upto <= nodes.len(),
        document_run(nodes.take(upto)).failure is Some,
    ensures
        document_run(nodes) == document_run(nodes.take(upto)),
    decreases nodes.len() - upto,
{
    if upto < nodes.len() {
        assert(nodes.take(upto + 1).drop_last() =~= nodes.take(upto));
        lemma_document_run_ended(nodes, upto + 1);
    } else {
        assert(nodes.take(upto) =~= nodes);
    }
}

/// Every mistake of a document: those put down, then the one on which the
/// decoding ended, if it did.
pub open spec fn document_mistakes(nodes: Seq<Node>) -> Seq<DecodeError> {
    let run = document_run(nodes);
    match run.failure {
        Some(e) => run.mistakes.push(e),
        None => run.mistakes,
    }
}

/// Every submap has its modifiers ascending and the sequences of its binds
/// sorted.
pub open spec fn submaps_prepared(submaps: Seq<Submap>) -> bool {
    forall|i: int|
        0 <= i < submaps.len() ==> codes_ascending((#[trigger] submaps[i]).mods@)
            && sequences_sorted(submaps[i].binds@)
}

/// The configuration is the one that the document stands for: its submaps
/// with their names, their binds and their modifiers.
pub open spec fn decoded(config: Config, nodes: Seq<Node>) -> bool {
    config_model(config) == config_of(nodes) && submaps_prepared(config.submaps@)
}

/// Two binds are alike: the same keys, flags and commands.
pub open spec fn alike_binds(p: Bind, q: Bind) -> bool {
    bind_model(p) == bind_model(q)
}

/// Two submaps are alike: the same name, the same modifiers and like binds.
pub open spec fn alike_submaps(x: Submap, y: Submap) -> bool {
    &&& x.name@ == y.name@
    &&& x.mods@ == y.mods@
    &&& x.binds@.len() == y.binds@.len()
    &&& forall|j: int| 0 <= j < x.binds@.len() ==> alike_binds(#[trigger] x.binds@[j], y.binds@[j])
}

/// Two lists of submaps are alike, submap by submap.
pub open spec fn alike(a: Seq<Submap>, b: Seq<Submap>) -> bool {
    &&& a.len() == b.len()
    &&& forall|i: int| 0 <= i < a.len() ==> alike_submaps(#[trigger] a[i], b[i])
}

/// Two configurations that a document stands for are alike.
pub proof fn lemma_decoded_alike(a: Config, b: Config, nodes: Seq<Node>)
    requires
        decoded(a, nodes),
        decoded(b, nodes),
    ensures
        alike(a.submaps@, b.submaps@),
        alike(b.submaps@, a.submaps@),
{
    let ma = config_model(a);
    let mb = config_model(b);
    assert(ma.len() == a.submaps@.len());
    assert(mb.len() == b.submaps@.len());
    assert forall|i: int| 0 <= i < a.submaps@.len() implies alike_submaps(
        #[trigger] a.submaps@[i],
        b.submaps@[i],
    ) && alike_submaps(b.submaps@[i], a.submaps@[i]) by {
        let x = a.submaps@[i];
        let y = b.submaps@[i];
        assert(ma[i] == submap_model(x));
        assert(mb[i] == submap_model(y));
        assert(submap_model(x) == submap_model(y));
        assert forall|k: KeyCode| x.mods@.contains(k) <==> y.mods@.contains(k) by {
            assert(x.mods@.to_set().contains(k) == x.mods@.contains(k));
            assert(y.mods@.to_set().contains(k) == y.mods@.contains(k));
        }
        lemma_codes_canonical(x.mods@, y.mods@);
        let bx = binds_model(x.binds@);
        let by = binds_model(y.binds@);
        assert(bx.len() == x.binds@.len());
        assert(by.len() == y.binds@.len());
        assert forall|j: int| 0 <= j < x.binds@.len() implies alike_binds(
            #[trigger] x.binds@[j],
            y.binds@[j],
        ) && alike_binds(y.binds@[j], x.binds@[j]) by {
            assert(bx[j] == bind_model(x.binds@[j]));
            assert(by[j] == bind_model(y.binds@[j]));
        }
    }
}

/// Like lists of submaps find the same submap under a name.
pub proof fn lemma_alike_find(a: Seq<Submap>, b: Seq<Submap>, name: Seq<char>, from: int)
    requires
        alike(a, b),
        0 <= from,
    ensures
        find_submap_from(a, name, from) == find_submap_from(b, name, from),
    decreases a.len() - from,
{
    if from < a.len() {
        assert(alike_submaps(a[from], b[from]));
        lemma_alike_find(a, b, name, from + 1);
    }
}

/// What holds of a submap holds of a like one.
pub proof fn lemma_alike_submap(x: Submap, y: Submap)
    requires
        alike_submaps(x, y),
    ensures
        binds_distinct(x.binds@) ==> binds_distinct(y.binds@),
        all_keyed(x.binds@) ==> all_keyed(y.binds@),
        sequences_sorted(x.binds@) ==> sequences_sorted(y.binds@),
        all_exact(x.binds@) ==> all_exact(y.binds@),
        mods_cover(x.mods@, x.binds@) ==> mods_cover(y.mods@, y.binds@),
{
    reveal(mods_cover);
    let p = x.binds@;
    let q = y.binds@;
    assert forall|j: int| 0 <= j < p.len() implies (#[trigger] q[j]).sequence@ == p[j].sequence@
        && q[j].args.exact == p[j].args.exact by {
        assert(alike_binds(p[j], q[j]));
    }
    if binds_distinct(p) {
        assert forall|i: int, j: int| 0 <= i < j < q.len() implies (#[trigger] q[i]).sequence@ != (
        #[trigger] q[j]).sequence@ by {
            assert(p[i].sequence@ != p[j].sequence@);
        }
    }
    if all_keyed(p) {
        assert forall|i: int| 0 <= i < q.len() implies (#[trigger] q[i]).sequence@.len() > 0 by {
            assert(p[i].sequence@.len() > 0);
        }
    }
    if sequences_sorted(p) {
        assert forall|i: int| 0 <= i < q.len() implies sorted_by_code(
            (#[trigger] q[i]).sequence@,
        ) by {
            assert(sorted_by_code(p[i].sequence@));
        }
    }
    if all_exact(p) {
        assert forall|i: int| 0 <= i < q.len() implies (#[trigger] q[i]).args.exact by {
            assert(p[i].args.exact);
        }
    }
    if mods_cover(x.mods@, p) {
        assert forall|m: int| 0 <= m < y.mods@.len() implies is_bound_key(
            q,
            #[trigger] y.mods@[m],
        ) by {
            assert(is_bound_key(p, x.mods@[m]));
            let i = choose|i: int|
                0 <= i < p.len() && has_key((#[trigger] p[i]).sequence@, x.mods@[m]);
            assert(has_key(q[i].sequence@, y.mods@[m]));
        }
        assert forall|i: int| 0 <= i < q.len() && (#[trigger] q[i]).sequence@.len() > 0 implies meets(
            q[i].sequence@,
            y.mods@,
        ) by {
            assert(meets(p[i].sequence@, x.mods@));
        }
    }
}

/// Like submaps have the same fault.
pub proof fn lemma_alike_submap_fault(x: Submap, y: Submap)
    requires
        alike_submaps(x, y),
        alike_submaps(y, x),
    ensures
        submap_fault(x) == submap_fault(y),
{
    lemma_alike_submap(x, y);
    lemma_alike_submap(y, x);
}

/// Like lists of submaps have the same first fault of a submap.
pub proof fn lemma_alike_first_fault(a: Seq<Submap>, b: Seq<Submap>, from: int)
    requires
        alike(a, b),
        alike(b, a),
        0 <= from,
    ensures
        first_submap_fault(a, from) == first_submap_fault(b, from),
    decreases a.len() - from,
{
    if from < a.len() {
        assert(alike_submaps(a[from], b[from]));
        assert(alike_submaps(b[from], a[from]));
        lemma_alike_submap_fault(a[from], b[from]);
        lemma_alike_first_fault(a, b, from + 1);
    }
}

/// What holds of a list of submaps as a whole holds of a like one.
pub proof fn lemma_alike_whole(a: Seq<Submap>, b: Seq<Submap>)
    requires
        alike(a, b),
    ensures
        names_distinct(a) ==> names_distinct(b),
        all_targets_exist(a) ==> all_targets_exist(b),
{
    if names_distinct(a) {
        assert forall|i: int, j: int| 0 <= i < j < b.len() implies (#[trigger] b[i]).name@ != (
        #[trigger] b[j]).name@ by {
            assert(alike_submaps(a[i], b[i]));
            assert(alike_submaps(a[j], b[j]));
            assert(a[i].name@ != a[j].name@);
        }
    }
    if all_targets_exist(a) {
        assert forall|i: int, k: int| 0 <= i < b.len() && 0 <= k < b[i].binds@.len() implies targets_exist(
            (#[trigger] b[i].binds@[k]).args.commands@,
            b,
        ) by {
            assert(alike_submaps(a[i], b[i]));
            assert(alike_binds(a[i].binds@[k], b[i].binds@[k]));
            let ca = a[i].binds@[k].args.commands@;
            let cb = b[i].binds@[k].args.commands@;
            assert(targets_exist(ca, a));
            assert(commands_model(ca).len() == ca.len());
            assert(commands_model(cb).len() == cb.len());
            assert forall|c: int| 0 <= c < cb.len() implies match #[trigger] cb[c] {
                Command::Internal(Keyword::Enter(name)) => find_submap(b, name@) is Some,
                _ => true,
            } by {
                assert(commands_model(ca)[c] == command_model(ca[c]));
                assert(commands_model(cb)[c] == command_model(cb[c]));
                match cb[c] {
                    Command::Internal(Keyword::Enter(name)) => {
                        match ca[c] {
                            Command::Internal(Keyword::Enter(other)) => {
                                assert(other@ == name@);
                                assert(find_submap(a, other@) is Some);
                                lemma_alike_find(a, b, name@, 0);
                            },
                            _ => {},
                        }
                    },
                    _ => {},
                }
            }
        }
    }
}

/// Like lists of submaps have the same fault.
pub proof fn lemma_alike_fault(a: Seq<Submap>, b: Seq<Submap>)
    requires
        alike(a, b),
        alike(b, a),
    ensures
        fault_of(a) == fault_of(b),
{
    lemma_alike_find(a, b, "main"@, 0);
    lemma_alike_whole(a, b);
    lemma_alike_whole(b, a);
    lemma_alike_first_fault(a, b, 0);
}

/// The document stands for a sound configuration: every configuration
/// that it stands for is well formed.
pub open spec fn sound(nodes: Seq<Node>) -> bool {
    forall|c: Config| #[trigger] decoded(c, nodes) ==> c.wf()
}

/// One configuration that a document stands for tells whether the document
/// is sound.
pub proof fn lemma_sound(config: Config, nodes: Seq<Node>)
    requires
        decoded(config, nodes),
    ensures
        sound(nodes) <==> config.wf(),
{
    crate::config::check::lemma_fault_of(config);
    if config.wf() {
        assert forall|c: Config| #[trigger] decoded(c, nodes) implies c.wf() by {
            lemma_decoded_alike(config, c, nodes);
            lemma_alike_fault(config.submaps@, c.submaps@);
            crate::config::check::lemma_fault_of(c);
        }
    }
}

/// Why a document gives no configuration.
#[derive(Debug)]
pub enum ConfigError {
    /// The document is not written as it should be: these are the mistakes.
    Decode(Vec<DecodeError>),
    /// The document reads as this configuration, which breaks an invariant.
    Invalid(Fault, Config),
}

impl Config {
    /// Reads the top level of a document: a `@submap` node is a submap,
    /// any other node holds binds of `main`, which comes last. What is read
    /// is held to the invariants of a configuration: a configuration with
    /// a fault is refused, with the fault.
    ///
    /// The mistakes after which the decoding goes on are put down in the
    /// context; it is for the caller to refuse what comes back where there
    /// are any.
    pub fn decode_children(nodes: &Vec<Node>, ctx: &mut Context) -> (r: Result<Config, ConfigError>)
        ensures
            final(ctx).errors@ == old(ctx).errors@ + document_run(nodes@).mistakes,
            r is Ok <==> document_run(nodes@).failure is None && sound(nodes@),
            match r {
                Ok(config) => {
                    &&& document_run(nodes@).failure is None
                    &&& decoded(config, nodes@)
                    &&& config.wf()
                },
                Err(ConfigError::Decode(errors)) => {
                    &&& document_run(nodes@).failure is Some
                    &&& errors@ == seq![document_run(nodes@).failure->0]
                },
                Err(ConfigError::Invalid(fault, config)) => {
                    &&& document_run(nodes@).failure is None
                    &&& decoded(config, nodes@)
                    &&& fault_of(config.submaps@) == Some(fault)
                },
            },
    {
        let mut submaps: Vec<Submap> = Vec::new();
        let mut written: Vec<Bind> = Vec::new();
        let mut i: usize = 0;
        proof {
            assert(binds_model(written@) =~= main_written_of(nodes@.take(0)));
            assert(submaps@.map_values(|s: Submap| submap_model(s)) =~= submaps_of(nodes@.take(0)));
            assert(ctx.errors@ =~= old(ctx).errors@ + document_run(nodes@.take(0)).mistakes);
        }
        while i < nodes.len()
            invariant
                i <= nodes@.len(),
                ctx.errors@ == old(ctx).errors@ + document_run(nodes@.take(i as int)).mistakes,
                document_run(nodes@.take(i as int)).failure is None,
                binds_model(written@) == main_written_of(nodes@.take(i as int)),
                submaps@.map_values(|s: Submap| submap_model(s)) == submaps_of(
                    nodes@.take(i as int),
                ),
                submaps_prepared(submaps@),
            decreases nodes@.len() - i,
        {
            let ghost written_before = written@;
            let ghost submaps_before = submaps@;
            let ghost seen = nodes@.take(i as int);
            let ghost next = nodes@.take(i + 1);
            proof {
                assert(next.drop_last() =~= seen);
                assert(next.last() == nodes@[i as int]);
                assert(document_run(next) == then(document_run(seen), node_run(nodes@[i as int])));
            }
            if is_text(&nodes[i].node_name, "@submap") {
                match Submap::decode_node(&nodes[i], ctx) {
                    Ok(submap) => {
                        submaps.push(submap);
                        proof {
                            assert(submaps@.map_values(|s: Submap| submap_model(s))
                                =~= submaps_before.map_values(|s: Submap| submap_model(s)).push(
                                submap_model(submap),
                            ));
                            assert forall|j: int| 0 <= j < submaps@.len() implies codes_ascending(
                                (#[trigger] submaps@[j]).mods@,
                            ) && sequences_sorted(submaps@[j].binds@) by {
                                if j < submaps_before.len() {
                                    assert(submaps@[j] == submaps_before[j]);
                                }
                            }
                            assert(ctx.errors@ =~= old(ctx).errors@ + document_run(next).mistakes);
                        }
                    },
                    Err(e) => {
                        proof {
                            assert(ctx.errors@ =~= old(ctx).errors@ + document_run(next).mistakes);
                            lemma_document_run_ended(nodes@, i + 1);
                        }
                        let mut errors: Vec<DecodeError> = Vec::new();
                        errors.push(e);
                        assert(errors@ =~= seq![e]);
                        return Err(ConfigError::Decode(errors));
                    },
                }
            } else {
                match Bind::decode_node(&nodes[i], ctx) {
                    Ok(mut binds) => {
                        let ghost more = binds@;
                        written.append(&mut binds);
                        proof {
                            assert(binds_model(written@) =~= binds_model(written_before)
                                + binds_model(more));
                            assert(ctx.errors@ =~= old(ctx).errors@ + document_run(next).mistakes);
                        }
                    },
                    Err(e) => {
                        proof {
                            assert(ctx.errors@ =~= old(ctx).errors@ + document_run(next).mistakes);
                            lemma_document_run_ended(nodes@, i + 1);
                        }
                        let mut errors: Vec<DecodeError> = Vec::new();
                        errors.push(e);
                        assert(errors@ =~= seq![e]);
                        return Err(ConfigError::Decode(errors));
                    },
                }
            }
            i += 1;
        }
        proof {
            assert(nodes@.take(i as int) =~= nodes@);
        }
        let main = assemble("main".to_owned(), &written);
        let ghost submaps_before = submaps@;
        submaps.push(main);
        let config = Config { submaps };
        proof {
            assert(config_model(config) =~= submaps_before.map_values(
                |s: Submap| submap_model(s),
            ).push(submap_model(main)));
            assert forall|j: int| 0 <= j < config.submaps@.len() implies codes_ascending(
                (#[trigger] config.submaps@[j]).mods@,
            ) && sequences_sorted(config.submaps@[j].binds@) by {
                if j < submaps_before.len() {
                    assert(config.submaps@[j] == submaps_before[j]);
                }
            }
        }
        proof {
            lemma_sound(config, nodes@);
        }
        match config.check() {
            Some(fault) => Err(ConfigError::Invalid(fault, config)),
            None => Ok(config),
        }
    }

    /// Reads a whole document. The configuration comes back only if the
    /// document has no mistake and the configuration no fault; else all
    /// the mistakes come back, or the fault with the configuration that
    /// has it.
    pub fn from_nodes(nodes: &Vec<Node>) -> (r: Result<Config, ConfigError>)
        ensures
            r is Ok <==> document_mistakes(nodes@).len() == 0 && sound(nodes@),
            match r {
                Ok(config) => {
                    &&& document_mistakes(nodes@).len() == 0
                    &&& decoded(config, nodes@)
                    &&& config.wf()
                },
                Err(ConfigError::Decode(errors)) => {
                    &&& errors@.len() > 0
                    &&& errors@ == document_mistakes(nodes@)
                },
                Err(ConfigError::Invalid(fault, config)) => {
                    &&& document_mistakes(nodes@).len() == 0
                    &&& decoded(config, nodes@)
                    &&& fault_of(config.submaps@) == Some(fault)
                },
            },
    {
        let mut ctx = Context::new();
        match Config::decode_children(nodes, &mut ctx) {
            Err(ConfigError::Decode(mut errors)) => {
                ctx.errors.append(&mut errors);
                proof {
                    assert(ctx.errors@ =~= document_mistakes(nodes@));
                }
                Err(ConfigError::Decode(ctx.errors))
            },
            Err(ConfigError::Invalid(fault, config)) => {
                proof {
                    assert(ctx.errors@ =~= document_mistakes(nodes@));
                    lemma_sound(config, nodes@);
                    crate::config::check::lemma_fault_of(config);
                }
                if ctx.has_errors() {
                    Err(ConfigError::Decode(ctx.errors))
                } else {
                    Err(ConfigError::Invalid(fault, config))
                }
            },
            Ok(config) => {
                proof {
                    assert(ctx.errors@ =~= document_mistakes(nodes@));
                    lemma_sound(config, nodes@);
                }
                if ctx.has_errors() {
                    Err(ConfigError::Decode(ctx.errors))
                } else {
                    Ok(config)
                }
            },
        }
    }
}

} // verus!

//! Planning a command registration from an annotated function signature.
//!
//! A signature is checked against the rules a command must follow, its wire
//! arguments (those not injected as resources) are collected, and its command
//! ID is derived from the name and the canonical texts of the argument tuple
//! and the return type. A registry of the IDs planned so far rejects a second
//! command that maps to an ID already taken.

use std::collections::HashMap;
use vstd::prelude::*;
use vstd::string::*;
use vstd::utf8::encode_utf8;
use crate::cmd_id::{derive_cmd_id, spec_derive_cmd_id};
use crate::text::{join_names, join_with, string_views};

verus! {

broadcast use vstd::std_specs::hash::group_hash_axioms;

/// A reference type `&T` or `&mut T`.
#[derive(Debug)]
pub struct RefType {
    /// Whether the reference is `&mut`.
    pub mutable: bool,
    /// The referenced type `T`, as text.
    pub elem: String,
}

/// A type as written in the signature.
#[derive(Debug)]
pub struct TypeText {
    /// The type, as text.
    pub text: String,
    /// Set when the type is a reference.
    pub reference: Option<RefType>,
}

/// A typed argument of the signature.
#[derive(Debug)]
pub struct TypedArg {
    /// The argument's name; `None` when it is a pattern.
    pub ident: Option<String>,
    /// Whether the argument is marked as an injected resource.
    pub is_resource: bool,
    /// The argument's type.
    pub ty: TypeText,
}

/// One input of the signature.
#[derive(Debug)]
pub enum FnInput {
    /// A `self` receiver.
    Receiver,
    /// A typed argument.
    Typed(TypedArg),
}

/// The parts of an annotated function's signature that planning reads.
#[derive(Debug)]
pub struct CommandSignature {
    /// Function name.
    pub name: String,
    /// Whether the function is `async`.
    pub is_async: bool,
    /// Whether the function is `unsafe`.
    pub is_unsafe: bool,
    /// Whether the function has generic parameters.
    pub has_generics: bool,
    /// Whether the function has a `where` clause.
    pub has_where_clause: bool,
    /// The inputs, in declaration order.
    pub inputs: Vec<FnInput>,
    /// The declared return type; `None` for the default `()`.
    pub output: Option<TypeText>,
}

/// Why a signature cannot be a command.
#[derive(Debug, Clone, Copy, PartialEq, Eq, Structural)]
pub enum CommandErrorKind {
    AsyncFn,
    UnsafeFn,
    Generic,
    WhereClause,
    Method,
    PatternArg,
    ResourceNotReference,
    DuplicateResource,
    ReferenceArg,
    ReferenceReturn,
    Collision,
}

/// A rejected signature: the reason, the offending input if an input is at
/// fault, and the message to report.
#[derive(Debug)]
pub struct CommandError {
    pub kind: CommandErrorKind,
    pub at_input: Option<usize>,
    pub message: String,
}

/// An argument injected from the resource registry.
#[derive(Debug)]
pub struct ResourceArg {
    /// The argument's name.
    pub ident: String,
    /// The referenced resource type, as text.
    pub inner_ty: String,
    /// Whether the resource is borrowed mutably.
    pub is_mut: bool,
}

/// Everything the registration of a command is generated from.
#[derive(Debug)]
pub struct CommandPlan {
    /// Function name.
    pub name: String,
    /// Derived command ID.
    pub cmd_id: u16,
    /// Canonical text of the wire-argument tuple: `()`, `(T,)`, `(T1, T2)`.
    pub args_type_str: String,
    /// Text of the return type; `()` by default.
    pub ret_type_str: String,
    /// Comma-joined wire argument names, e.g. `a,b`.
    pub arg_names: String,
    /// Names of the wire arguments, in order.
    pub wire_idents: Vec<String>,
    /// Types of the wire arguments, as text, in order.
    pub wire_types: Vec<String>,
    /// The injected resource arguments, in order.
    pub resource_args: Vec<ResourceArg>,
    /// Names of all arguments, in declaration order.
    pub call_idents: Vec<String>,
    /// Link-time symbol that makes two commands with one ID collide.
    pub collision_export: String,
}

// ---------------------------------------------------------------------------
// The rules, over the signature's inputs
// ---------------------------------------------------------------------------

/// Referenced types of the resource arguments among `inputs`, in order.
pub open spec fn resource_elems(inputs: Seq<FnInput>) -> Seq<Seq<char>>
    decreases inputs.len(),
{
    if inputs.len() == 0 {
        Seq::empty()
    } else {
        let rest = resource_elems(inputs.drop_last());
        match inputs.last() {
            FnInput::Typed(a) => if a.is_resource && a.ty.reference is Some {
                rest.push(a.ty.reference->0.elem@)
            } else {
                rest
            },
            FnInput::Receiver => rest,
        }
    }
}

/// The resource arguments among `inputs`: name, referenced type, mutability.
pub open spec fn resource_views(inputs: Seq<FnInput>) -> Seq<(Seq<char>, Seq<char>, bool)>
    decreases inputs.len(),
{
    if inputs.len() == 0 {
        Seq::empty()
    } else {
        let rest = resource_views(inputs.drop_last());
        match inputs.last() {
            FnInput::Typed(a) => if a.is_resource && a.ty.reference is Some && a.ident is Some {
                rest.push((a.ident->0@, a.ty.reference->0.elem@, a.ty.reference->0.mutable))
            } else {
                rest
            },
            FnInput::Receiver => rest,
        }
    }
}

/// Names of the wire (non-resource) arguments among `inputs`.
pub open spec fn wire_idents(inputs: Seq<FnInput>) -> Seq<Seq<char>>
    decreases inputs.len(),
{
    if inputs.len() == 0 {
        Seq::empty()
    } else {
        let rest = wire_idents(inputs.drop_last());
        match inputs.last() {
            FnInput::Typed(a) => if !a.is_resource && a.ident is Some {
                rest.push(a.ident->0@)
            } else {
                rest
            },
            FnInput::Receiver => rest,
        }
    }
}

/// Types, as text, of the wire arguments among `inputs`.
pub open spec fn wire_types(inputs: Seq<FnInput>) -> Seq<Seq<char>>
    decreases inputs.len(),
{
    if inputs.len() == 0 {
        Seq::empty()
    } else {
        let rest = wire_types(inputs.drop_last());
        match inputs.last() {
            FnInput::Typed(a) => if !a.is_resource && a.ident is Some {
                rest.push(a.ty.text@)
            } else {
                rest
            },
            FnInput::Receiver => rest,
        }
    }
}

/// Names of all named arguments among `inputs`.
pub open spec fn call_idents(inputs: Seq<FnInput>) -> Seq<Seq<char>>
    decreases inputs.len(),
{
    if inputs.len() == 0 {
        Seq::empty()
    } else {
        let rest = call_idents(inputs.drop_last());
        match inputs.last() {
            FnInput::Typed(a) => if a.ident is Some {
                rest.push(a.ident->0@)
            } else {
                rest
            },
            FnInput::Receiver => rest,
        }
    }
}

/// What is wrong with `input`, given the inputs before it.
pub open spec fn input_error(prefix: Seq<FnInput>, input: FnInput) -> Option<CommandErrorKind> {
    match input {
        FnInput::Receiver => Some(CommandErrorKind::Method),
        FnInput::Typed(a) => if a.ident is None {
            Some(CommandErrorKind::PatternArg)
        } else if a.is_resource {
            match a.ty.reference {
                None => Some(CommandErrorKind::ResourceNotReference),
                Some(r) => if resource_elems(prefix).contains(r.elem@) {
                    Some(CommandErrorKind::DuplicateResource)
                } else {
                    None
                },
            }
        } else if a.ty.reference is Some {
            Some(CommandErrorKind::ReferenceArg)
        } else {
            None
        },
    }
}

/// The first faulty input of `inputs`, with what is wrong with it.
pub open spec fn first_input_error(inputs: Seq<FnInput>) -> Option<(nat, CommandErrorKind)>
    decreases inputs.len(),
{
    if inputs.len() == 0 {
        None
    } else {
        match first_input_error(inputs.drop_last()) {
            Some(e) => Some(e),
            None => match input_error(inputs.drop_last(), inputs.last()) {
                Some(k) => Some(((inputs.len() - 1) as nat, k)),
                None => None,
            },
        }
    }
}

/// What is wrong with the signature, checked in order: the function's
/// qualifiers, its inputs, its return type. `None` when it can be a command.
pub open spec fn signature_error(sig: CommandSignature) -> Option<(Option<nat>, CommandErrorKind)> {
    if sig.is_async {
        Some((None, CommandErrorKind::AsyncFn))
    } else if sig.is_unsafe {
        Some((None, CommandErrorKind::UnsafeFn))
    } else if sig.has_generics {
        Some((None, CommandErrorKind::Generic))
    } else if sig.has_where_clause {
        Some((None, CommandErrorKind::WhereClause))
    } else if first_input_error(sig.inputs@) is Some {
        let (i, k) = first_input_error(sig.inputs@)->0;
        Some((Some(i), k))
    } else if sig.output is Some && sig.output->0.reference is Some {
        Some((None, CommandErrorKind::ReferenceReturn))
    } else {
        None
    }
}

/// An error in a prefix of the inputs is the first error of all of them.
proof fn lemma_first_error_extends(inputs: Seq<FnInput>, n: int)
    requires
        0 <= n <= inputs.len(),
        first_input_error(inputs.take(n)) is Some,
    ensures
        first_input_error(inputs) == first_input_error(inputs.take(n)),
    decreases inputs.len(),
{
    if n == inputs.len() {
        assert(inputs.take(n) =~= inputs);
    } else {
        let shorter = inputs.drop_last();
        assert(shorter.take(n) =~= inputs.take(n));
        lemma_first_error_extends(shorter, n);
    }
}

/// The first faulty input is one whose predecessors are all fine.
proof fn lemma_error_at(inputs: Seq<FnInput>, i: int, k: CommandErrorKind)
    requires
        0 <= i < inputs.len(),
        first_input_error(inputs.take(i)) is None,
        input_error(inputs.take(i), inputs[i]) == Some(k),
    ensures
        first_input_error(inputs) == Some((i as nat, k)),
{
    let next = inputs.take(i + 1);
    assert(next.drop_last() =~= inputs.take(i));
    assert(next.last() == inputs[i]);
    assert(first_input_error(next) == Some((i as nat, k)));
    lemma_first_error_extends(inputs, i + 1);
}

/// Whether an exec position and a spec position name the same input.
pub open spec fn same_position(a: Option<usize>, b: Option<nat>) -> bool {
    match (a, b) {
        (None, None) => true,
        (Some(i), Some(j)) => i == j,
        _ => false,
    }
}

/// `()`.
pub open spec fn unit_text() -> Seq<char> {
    seq!['(', ')']
}

/// Canonical text of a tuple of the given types: `()`, `(T,)`, `(T1, T2)`.
pub open spec fn tuple_text(types: Seq<Seq<char>>) -> Seq<char> {
    if types.len() == 0 {
        unit_text()
    } else if types.len() == 1 {
        seq!['('] + types[0] + seq![',', ')']
    } else {
        seq!['('] + join_with(types, seq![',', ' ']) + seq![')']
    }
}

/// Text of the return type; `()` when none is declared.
pub open spec fn ret_text(sig: CommandSignature) -> Seq<char> {
    match sig.output {
        None => unit_text(),
        Some(t) => t.text@,
    }
}

/// The command ID of a valid signature.
pub open spec fn signature_cmd_id(sig: CommandSignature) -> u16 {
    spec_derive_cmd_id(
        encode_utf8(sig.name@),
        encode_utf8(tuple_text(wire_types(sig.inputs@))),
        encode_utf8(ret_text(sig)),
    )
}

/// Upper-case hexadecimal digit of `d` (below 16).
pub open spec fn hex_digit(d: int) -> char {
    if d == 0 {
        '0'
    } else if d == 1 {
        '1'
    } else if d == 2 {
        '2'
    } else if d == 3 {
        '3'
    } else if d == 4 {
        '4'
    } else if d == 5 {
        '5'
    } else if d == 6 {
        '6'
    } else if d == 7 {
        '7'
    } else if d == 8 {
        '8'
    } else if d == 9 {
        '9'
    } else if d == 10 {
        'A'
    } else if d == 11 {
        'B'
    } else if d == 12 {
        'C'
    } else if d == 13 {
        'D'
    } else if d == 14 {
        'E'
    } else {
        'F'
    }
}

/// `id` as four upper-case hexadecimal digits.
pub open spec fn hex4(id: u16) -> Seq<char> {
    seq![
        hex_digit((id / 4096) as int),
        hex_digit(((id / 256) % 16) as int),
        hex_digit(((id / 16) % 16) as int),
        hex_digit((id % 16) as int),
    ]
}

/// The fixed message reported for a rejected signature.
pub open spec fn rule_message(k: CommandErrorKind) -> Seq<char> {
    match k {
        CommandErrorKind::AsyncFn => "#[command] does not support async fn"@,
        CommandErrorKind::UnsafeFn => "#[command] does not support unsafe fn"@,
        CommandErrorKind::Generic => "#[command] does not support generic functions"@,
        CommandErrorKind::WhereClause => "#[command] does not support where clauses"@,
        CommandErrorKind::Method => "#[command] cannot be applied to methods"@,
        CommandErrorKind::PatternArg =>
            "#[command] requires simple named arguments (patterns not supported)"@,
        CommandErrorKind::ResourceNotReference => "#[resource] arguments must be &T or &mut T"@,
        CommandErrorKind::DuplicateResource =>
            "duplicate #[resource] type; each resource type may appear at most once"@,
        CommandErrorKind::ReferenceArg =>
            "#[command] does not support reference arguments (use #[resource] for injected references)"@,
        CommandErrorKind::ReferenceReturn => "#[command] does not support reference return types"@,
        CommandErrorKind::Collision => "#[command] cmd_id collision"@,
    }
}

/// The message reported when `name` maps to the ID `id` already taken by
/// `existing`.
pub open spec fn collision_message(name: Seq<char>, existing: Seq<char>, id: u16) -> Seq<char> {
    "#[command] cmd_id collision: `"@ + name + "` and `"@ + existing + "` both map to 0x"@ + hex4(
        id,
    ) + ". Rename one of the commands to avoid the collision."@
}

/// Name of the link-time symbol guarding the ID `id`.
pub open spec fn collision_export(id: u16) -> Seq<char> {
    "__telepath_cmd_id_"@ + hex4(id)
}

// ---------------------------------------------------------------------------
// Registry of planned IDs
// ---------------------------------------------------------------------------

/// The command IDs planned so far, each with the name of its command.
#[derive(Debug)]
pub struct CmdIdRegistry {
    seen: HashMap<u16, String>,
}

impl View for CmdIdRegistry {
    type V = Map<u16, String>;

    closed spec fn view(&self) -> Map<u16, String> {
        self.seen@
    }
}

impl CmdIdRegistry {
    /// A registry with no ID taken.
    pub fn new() -> (r: Self)
        ensures
            r@ == Map::<u16, String>::empty(),
    {
        CmdIdRegistry { seen: HashMap::new() }
    }

    /// Forget every planned ID.
    pub fn clear(&mut self)
        ensures
            final(self)@ == Map::<u16, String>::empty(),
    {
        self.seen.clear();
    }
}

// ---------------------------------------------------------------------------
// Planning
// ---------------------------------------------------------------------------

/// The hexadecimal digit of `d` (below 16) as a string.
pub(crate) fn hex_digit_str(d: u16) -> (s: &'static str)
    requires
        d < 16,
    ensures
        s@ == seq![hex_digit(d as int)],
{
    proof {
        reveal_strlit("0");
        reveal_strlit("1");
        reveal_strlit("2");
        reveal_strlit("3");
        reveal_strlit("4");
        reveal_strlit("5");
        reveal_strlit("6");
        reveal_strlit("7");
        reveal_strlit("8");
        reveal_strlit("9");
        reveal_strlit("A");
        reveal_strlit("B");
        reveal_strlit("C");
        reveal_strlit("D");
        reveal_strlit("E");
        reveal_strlit("F");
    }
    if d == 0 {
        "0"
    } else if d == 1 {
        "1"
    } else if d == 2 {
        "2"
    } else if d == 3 {
        "3"
    } else if d == 4 {
        "4"
    } else if d == 5 {
        "5"
    } else if d == 6 {
        "6"
    } else if d == 7 {
        "7"
    } else if d == 8 {
        "8"
    } else if d == 9 {
        "9"
    } else if d == 10 {
        "A"
    } else if d == 11 {
        "B"
    } else if d == 12 {
        "C"
    } else if d == 13 {
        "D"
    } else if d == 14 {
        "E"
    } else {
        "F"
    }
}

/// Append `id` as four upper-case hexadecimal digits to `s`.
pub fn push_hex4(s: &mut String, id: u16)
    ensures
        final(s)@ == old(s)@ + hex4(id),
{
    s.append(hex_digit_str(id / 4096));
    s.append(hex_digit_str((id / 256) % 16));
    s.append(hex_digit_str((id / 16) % 16));
    s.append(hex_digit_str(id % 16));
    assert(final(s)@ =~= old(s)@ + hex4(id)) by {
        assert(s@ =~= old(s)@ + hex4(id));
    }
}

/// The fixed message of a rule violation.
fn rule_message_str(k: CommandErrorKind) -> (s: &'static str)
    ensures
        s@ == rule_message(k),
{
    match k {
        CommandErrorKind::AsyncFn => "#[command] does not support async fn",
        CommandErrorKind::UnsafeFn => "#[command] does not support unsafe fn",
        CommandErrorKind::Generic => "#[command] does not support generic functions",
        CommandErrorKind::WhereClause => "#[command] does not support where clauses",
        CommandErrorKind::Method => "#[command] cannot be applied to methods",
        CommandErrorKind::PatternArg =>
            "#[command] requires simple named arguments (patterns not supported)",
        CommandErrorKind::ResourceNotReference => "#[resource] arguments must be &T or &mut T",
        CommandErrorKind::DuplicateResource =>
            "duplicate #[resource] type; each resource type may appear at most once",
        CommandErrorKind::ReferenceArg =>
            "#[command] does not support reference arguments (use #[resource] for injected references)",
        CommandErrorKind::ReferenceReturn => "#[command] does not support reference return types",
        CommandErrorKind::Collision => "#[command] cmd_id collision",
    }
}

/// A rule violation of kind `k`, at input `at` if an input is at fault.
fn rule_error(k: CommandErrorKind, at: Option<usize>) -> (e: CommandError)
    ensures
        e.kind == k,
        e.at_input == at,
        e.message@ == rule_message(k),
{
    CommandError { kind: k, at_input: at, message: rule_message_str(k).to_owned() }
}

/// Whether some resource argument in `resources` refers to type `ty`.
fn has_resource_type(resources: &Vec<ResourceArg>, ty: &String) -> (b: bool)
    ensures
        b <==> exists|j: int| 0 <= j < resources@.len() && (#[trigger] resources@[j]).inner_ty@ == ty@,
{
    let mut j: usize = 0;
    while j < resources.len()
        invariant
            j <= resources@.len(),
            forall|m: int| 0 <= m < j ==> (#[trigger] resources@[m]).inner_ty@ != ty@,
        decreases resources@.len() - j,
    {
        if resources[j].inner_ty == *ty {
            return true;
        }
        j += 1;
    }
    false
}

/// Canonical tuple text of `types`.
pub fn tuple_type_text(types: &Vec<String>) -> (s: String)
    ensures
        s@ == tuple_text(string_views(types@)),
{
    proof {
        reveal_strlit("()");
        reveal_strlit("(");
        reveal_strlit(",)");
        reveal_strlit(")");
        reveal_strlit(", ");
    }
    let ghost views = string_views(types@);
    if types.len() == 0 {
        let s = "()".to_owned();
        assert(s@ =~= tuple_text(views));
        s
    } else if types.len() == 1 {
        let mut s = "(".to_owned();
        s.append(types[0].as_str());
        s.append(",)");
        assert(views[0] == types@[0]@);
        assert(s@ =~= tuple_text(views));
        s
    } else {
        let mut s = "(".to_owned();
        let inner = join_names(types, ", ");
        assert(", "@ =~= seq![',', ' ']);
        assert(inner@ == join_with(views, seq![',', ' ']));
        s.append(inner.as_str());
        s.append(")");
        assert(s@ =~= tuple_text(views));
        s
    }
}

/// Plan the registration of the command with signature `sig`.
///
/// A signature that breaks a rule is rejected with that rule's message, the
/// first broken rule in the order of [`signature_error`]. A valid signature
/// whose ID `registry` already holds is rejected as a collision naming both
/// commands and the ID; otherwise its ID is recorded and the plan returned.
pub fn plan_command(sig: &CommandSignature, registry: &mut CmdIdRegistry) -> (r: Result<
    CommandPlan,
    CommandError,
>)
    ensures
        signature_error(*sig) matches Some((at, k)) ==> (r matches Err(e) && e.kind == k
            && e.message@ == rule_message(k) && same_position(e.at_input, at) && final(registry)@
            == old(registry)@),
        signature_error(*sig) is None && old(registry)@.contains_key(signature_cmd_id(*sig)) ==> (
        r matches Err(e) && e.kind == CommandErrorKind::Collision && e.at_input is None
            && e.message@ == collision_message(
            sig.name@,
            old(registry)@[signature_cmd_id(*sig)]@,
            signature_cmd_id(*sig),
        ) && final(registry)@ == old(registry)@),
        signature_error(*sig) is None && !old(registry)@.contains_key(signature_cmd_id(*sig)) ==> (
        r matches Ok(p) && final(registry)@ == old(registry)@.insert(
            signature_cmd_id(*sig),
            sig.name,
        ) && p.name@ == sig.name@ && p.cmd_id == signature_cmd_id(*sig) && p.args_type_str@
            == tuple_text(wire_types(sig.inputs@)) && p.ret_type_str@ == ret_text(*sig)
            && string_views(p.wire_idents@) == wire_idents(sig.inputs@) && string_views(
            p.wire_types@,
        ) == wire_types(sig.inputs@) && p.arg_names@ == join_with(
            wire_idents(sig.inputs@),
            seq![','],
        ) && string_views(p.call_idents@) == call_idents(sig.inputs@) && p.resource_args@.len()
            == resource_views(sig.inputs@).len() && (forall|j: int|
            0 <= j < p.resource_args@.len() ==> (#[trigger] p.resource_args@[j]).ident@
                == resource_views(sig.inputs@)[j].0 && p.resource_args@[j].inner_ty@
                == resource_views(sig.inputs@)[j].1 && p.resource_args@[j].is_mut
                == resource_views(sig.inputs@)[j].2) && p.collision_export@ == collision_export(
            p.cmd_id,
        )),
{
    if sig.is_async {
        return Err(rule_error(CommandErrorKind::AsyncFn, None));
    }
    if sig.is_unsafe {
        return Err(rule_error(CommandErrorKind::UnsafeFn, None));
    }
    if sig.has_generics {
        return Err(rule_error(CommandErrorKind::Generic, None));
    }
    if sig.has_where_clause {
        return Err(rule_error(CommandErrorKind::WhereClause, None));
    }
    let ghost inputs = sig.inputs@;
    let mut wire_ids: Vec<String> = Vec::new();
    let mut wire_tys: Vec<String> = Vec::new();
    let mut resources: Vec<ResourceArg> = Vec::new();
    let mut calls: Vec<String> = Vec::new();
    let mut i: usize = 0;
    while i < sig.inputs.len()
        invariant
            inputs == sig.inputs@,
            !sig.is_async,
            !sig.is_unsafe,
            !sig.has_generics,
            !sig.has_where_clause,
            registry@ == old(registry)@,
            i <= inputs.len(),
            first_input_error(inputs.take(i as int)) is None,
            string_views(wire_ids@) == wire_idents(inputs.take(i as int)),
            string_views(wire_tys@) == wire_types(inputs.take(i as int)),
            string_views(calls@) == call_idents(inputs.take(i as int)),
            resources@.len() == resource_views(inputs.take(i as int)).len(),
            resources@.len() == resource_elems(inputs.take(i as int)).len(),
            forall|j: int|
                0 <= j < resources@.len() ==> (#[trigger] resources@[j]).ident@ == resource_views(
                    inputs.take(i as int),
                )[j].0 && resources@[j].inner_ty@ == resource_views(inputs.take(i as int))[j].1
                    && resources@[j].is_mut == resource_views(inputs.take(i as int))[j].2
                    && resources@[j].inner_ty@ == resource_elems(inputs.take(i as int))[j],
        decreases inputs.len() - i,
    {
        let ghost prefix = inputs.take(i as int);
        let ghost next = inputs.take(i + 1);
        proof {
            assert(next.drop_last() =~= prefix);
            assert(next.last() == inputs[i as int]);
        }
        match &sig.inputs[i] {
            FnInput::Receiver => {
                proof {
                    lemma_error_at(inputs, i as int, CommandErrorKind::Method);
                }
                return Err(rule_error(CommandErrorKind::Method, Some(i)));
            },
            FnInput::Typed(a) => {
                match &a.ident {
                    None => {
                        proof {
                            lemma_error_at(inputs, i as int, CommandErrorKind::PatternArg);
                        }
                        return Err(rule_error(CommandErrorKind::PatternArg, Some(i)));
                    },
                    Some(id) => {
                        if a.is_resource {
                            match &a.ty.reference {
                                None => {
                                    proof {
                                        lemma_error_at(
                                            inputs,
                                            i as int,
                                            CommandErrorKind::ResourceNotReference,
                                        );
                                    }
                                    return Err(
                                        rule_error(CommandErrorKind::ResourceNotReference, Some(i)),
                                    );
                                },
                                Some(rt) => {
                                    if has_resource_type(&resources, &rt.elem) {
                                        proof {
                                            assert(resource_elems(prefix).contains(rt.elem@));
                                            lemma_error_at(
                                                inputs,
                                                i as int,
                                                CommandErrorKind::DuplicateResource,
                                            );
                                        }
                                        return Err(
                                            rule_error(CommandErrorKind::DuplicateResource, Some(i)),
                                        );
                                    }
                                    resources.push(
                                        ResourceArg {
                                            ident: id.clone(),
                                            inner_ty: rt.elem.clone(),
                                            is_mut: rt.mutable,
                                        },
                                    );
                                    calls.push(id.clone());
                                    proof {
                                        assert forall|m: int|
                                            0 <= m < resource_elems(prefix).len() implies resource_elems(
                                            prefix,
                                        )[m] != rt.elem@ by {
                                            assert(resources@[m].inner_ty@ == resource_elems(
                                                prefix,
                                            )[m]);
                                        }
                                        assert(!resource_elems(prefix).contains(rt.elem@));
                                        assert(string_views(calls@) =~= call_idents(next));
                                        assert(string_views(wire_ids@) =~= wire_idents(next));
                                        assert(string_views(wire_tys@) =~= wire_types(next));
                                    }
                                },
                            }
                        } else {
                            if a.ty.reference.is_some() {
                                proof {
                                    lemma_error_at(inputs, i as int, CommandErrorKind::ReferenceArg);
                                }
                                return Err(rule_error(CommandErrorKind::ReferenceArg, Some(i)));
                            }
                            wire_tys.push(a.ty.text.clone());
                            wire_ids.push(id.clone());
                            calls.push(id.clone());
                            proof {
                                assert(string_views(calls@) =~= call_idents(next));
                                assert(string_views(wire_ids@) =~= wire_idents(next));
                                assert(string_views(wire_tys@) =~= wire_types(next));
                            }
                        }
                    },
                }
            },
        }
        i += 1;
    }
    proof {
        assert(inputs.take(inputs.len() as int) =~= inputs);
    }
    let ret_type_str = match &sig.output {
        None => {
            proof {
                reveal_strlit("()");
            }
            "()".to_owned()
        },
        Some(t) => {
            if t.reference.is_some() {
                return Err(rule_error(CommandErrorKind::ReferenceReturn, None));
            }
            t.text.clone()
        },
    };
    let args_type_str = tuple_type_text(&wire_tys);
    let arg_names = join_names(&wire_ids, ",");
    proof {
        reveal_strlit(",");
        assert(","@ =~= seq![',']);
    }
    let cmd_id = derive_cmd_id(sig.name.as_str(), args_type_str.as_str(), ret_type_str.as_str());
    assert(first_input_error(inputs) is None);
    assert(signature_error(*sig) is None);
    assert(ret_type_str@ == ret_text(*sig));
    assert(args_type_str@ == tuple_text(wire_types(inputs)));
    assert(cmd_id == signature_cmd_id(*sig));
    match registry.seen.get(&cmd_id) {
        Some(existing) => {
            let mut message = "#[command] cmd_id collision: `".to_owned();
            message.append(sig.name.as_str());
            message.append("` and `");
            message.append(existing.as_str());
            message.append("` both map to 0x");
            push_hex4(&mut message, cmd_id);
            message.append(". Rename one of the commands to avoid the collision.");
            return Err(
                CommandError { kind: CommandErrorKind::Collision, at_input: None, message },
            );
        },
        None => {},
    }
    registry.seen.insert(cmd_id, sig.name.clone());
    let mut export = "__telepath_cmd_id_".to_owned();
    push_hex4(&mut export, cmd_id);
    assert(export@ == collision_export(cmd_id));
    assert(registry@ == old(registry)@.insert(cmd_id, sig.name));
    assert(arg_names@ == join_with(wire_idents(inputs), seq![',']));
    assert(string_views(calls@) == call_idents(inputs));
    assert(resources@.len() == resource_views(inputs).len());
    Ok(
        CommandPlan {
            name: sig.name.clone(),
            cmd_id,
            args_type_str,
            ret_type_str,
            arg_names,
            wire_idents: wire_ids,
            wire_types: wire_tys,
            resource_args: resources,
            call_idents: calls,
            collision_export: export,
        },
    )
}

} // verus!

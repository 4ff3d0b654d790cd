//! Help text of the interactive shell: each command's argument list, type
//! labels and example values, laid out as the shell prints them.

use vstd::prelude::*;
use vstd::string::*;
use vstd::utf8::encode_utf8;
use crate::cli::{elem_label, elem_name};
use crate::cli::same_text;
use crate::command::{hex_digit, hex_digit_str};
use crate::data_model::{json_view, DataModel, JsonOut, JsonValue, JsonView, NamedType};
use crate::text::{join_names, join_with, string_views};

verus! {

/// Short label of a type.
pub open spec fn type_label_text(ty: DataModel) -> Seq<char> {
    match ty {
        DataModel::Bool => "bool"@,
        DataModel::I8 => "i8"@,
        DataModel::U8 => "u8"@,
        DataModel::I16 => "i16"@,
        DataModel::U16 => "u16"@,
        DataModel::I32 => "i32"@,
        DataModel::U32 => "u32"@,
        DataModel::I64 => "i64"@,
        DataModel::U64 => "u64"@,
        DataModel::F32 => "f32"@,
        DataModel::F64 => "f64"@,
        DataModel::Char => "char"@,
        DataModel::String => "str"@,
        DataModel::ByteArray => "bytes"@,
        DataModel::Option(_) => "option"@,
        DataModel::Unit => "()"@,
        DataModel::UnitStruct => "()"@,
        DataModel::SeqOf(_) => "array"@,
        _ => "?"@,
    }
}

/// Short label of a type.
pub fn type_label(ty: &DataModel) -> (s: &'static str)
    ensures
        s@ == type_label_text(*ty),
{
    match ty {
        DataModel::Bool => "bool",
        DataModel::I8 => "i8",
        DataModel::U8 => "u8",
        DataModel::I16 => "i16",
        DataModel::U16 => "u16",
        DataModel::I32 => "i32",
        DataModel::U32 => "u32",
        DataModel::I64 => "i64",
        DataModel::U64 => "u64",
        DataModel::F32 => "f32",
        DataModel::F64 => "f64",
        DataModel::Char => "char",
        DataModel::String => "str",
        DataModel::ByteArray => "bytes",
        DataModel::Option(_) => "option",
        DataModel::Unit => "()",
        DataModel::UnitStruct => "()",
        DataModel::SeqOf(_) => "array",
        _ => "?",
    }
}

/// An example value of a type, as JSON.
pub open spec fn scalar_example_text(ty: DataModel) -> Seq<char> {
    match ty {
        DataModel::Bool => "false"@,
        DataModel::F32 => "0.0"@,
        DataModel::F64 => "0.0"@,
        DataModel::Char => "\"a\""@,
        DataModel::String => "\"hello\""@,
        DataModel::Option(_) => "null"@,
        DataModel::SeqOf(_) => "[]"@,
        DataModel::ByteArray => "[]"@,
        _ => "0"@,
    }
}

/// An example value of a type, as JSON.
pub fn scalar_example(ty: &DataModel) -> (s: &'static str)
    ensures
        s@ == scalar_example_text(*ty),
{
    match ty {
        DataModel::Bool => "false",
        DataModel::F32 => "0.0",
        DataModel::F64 => "0.0",
        DataModel::Char => "\"a\"",
        DataModel::String => "\"hello\"",
        DataModel::Option(_) => "null",
        DataModel::SeqOf(_) => "[]",
        DataModel::ByteArray => "[]",
        _ => "0",
    }
}

/// `<name: label>` for tuple element `i`.
pub open spec fn elem_entry(i: nat, e: NamedType) -> Seq<char> {
    "<"@ + elem_label(i, e.name@) + ": "@ + type_label_text(e.ty) + ">"@
}

/// The entries of the elements of a tuple.
pub open spec fn elem_entries(elems: Seq<NamedType>) -> Seq<Seq<char>> {
    Seq::new(elems.len(), |i: int| elem_entry(i as nat, elems[i]))
}

/// The argument list of a command whose arguments have type `schema`: empty
/// for no arguments, one entry per element of a tuple, else the type's name.
pub open spec fn args_display_text(schema: NamedType) -> Seq<char> {
    match schema.ty {
        DataModel::Unit => Seq::empty(),
        DataModel::UnitStruct => Seq::empty(),
        DataModel::Tuple(elems) => join_with(elem_entries(elems@), " "@),
        _ => "<"@ + schema.name@ + ">"@,
    }
}

/// The entry of tuple element `i`.
fn elem_entry_string(i: usize, e: &NamedType) -> (s: String)
    ensures
        s@ == elem_entry(i as nat, *e),
{
    let mut s = "<".to_owned();
    let name = elem_name(i, e.name.as_str());
    s.append(name.as_str());
    s.append(": ");
    s.append(type_label(&e.ty));
    s.append(">");
    s
}

/// The argument list of a command whose arguments have type `schema`.
pub fn args_display(schema: &NamedType) -> (s: String)
    ensures
        s@ == args_display_text(*schema),
{
    let elems = match &schema.ty {
        DataModel::Unit => {
            return String::new();
        },
        DataModel::UnitStruct => {
            return String::new();
        },
        DataModel::Tuple(elems) => elems,
        _ => {
            let mut s = "<".to_owned();
            s.append(schema.name.as_str());
            s.append(">");
            return s;
        },
    };
    let mut entries: Vec<String> = Vec::new();
    let mut i: usize = 0;
    while i < elems.len()
        invariant
            i <= elems@.len(),
            string_views(entries@) == elem_entries(elems@).take(i as int),
        decreases elems@.len() - i,
    {
        let entry = elem_entry_string(i, &elems[i]);
        let ghost before = string_views(entries@);
        let ghost v = entry@;
        entries.push(entry);
        assert(string_views(entries@) =~= before.push(v));
        assert(elem_entries(elems@).take(i + 1) =~= elem_entries(elems@).take(i as int).push(v));
        i += 1;
    }
    assert(elem_entries(elems@).take(i as int) =~= elem_entries(elems@));
    join_names(&entries, " ")
}

/// `s` padded with spaces on the right to `w` characters.
pub open spec fn pad_to(s: Seq<char>, w: nat) -> Seq<char> {
    if s.len() >= w {
        s
    } else {
        s + Seq::new((w - s.len()) as nat, |i: int| ' ')
    }
}

/// The length of `s` in UTF-8 bytes.
pub open spec fn byte_len(s: Seq<char>) -> nat {
    encode_utf8(s).len()
}

/// The widest element name of a tuple, in bytes.
pub open spec fn name_width(elems: Seq<NamedType>) -> nat
    decreases elems.len(),
{
    if elems.len() == 0 {
        0
    } else {
        let w = name_width(elems.drop_last());
        let last = byte_len(elem_label((elems.len() - 1) as nat, elems.last().name@));
        if last > w {
            last
        } else {
            w
        }
    }
}

/// The line of the arguments table for tuple element `i`.
pub open spec fn arg_line(i: nat, e: NamedType, width: nat) -> Seq<char> {
    "    <"@ + pad_to(elem_label(i, e.name@), width) + ">  "@ + pad_to(type_label_text(e.ty), 6)
        + "  Example: "@ + scalar_example_text(e.ty)
}

/// The example values of the elements of a tuple.
pub open spec fn examples(elems: Seq<NamedType>) -> Seq<Seq<char>> {
    Seq::new(elems.len(), |i: int| scalar_example_text(elems[i].ty))
}

/// The first line of a command's help: its usage and result label.
pub open spec fn help_header(cmd: Seq<char>, args: NamedType, ret: NamedType) -> Seq<char> {
    let disp = args_display_text(args);
    if disp.len() == 0 {
        cmd + " -> "@ + type_label_text(ret.ty)
    } else {
        cmd + " "@ + disp + " -> "@ + type_label_text(ret.ty)
    }
}

/// The lines of the help for command `cmd` whose arguments have type `args`
/// and whose result has type `ret`: the usage line, then, for a tuple of
/// arguments, a table of the arguments with an example of each and a usage
/// example, and the result's label.
pub open spec fn command_help_text(cmd: Seq<char>, args: NamedType, ret: NamedType) -> Seq<
    Seq<char>,
> {
    let head = seq![help_header(cmd, args, ret), Seq::empty()];
    let result_line = "  Returns: "@ + type_label_text(ret.ty);
    match args.ty {
        DataModel::Tuple(elems) => if elems@.len() > 0 {
            let w = name_width(elems@);
            head + seq!["  Arguments:"@] + Seq::new(
                elems@.len(),
                |i: int| arg_line(i as nat, elems@[i], w),
            ) + seq![
                Seq::empty(),
                result_line,
                "  Usage:   "@ + cmd + " ["@ + join_with(examples(elems@), ", "@) + "]"@,
            ]
        } else {
            head + seq![result_line]
        },
        _ => head + seq![result_line],
    }
}

/// Append spaces to `s` until it is `w` characters long.
fn pad_string(s: &mut String, w: usize)
    ensures
        final(s)@ == pad_to(old(s)@, w as nat),
{
    let n = s.unicode_len();
    if n >= w {
        return;
    }
    let ghost start = s@;
    let mut k: usize = n;
    while k < w
        invariant
            n <= k <= w,
            n == start.len(),
            s@ == start + Seq::new((k - n) as nat, |i: int| ' '),
        decreases w - k,
    {
        s.append(" ");
        proof {
            reveal_strlit(" ");
        }
        assert(s@ =~= start + Seq::new((k + 1 - n) as nat, |i: int| ' '));
        k += 1;
    }
}

/// The help lines for command `cmd` whose arguments have type `args` and
/// whose result has type `ret`.
pub fn command_help(cmd: &str, args: &NamedType, ret: &NamedType) -> (lines: Vec<String>)
    ensures
        string_views(lines@) == command_help_text(cmd@, *args, *ret),
{
    let disp = args_display(args);
    let ret_lbl = type_label(&ret.ty);
    let mut header = cmd.to_owned();
    if disp.unicode_len() > 0 {
        header.append(" ");
        header.append(disp.as_str());
    }
    header.append(" -> ");
    header.append(ret_lbl);
    let mut lines: Vec<String> = Vec::new();
    lines.push(header);
    lines.push(String::new());
    let mut result_line = "  Returns: ".to_owned();
    result_line.append(ret_lbl);
    if let DataModel::Tuple(elems) = &args.ty {
        if elems.len() > 0 {
            lines.push("  Arguments:".to_owned());
            let mut names: Vec<String> = Vec::new();
            let mut width: usize = 0;
            let mut i: usize = 0;
            while i < elems.len()
                invariant
                    i <= elems@.len(),
                    names@.len() == i,
                    forall|j: int| 0 <= j < i ==> #[trigger] names@[j]@ == elem_label(
                        j as nat,
                        elems@[j].name@,
                    ),
                    width == name_width(elems@.take(i as int)),
                decreases elems@.len() - i,
            {
                let name = elem_name(i, elems[i].name.as_str());
                let len = name.as_str().as_bytes().len();
                proof {
                    assert(elems@.take(i + 1).drop_last() =~= elems@.take(i as int));
                    assert(elems@.take(i + 1).last() == elems@[i as int]);
                }
                if len > width {
                    width = len;
                }
                names.push(name);
                i += 1;
            }
            assert(elems@.take(i as int) =~= elems@);
            let ghost start = lines@;
            assert(string_views(start) =~= seq![
                help_header(cmd@, *args, *ret),
                Seq::empty(),
                "  Arguments:"@,
            ]);
            let mut examples_list: Vec<String> = Vec::new();
            let mut j: usize = 0;
            while j < elems.len()
                invariant
                    j <= elems@.len(),
                    names@.len() == elems@.len(),
                    forall|k: int| 0 <= k < elems@.len() ==> #[trigger] names@[k]@ == elem_label(
                        k as nat,
                        elems@[k].name@,
                    ),
                    width == name_width(elems@),
                    start.len() == 3,
                    lines@.len() == start.len() + j,
                    forall|k: int| 0 <= k < 3 ==> #[trigger] lines@[k] == start[k],
                    forall|k: int|
                        3 <= k < lines@.len() ==> #[trigger] lines@[k]@ == arg_line(
                            (k - 3) as nat,
                            elems@[k - 3],
                            width as nat,
                        ),
                    string_views(examples_list@) == examples(elems@).take(j as int),
                decreases elems@.len() - j,
            {
                let e = &elems[j];
                let mut line = "    <".to_owned();
                let mut padded = names[j].clone();
                pad_string(&mut padded, width);
                line.append(padded.as_str());
                line.append(">  ");
                let mut label = type_label(&e.ty).to_owned();
                pad_string(&mut label, 6);
                line.append(label.as_str());
                line.append("  Example: ");
                line.append(scalar_example(&e.ty));
                assert(line@ =~= arg_line(j as nat, elems@[j as int], width as nat));
                lines.push(line);
                let ex = scalar_example(&e.ty).to_owned();
                let ghost before = string_views(examples_list@);
                let ghost v = ex@;
                examples_list.push(ex);
                assert(string_views(examples_list@) =~= before.push(v));
                assert(examples(elems@).take(j + 1) =~= examples(elems@).take(j as int).push(v));
                j += 1;
            }
            assert(examples(elems@).take(j as int) =~= examples(elems@));
            let ghost w = name_width(elems@);
            let ghost table = Seq::new(elems@.len(), |i: int| arg_line(i as nat, elems@[i], w));
            let ghost head = seq![help_header(cmd@, *args, *ret), Seq::empty(), "  Arguments:"@];
            assert forall|k: int| 0 <= k < lines@.len() implies string_views(lines@)[k] == (head
                + table)[k] by {
                if k < 3 {
                    assert(lines@[k] == start[k]);
                    assert(string_views(start)[k] == head[k]);
                } else {
                    assert(lines@[k]@ == arg_line((k - 3) as nat, elems@[k - 3], width as nat));
                }
            }
            assert(string_views(lines@) =~= head + table);
            lines.push(String::new());
            lines.push(result_line);
            let mut usage = "  Usage:   ".to_owned();
            usage.append(cmd);
            usage.append(" [");
            let joined = join_names(&examples_list, ", ");
            usage.append(joined.as_str());
            usage.append("]");
            lines.push(usage);
            assert(string_views(lines@) =~= command_help_text(cmd@, *args, *ret));
            return lines;
        }
    }
    lines.push(result_line);
    assert(string_views(lines@) =~= command_help_text(cmd@, *args, *ret));
    lines
}

// ---------------------------------------------------------------------------
// Completion
// ---------------------------------------------------------------------------

/// Whether `c` is white space in Unicode's sense (what `char::is_whitespace`
/// tests).
pub open spec fn is_white_space(c: char) -> bool {
    ('\u{9}' <= c <= '\u{d}') || c == ' ' || c == '\u{85}' || c == '\u{a0}' || c == '\u{1680}'
        || ('\u{2000}' <= c <= '\u{200a}') || c == '\u{2028}' || c == '\u{2029}' || c == '\u{202f}'
        || c == '\u{205f}' || c == '\u{3000}'
}

/// Whether `c` is white space in Unicode's sense.
fn white_space(c: char) -> (b: bool)
    ensures
        b == is_white_space(c),
{
    ('\u{9}' <= c && c <= '\u{d}') || c == ' ' || c == '\u{85}' || c == '\u{a0}' || c == '\u{1680}'
        || ('\u{2000}' <= c && c <= '\u{200a}') || c == '\u{2028}' || c == '\u{2029}' || c
        == '\u{202f}' || c == '\u{205f}' || c == '\u{3000}'
}

/// Whether `s` holds a white-space character.
pub open spec fn has_white_space(s: Seq<char>) -> bool {
    exists|i: int| 0 <= i < s.len() && is_white_space(#[trigger] s[i])
}

/// Whether `s` begins with `p`.
pub open spec fn starts_with(s: Seq<char>, p: Seq<char>) -> bool {
    p.len() <= s.len() && s.take(p.len() as int) == p
}

/// The commands that begin with `word`, in order.
pub open spec fn matching(commands: Seq<Seq<char>>, word: Seq<char>) -> Seq<Seq<char>>
    decreases commands.len(),
{
    if commands.len() == 0 {
        Seq::empty()
    } else if starts_with(commands.last(), word) {
        matching(commands.drop_last(), word).push(commands.last())
    } else {
        matching(commands.drop_last(), word)
    }
}

/// Whether `s` holds a white-space character.
fn contains_white_space(s: &str) -> (b: bool)
    ensures
        b == has_white_space(s@),
{
    let n = s.unicode_len();
    let mut i: usize = 0;
    while i < n
        invariant
            i <= n == s@.len(),
            forall|k: int| 0 <= k < i ==> !is_white_space(#[trigger] s@[k]),
        decreases n - i,
    {
        if white_space(s.get_char(i)) {
            return true;
        }
        i += 1;
    }
    false
}

/// Whether `s` begins with `p`.
fn begins_with(s: &str, p: &str) -> (b: bool)
    ensures
        b == starts_with(s@, p@),
{
    let n = p.unicode_len();
    if s.unicode_len() < n {
        return false;
    }
    let mut i: usize = 0;
    while i < n
        invariant
            i <= n == p@.len() <= s@.len(),
            forall|k: int| 0 <= k < i ==> s@[k] == p@[k],
        decreases n - i,
    {
        if s.get_char(i) != p.get_char(i) {
            assert(s@.take(n as int)[i as int] != p@[i as int]);
            return false;
        }
        i += 1;
    }
    assert(s@.take(n as int) =~= p@);
    true
}

/// Completion of the command word `typed`, ending at byte `pos` of the line:
/// no candidate once the line holds white space before `pos` (the word is
/// done), else the commands that begin with `typed`, replacing from the
/// start of the line.
pub fn complete_command(commands: &Vec<String>, typed: &str, pos: usize) -> (r: (usize, Vec<String>))
    ensures
        has_white_space(typed@) ==> r.0 == pos && r.1@.len() == 0,
        !has_white_space(typed@) ==> r.0 == 0 && string_views(r.1@) == matching(
            string_views(commands@),
            typed@,
        ),
{
    if contains_white_space(typed) {
        return (pos, Vec::new());
    }
    let mut out: Vec<String> = Vec::new();
    let mut i: usize = 0;
    assert(string_views(commands@).take(0) =~= Seq::<Seq<char>>::empty());
    while i < commands.len()
        invariant
            i <= commands@.len(),
            string_views(out@) == matching(string_views(commands@).take(i as int), typed@),
        decreases commands@.len() - i,
    {
        assert(string_views(commands@).take(i + 1).drop_last() =~= string_views(commands@).take(
            i as int,
        ));
        if begins_with(commands[i].as_str(), typed) {
            let ghost before = string_views(out@);
            out.push(commands[i].clone());
            assert(string_views(out@) =~= before.push(commands@[i as int]@));
        }
        i += 1;
    }
    assert(string_views(commands@).take(i as int) =~= string_views(commands@));
    (0, out)
}

// ---------------------------------------------------------------------------
// Call results
// ---------------------------------------------------------------------------

/// The hexadecimal digits of `n`, upper case, most significant first.
pub open spec fn hex_digits(n: nat) -> Seq<char>
    decreases n,
{
    if n < 16 {
        seq![hex_digit(n as int)]
    } else {
        hex_digits(n / 16).push(hex_digit((n % 16) as int))
    }
}

/// The hexadecimal digits of `n`, with zeros in front up to `w` digits.
pub open spec fn hex_width(n: nat, w: nat) -> Seq<char> {
    let d = hex_digits(n);
    if d.len() >= w {
        d
    } else {
        Seq::new((w - d.len()) as nat, |i: int| '0') + d
    }
}

/// A result value as an unsigned integer: its value where it is a
/// nonnegative integer, else 0.
pub open spec fn unsigned_or_zero(v: JsonView) -> u64 {
    match v {
        JsonView::Unsigned(n) => n,
        JsonView::Signed(n) => if n >= 0 {
            n as u64
        } else {
            0
        },
        _ => 0,
    }
}

/// How the shell prints the result `v` of command `name` whose result has
/// type `ty`: unsigned integers in hexadecimal, zero-padded to their width,
/// and `OK` for a unit result; none for other types, whose value is printed
/// as JSON.
pub open spec fn result_text(name: Seq<char>, ty: DataModel, v: JsonView) -> Option<Seq<char>> {
    let n = unsigned_or_zero(v) as nat;
    match ty {
        DataModel::U8 => Some(name + " -> 0x"@ + hex_width(n, 2)),
        DataModel::U16 => Some(name + " -> 0x"@ + hex_width(n, 4)),
        DataModel::U32 => Some(name + " -> 0x"@ + hex_width(n, 8)),
        DataModel::U64 => Some(name + " -> 0x"@ + hex_width(n, 16)),
        DataModel::Unit => Some(name + " OK"@),
        DataModel::UnitStruct => Some(name + " OK"@),
        _ => None,
    }
}

/// Append the hexadecimal digits of `n` to `s`.
fn push_hex(s: &mut String, n: u64)
    ensures
        final(s)@ == old(s)@ + hex_digits(n as nat),
    decreases n,
{
    if n >= 16 {
        push_hex(s, n / 16);
    }
    s.append(hex_digit_str((n % 16) as u16));
    proof {
        if n < 16 {
            assert(n % 16 == n);
        }
    }
}

/// Append `n` in hexadecimal, zero-padded to `w` digits, to `s`.
fn push_hex_width(s: &mut String, n: u64, w: usize)
    ensures
        final(s)@ == old(s)@ + hex_width(n as nat, w as nat),
{
    let mut d = String::new();
    push_hex(&mut d, n);
    let len = d.unicode_len();
    if len < w {
        let ghost start = s@;
        let mut k: usize = len;
        while k < w
            invariant
                len <= k <= w,
                len == hex_digits(n as nat).len(),
                s@ == start + Seq::new((k - len) as nat, |i: int| '0'),
            decreases w - k,
        {
            s.append("0");
            proof {
                reveal_strlit("0");
            }
            assert(s@ =~= start + Seq::new((k + 1 - len) as nat, |i: int| '0'));
            k += 1;
        }
    }
    s.append(d.as_str());
}

/// A result value as an unsigned integer: its value where it is a
/// nonnegative integer, else 0.
fn unsigned_value(v: &JsonOut) -> (n: u64)
    ensures
        n == unsigned_or_zero(json_view(*v)),
{
    match v {
        JsonOut::Unsigned(n) => *n,
        JsonOut::Signed(n) => if *n >= 0 {
            *n as u64
        } else {
            0
        },
        _ => 0,
    }
}

/// The line the shell prints for the result `v` of command `name` whose
/// result has type `ty`, where it prints one of its own; none where it
/// prints the value as JSON.
pub fn result_line(name: &str, ty: &DataModel, v: &JsonOut) -> (r: Option<String>)
    ensures
        r is Some == result_text(name@, *ty, json_view(*v)) is Some,
        r matches Some(l) ==> Some(l@) == result_text(name@, *ty, json_view(*v)),
{
    let width: usize = match ty {
        DataModel::U8 => 2,
        DataModel::U16 => 4,
        DataModel::U32 => 8,
        DataModel::U64 => 16,
        DataModel::Unit | DataModel::UnitStruct => {
            let mut l = name.to_owned();
            l.append(" OK");
            return Some(l);
        },
        _ => {
            return None;
        },
    };
    let mut l = name.to_owned();
    l.append(" -> 0x");
    push_hex_width(&mut l, unsigned_value(v), width);
    Some(l)
}

// ---------------------------------------------------------------------------
// The command overview
// ---------------------------------------------------------------------------

/// What the overview shows of one command: its name, and its argument and
/// result types where their schemas could be read.
pub struct HelpEntry {
    /// The command's name.
    pub name: String,
    /// The type of its argument tuple, if its schema could be read.
    pub args: Option<NamedType>,
    /// The type of its result, if its schema could be read.
    pub ret: Option<NamedType>,
}

/// Whether `a` comes no later than `b` in the order of their characters.
pub open spec fn text_le(a: Seq<char>, b: Seq<char>) -> bool
    decreases a.len(),
{
    if a.len() == 0 {
        true
    } else if b.len() == 0 {
        false
    } else if a[0] != b[0] {
        a[0] < b[0]
    } else {
        text_le(a.drop_first(), b.drop_first())
    }
}

/// `s` with `e` placed after every entry whose name does not come later.
pub open spec fn insert_by_name(s: Seq<HelpEntry>, e: HelpEntry) -> Seq<HelpEntry>
    decreases s.len(),
{
    if s.len() == 0 {
        seq![e]
    } else if text_le(s.last().name@, e.name@) {
        s.push(e)
    } else {
        insert_by_name(s.drop_last(), e).push(s.last())
    }
}

/// The entries in order of name, entries with equal names in the order they
/// came in.
pub open spec fn sorted_by_name(s: Seq<HelpEntry>) -> Seq<HelpEntry>
    decreases s.len(),
{
    if s.len() == 0 {
        Seq::empty()
    } else {
        insert_by_name(sorted_by_name(s.drop_last()), s.last())
    }
}

/// Of two texts, one comes no later than the other.
proof fn lemma_text_le_total(a: Seq<char>, b: Seq<char>)
    ensures
        text_le(a, b) || text_le(b, a),
    decreases a.len(),
{
    if a.len() > 0 && b.len() > 0 && a[0] == b[0] {
        lemma_text_le_total(a.drop_first(), b.drop_first());
    }
}

/// The order of texts is transitive.
proof fn lemma_text_le_trans(a: Seq<char>, b: Seq<char>, c: Seq<char>)
    requires
        text_le(a, b),
        text_le(b, c),
    ensures
        text_le(a, c),
    decreases a.len(),
{
    if a.len() > 0 && b.len() > 0 && c.len() > 0 && a[0] == b[0] && b[0] == c[0] {
        lemma_text_le_trans(a.drop_first(), b.drop_first(), c.drop_first());
    }
}

/// Whether the entries are in order of name.
pub open spec fn names_sorted(s: Seq<HelpEntry>) -> bool {
    forall|i: int, j: int| 0 <= i < j < s.len() ==> text_le(s[i].name@, s[j].name@)
}

/// Placing an entry keeps the order, adds one entry, and puts no name after
/// the later of the entry's and the last one's.
proof fn lemma_insert_by_name_sorted(s: Seq<HelpEntry>, e: HelpEntry)
    requires
        names_sorted(s),
    ensures
        names_sorted(insert_by_name(s, e)),
        insert_by_name(s, e).len() == s.len() + 1,
        forall|k: int|
            0 <= k < insert_by_name(s, e).len() ==> text_le(
                #[trigger] insert_by_name(s, e)[k].name@,
                if s.len() > 0 && !text_le(s.last().name@, e.name@) {
                    s.last().name@
                } else {
                    e.name@
                },
            ),
    decreases s.len(),
{
    let r = insert_by_name(s, e);
    if s.len() == 0 {
        lemma_text_le_total(e.name@, e.name@);
    } else if text_le(s.last().name@, e.name@) {
        assert forall|k: int| 0 <= k < r.len() implies text_le(#[trigger] r[k].name@, e.name@) by {
            if k < s.len() - 1 {
                lemma_text_le_trans(s[k].name@, s.last().name@, e.name@);
            } else if k == s.len() {
                lemma_text_le_total(e.name@, e.name@);
            }
        }
        assert forall|i: int, j: int| 0 <= i < j < r.len() implies text_le(
            r[i].name@,
            r[j].name@,
        ) by {
            if j == s.len() {
                assert(text_le(r[i].name@, e.name@));
            }
        }
    } else {
        let t = s.drop_last();
        lemma_text_le_total(s.last().name@, e.name@);
        lemma_insert_by_name_sorted(t, e);
        let r2 = insert_by_name(t, e);
        assert forall|k: int| 0 <= k < r2.len() implies text_le(
            #[trigger] r2[k].name@,
            s.last().name@,
        ) by {
            if t.len() > 0 && !text_le(t.last().name@, e.name@) {
                assert(text_le(t.last().name@, s.last().name@));
                lemma_text_le_trans(r2[k].name@, t.last().name@, s.last().name@);
            } else {
                lemma_text_le_trans(r2[k].name@, e.name@, s.last().name@);
            }
        }
        assert forall|k: int| 0 <= k < r.len() implies text_le(
            #[trigger] r[k].name@,
            s.last().name@,
        ) by {
            if k == r.len() - 1 {
                lemma_text_le_total(s.last().name@, s.last().name@);
            } else {
                assert(r[k] == r2[k]);
            }
        }
        assert forall|i: int, j: int| 0 <= i < j < r.len() implies text_le(
            r[i].name@,
            r[j].name@,
        ) by {
            if j == r.len() - 1 {
                assert(r[i] == r2[i]);
            } else {
                assert(r[i] == r2[i] && r[j] == r2[j]);
            }
        }
    }
}

/// The entries ordered by name are in order.
pub proof fn lemma_sorted_by_name(s: Seq<HelpEntry>)
    ensures
        names_sorted(sorted_by_name(s)),
        sorted_by_name(s).len() == s.len(),
    decreases s.len(),
{
    if s.len() > 0 {
        lemma_sorted_by_name(s.drop_last());
        lemma_insert_by_name_sorted(sorted_by_name(s.drop_last()), s.last());
    }
}

/// Placing `e` is inserting it at the first position after which every name
/// comes later than its own.
proof fn lemma_insert_by_name_at(s: Seq<HelpEntry>, e: HelpEntry, idx: int)
    requires
        0 <= idx <= s.len(),
        forall|k: int| idx <= k < s.len() ==> !text_le(#[trigger] s[k].name@, e.name@),
        idx > 0 ==> text_le(s[idx - 1].name@, e.name@),
    ensures
        insert_by_name(s, e) == s.insert(idx, e),
    decreases s.len(),
{
    if s.len() == 0 {
        assert(s.insert(idx, e) =~= seq![e]);
    } else if idx == s.len() {
        assert(s.insert(idx, e) =~= s.push(e));
    } else {
        assert(!text_le(s[s.len() - 1].name@, e.name@));
        lemma_insert_by_name_at(s.drop_last(), e, idx);
        assert(s.insert(idx, e) =~= s.drop_last().insert(idx, e).push(s.last()));
    }
}

/// Whether `a` comes no later than `b` in the order of their characters.
fn text_not_after(a: &str, b: &str) -> (r: bool)
    ensures
        r == text_le(a@, b@),
{
    let na = a.unicode_len();
    let nb = b.unicode_len();
    let mut i: usize = 0;
    assert(a@.skip(0) =~= a@);
    assert(b@.skip(0) =~= b@);
    while i < na && i < nb && a.get_char(i) == b.get_char(i)
        invariant
            i <= na == a@.len(),
            i <= nb == b@.len(),
            a@.take(i as int) == b@.take(i as int),
            text_le(a@, b@) == text_le(a@.skip(i as int), b@.skip(i as int)),
        decreases na - i,
    {
        proof {
            assert(a@.skip(i as int).drop_first() =~= a@.skip(i + 1));
            assert(b@.skip(i as int).drop_first() =~= b@.skip(i + 1));
            assert(a@.take(i + 1) =~= a@.take(i as int).push(a@[i as int]));
            assert(b@.take(i + 1) =~= b@.take(i as int).push(b@[i as int]));
        }
        i += 1;
    }
    if i == na {
        return true;
    }
    if i == nb {
        return false;
    }
    a.get_char(i) < b.get_char(i)
}

/// Where an entry named `name` goes in `out`: after every entry whose name
/// does not come later.
fn name_position(out: &Vec<HelpEntry>, name: &str) -> (idx: usize)
    ensures
        idx <= out@.len(),
        forall|k: int| idx <= k < out@.len() ==> !text_le(#[trigger] out@[k].name@, name@),
        idx > 0 ==> text_le(out@[idx - 1].name@, name@),
{
    let mut idx: usize = out.len();
    while idx > 0 && !text_not_after(out[idx - 1].name.as_str(), name)
        invariant
            idx <= out@.len(),
            forall|k: int| idx <= k < out@.len() ==> !text_le(#[trigger] out@[k].name@, name@),
        decreases idx,
    {
        idx -= 1;
    }
    idx
}

/// The entries in order of name; entries with equal names keep their order.
pub fn sort_by_name(entries: Vec<HelpEntry>) -> (r: Vec<HelpEntry>)
    ensures
        r@ == sorted_by_name(entries@),
        names_sorted(r@),
        r@.len() == entries@.len(),
{
    let ghost orig = entries@;
    let mut rest = entries;
    let mut out: Vec<HelpEntry> = Vec::new();
    let ghost mut k: int = 0;
    assert(orig.take(0) =~= Seq::<HelpEntry>::empty());
    assert(rest@ =~= orig.skip(0));
    while rest.len() > 0
        invariant
            0 <= k <= orig.len(),
            rest@ == orig.skip(k),
            out@ == sorted_by_name(orig.take(k)),
        decreases rest@.len(),
    {
        let e = rest.remove(0);
        let idx = name_position(&out, e.name.as_str());
        proof {
            assert(e == orig[k]);
            assert(orig.take(k + 1).drop_last() =~= orig.take(k));
            assert(orig.take(k + 1).last() == e);
            lemma_insert_by_name_at(out@, e, idx as int);
            assert(rest@ =~= orig.skip(k + 1));
            k = k + 1;
        }
        out.insert(idx, e);
    }
    assert(orig.take(k) =~= orig);
    proof {
        lemma_sorted_by_name(orig);
    }
    out
}

/// The usage of a command in the overview: its name, then its argument
/// list if it has one.
pub open spec fn usage_text(e: HelpEntry) -> Seq<char> {
    let args = match e.args {
        Some(t) => args_display_text(t),
        None => Seq::empty(),
    };
    if args.len() == 0 {
        e.name@
    } else {
        e.name@ + " "@ + args
    }
}

/// The result label of a command in the overview; `?` where its result
/// schema could not be read.
pub open spec fn result_label(e: HelpEntry) -> Seq<char> {
    match e.ret {
        Some(t) => type_label_text(t.ty),
        None => "?"@,
    }
}

/// The width of the usage column: the widest usage in bytes, and at least
/// 24.
pub open spec fn usage_width(es: Seq<HelpEntry>) -> nat
    decreases es.len(),
{
    if es.len() == 0 {
        24
    } else {
        let w = usage_width(es.drop_last());
        let l = byte_len(usage_text(es.last()));
        if l > w {
            l
        } else {
            w
        }
    }
}

/// The overview line of a command.
pub open spec fn overview_line(e: HelpEntry, w: nat) -> Seq<char> {
    "  "@ + pad_to(usage_text(e), w) + "  -> "@ + result_label(e)
}

/// The lines of the command overview of the entries `es`, in their order.
pub open spec fn overview_text(es: Seq<HelpEntry>) -> Seq<Seq<char>> {
    let w = usage_width(es);
    seq!["Commands:"@] + Seq::new(es.len(), |i: int| overview_line(es[i], w)) + seq![
        Seq::empty(),
        "  "@ + pad_to("help [COMMAND]"@, w) + "  Show this help or detail for a command"@,
    ]
}

/// The usage of a command in the overview.
fn usage_string(e: &HelpEntry) -> (s: String)
    ensures
        s@ == usage_text(*e),
{
    let args = match &e.args {
        Some(t) => args_display(t),
        None => String::new(),
    };
    let mut s = e.name.clone();
    if args.unicode_len() > 0 {
        s.append(" ");
        s.append(args.as_str());
    }
    s
}

/// The lines of the command overview: the commands in order of name, each
/// with its usage padded to a common column and its result label, then the
/// line for `help` itself.
pub fn help_overview(entries: Vec<HelpEntry>) -> (lines: Vec<String>)
    ensures
        string_views(lines@) == overview_text(sorted_by_name(entries@)),
{
    let es = sort_by_name(entries);
    let mut usages: Vec<String> = Vec::new();
    let mut width: usize = 24;
    let mut i: usize = 0;
    assert(es@.take(0) =~= Seq::<HelpEntry>::empty());
    while i < es.len()
        invariant
            i <= es@.len(),
            usages@.len() == i,
            forall|j: int| 0 <= j < i ==> #[trigger] usages@[j]@ == usage_text(es@[j]),
            width == usage_width(es@.take(i as int)),
        decreases es@.len() - i,
    {
        let u = usage_string(&es[i]);
        let len = u.as_str().as_bytes().len();
        proof {
            assert(es@.take(i + 1).drop_last() =~= es@.take(i as int));
            assert(es@.take(i + 1).last() == es@[i as int]);
        }
        if len > width {
            width = len;
        }
        usages.push(u);
        i += 1;
    }
    assert(es@.take(i as int) =~= es@);
    let ghost w = usage_width(es@);
    let mut lines: Vec<String> = Vec::new();
    lines.push("Commands:".to_owned());
    let mut j: usize = 0;
    while j < es.len()
        invariant
            j <= es@.len(),
            usages@.len() == es@.len(),
            forall|k: int| 0 <= k < es@.len() ==> #[trigger] usages@[k]@ == usage_text(es@[k]),
            width == w,
            lines@.len() == j + 1,
            lines@[0]@ == "Commands:"@,
            forall|k: int| 1 <= k < lines@.len() ==> #[trigger] lines@[k]@ == overview_line(
                es@[k - 1],
                w,
            ),
        decreases es@.len() - j,
    {
        let mut line = "  ".to_owned();
        let mut padded = usages[j].clone();
        pad_string(&mut padded, width);
        line.append(padded.as_str());
        line.append("  -> ");
        match &es[j].ret {
            Some(t) => line.append(type_label(&t.ty)),
            None => line.append("?"),
        }
        proof {
            reveal_strlit("?");
        }
        assert(line@ =~= overview_line(es@[j as int], w));
        lines.push(line);
        j += 1;
    }
    lines.push(String::new());
    let mut last = "  ".to_owned();
    let mut help = "help [COMMAND]".to_owned();
    pad_string(&mut help, width);
    last.append(help.as_str());
    last.append("  Show this help or detail for a command");
    lines.push(last);
    proof {
        reveal_strlit("Commands:");
    }
    assert(string_views(lines@) =~= overview_text(es@));
    lines
}

// ---------------------------------------------------------------------------
// Arguments typed at the prompt
// ---------------------------------------------------------------------------

/// Whether a command with arguments of type `ty` takes no arguments.
pub open spec fn takes_no_args(ty: DataModel) -> bool {
    ty is Unit || ty is UnitStruct
}

/// The error for arguments given to command `cmd`, which takes none.
pub open spec fn no_args_text(cmd: Seq<char>, args: Seq<char>) -> Seq<char> {
    "'"@ + cmd + "' takes no arguments, but got: "@ + args
}

/// The error for no arguments given to command `cmd`, whose argument type
/// is named `ty_name`.
pub open spec fn missing_args_text(cmd: Seq<char>, ty_name: Seq<char>) -> Seq<char> {
    "'"@ + cmd + "' expects arguments ("@ + ty_name
        + "). Each positional arg is parsed as JSON, e.g.: "@ + cmd
        + " <arg1> <arg2> ...  (JSON array form also supported: "@ + cmd
        + " [<arg1>, <arg2>, ...])"@
}

/// The error for a whitespace-separated argument of command `cmd` that is
/// not JSON, with the parser's message `e`.
pub open spec fn bad_token_text(cmd: Seq<char>, e: Seq<char>) -> Seq<char> {
    "Invalid arguments for '"@ + cmd + "': "@ + e
        + ". Note: positional args are split on whitespace; for JSON strings or objects containing spaces, use the array form: "@
        + cmd + " [<arg1>, <arg2>, ...]"@
}

/// The white-space separated tokens of `s` from position `i` on, where the
/// token being read so far is `cur` and the tokens before it are `acc`.
pub open spec fn tokens_from(s: Seq<char>, i: nat, cur: Seq<char>, acc: Seq<Seq<char>>) -> Seq<
    Seq<char>,
>
    decreases s.len() - i,
{
    if i >= s.len() {
        if cur.len() > 0 {
            acc.push(cur)
        } else {
            acc
        }
    } else if is_white_space(s[i as int]) {
        tokens_from(s, i + 1, Seq::empty(), if cur.len() > 0 {
            acc.push(cur)
        } else {
            acc
        })
    } else {
        tokens_from(s, i + 1, cur.push(s[i as int]), acc)
    }
}

/// The white-space separated tokens of `s` (what `str::split_whitespace`
/// yields): its maximal runs of characters that are not white space.
pub open spec fn tokens_of(s: Seq<char>) -> Seq<Seq<char>> {
    tokens_from(s, 0, Seq::empty(), Seq::empty())
}

/// The white-space separated tokens of `s`, in order.
pub fn split_tokens(s: &str) -> (r: Vec<String>)
    ensures
        string_views(r@) == tokens_of(s@),
{
    let n = s.unicode_len();
    let mut out: Vec<String> = Vec::new();
    let mut start: usize = 0;
    let mut i: usize = 0;
    assert(s@.subrange(0, 0) =~= Seq::<char>::empty());
    assert(string_views(out@) =~= Seq::<Seq<char>>::empty());
    while i < n
        invariant
            n == s@.len(),
            start <= i <= n,
            tokens_of(s@) == tokens_from(
                s@,
                i as nat,
                s@.subrange(start as int, i as int),
                string_views(out@),
            ),
        decreases n - i,
    {
        let c = s.get_char(i);
        if white_space(c) {
            if start < i {
                let tok = s.substring_char(start, i).to_owned();
                let ghost before = string_views(out@);
                out.push(tok);
                assert(string_views(out@) =~= before.push(s@.subrange(start as int, i as int)));
            }
            i += 1;
            start = i;
            assert(s@.subrange(start as int, i as int) =~= Seq::<char>::empty());
        } else {
            assert(s@.subrange(start as int, i + 1) =~= s@.subrange(start as int, i as int).push(
                s@[i as int],
            ));
            i += 1;
        }
    }
    if start < i {
        let tok = s.substring_char(start, i).to_owned();
        let ghost before = string_views(out@);
        out.push(tok);
        assert(string_views(out@) =~= before.push(s@.subrange(start as int, i as int)));
    }
    out
}

/// The JSON arguments of command `cmd_name` typed as `args_str`, given what
/// parsing the text gave: `whole` is the whole text read as one JSON value,
/// where it is one, and `tokens` the parts that `split_tokens` gives read as
/// JSON values, or the parser's message for the first that is not one.
///
/// A command without arguments takes the empty text only, as `null`;
/// otherwise the empty text is an error, the whole text as one value is
/// taken where it parses, and else the parts as an array.
pub fn encode_args(
    args_schema: &NamedType,
    args_str: &str,
    cmd_name: &str,
    whole: Option<JsonValue>,
    tokens: Result<Vec<JsonValue>, String>,
) -> (r: Result<JsonValue, String>)
    ensures
        takes_no_args(args_schema.ty) && args_str@.len() > 0 ==> (r matches Err(m) && m@
            == no_args_text(cmd_name@, args_str@)),
        takes_no_args(args_schema.ty) && args_str@.len() == 0 ==> r == Ok::<JsonValue, String>(
            JsonValue::Null,
        ),
        !takes_no_args(args_schema.ty) && args_str@.len() == 0 ==> (r matches Err(m) && m@
            == missing_args_text(cmd_name@, args_schema.name@)),
        !takes_no_args(args_schema.ty) && args_str@.len() > 0 && whole is Some ==> r == Ok::<
            JsonValue,
            String,
        >(whole->0),
        !takes_no_args(args_schema.ty) && args_str@.len() > 0 && whole is None && tokens is Ok
            ==> r == Ok::<JsonValue, String>(JsonValue::Array(tokens->Ok_0)),
        !takes_no_args(args_schema.ty) && args_str@.len() > 0 && whole is None && tokens is Err
            ==> (r matches Err(m) && m@ == bad_token_text(cmd_name@, tokens->Err_0@)),
{
    let is_unit = match &args_schema.ty {
        DataModel::Unit => true,
        DataModel::UnitStruct => true,
        _ => false,
    };
    let empty = args_str.unicode_len() == 0;
    if is_unit {
        if !empty {
            let mut m = "'".to_owned();
            m.append(cmd_name);
            m.append("' takes no arguments, but got: ");
            m.append(args_str);
            proof {
                reveal_strlit("'");
            }
            return Err(m);
        }
        return Ok(JsonValue::Null);
    }
    if empty {
        let mut m = "'".to_owned();
        m.append(cmd_name);
        m.append("' expects arguments (");
        m.append(args_schema.name.as_str());
        m.append("). Each positional arg is parsed as JSON, e.g.: ");
        m.append(cmd_name);
        m.append(" <arg1> <arg2> ...  (JSON array form also supported: ");
        m.append(cmd_name);
        m.append(" [<arg1>, <arg2>, ...])");
        proof {
            reveal_strlit("'");
        }
        return Err(m);
    }
    match whole {
        Some(v) => Ok(v),
        None => match tokens {
            Ok(vals) => Ok(JsonValue::Array(vals)),
            Err(e) => {
                let mut m = "Invalid arguments for '".to_owned();
                m.append(cmd_name);
                m.append("': ");
                m.append(e.as_str());
                m.append(
                    ". Note: positional args are split on whitespace; for JSON strings or objects containing spaces, use the array form: ",
                );
                m.append(cmd_name);
                m.append(" [<arg1>, <arg2>, ...]");
                Err(m)
            },
        },
    }
}

} // verus!

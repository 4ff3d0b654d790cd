//! The logic of the MCP tool bridge: the input schema of a command as a
//! tool, the mapping of named tool arguments onto a command's positional
//! arguments, and the text of the bridge's prompts.

use vstd::prelude::*;
use vstd::string::*;
use crate::cli::same_text;
use crate::data_model::{
    array_of, array_view, clone_out, clone_value, find_member, json_view, lemma_member,
    lemma_value_parts, lemma_view_parts, member, object_of, object_view, push_item, push_member,
    str_of, value_items, value_view, JsonOut, JsonValue, JsonView, ValueView,
};
use crate::schema_json::{closed_object, typed};
use crate::text::string_views;

verus! {

/// The value of the last member of `members` named `key`: the one a JSON map
/// keeps when a name repeats.
pub open spec fn last_member(members: Seq<(Seq<char>, JsonView)>, key: Seq<char>) -> Option<
    JsonView,
>
    decreases members.len(),
{
    if members.len() == 0 {
        None
    } else if members.last().0 == key {
        Some(members.last().1)
    } else {
        last_member(members.drop_last(), key)
    }
}

/// The `prefixItems` of a tuple's schema: the schemas of its elements, or
/// none where the schema has no such array.
pub open spec fn prefix_items(raw: JsonView) -> Seq<JsonView> {
    match raw {
        JsonView::Object(members) => match last_member(members, "prefixItems"@) {
            Some(JsonView::Array(items)) => items,
            _ => Seq::empty(),
        },
        _ => Seq::empty(),
    }
}

/// The input schema of a tool whose arguments are named `names`, from the
/// schema `raw` of the command's argument tuple: an object with one
/// required property per name, whose schema is that of the element at the
/// same position (names beyond the elements are left out).
pub open spec fn input_schema(raw: JsonView, names: Seq<Seq<char>>) -> JsonView {
    if names.len() == 0 {
        typed("object"@)
    } else {
        let items = prefix_items(raw);
        let n = if names.len() < items.len() {
            names.len()
        } else {
            items.len()
        };
        closed_object(
            Seq::new(n, |i: int| (names[i], items[i])),
            Seq::new(n, |i: int| JsonView::Str(names[i])),
        )
    }
}

/// Find the last member named `key` of a built object.
fn find_last_member(members: &Vec<(String, JsonOut)>, key: &str) -> (r: Option<usize>)
    ensures
        r matches Some(k) ==> k < members@.len() && last_member(object_view(members@), key@)
            == Some(json_view(members@[k as int].1)),
        r is None ==> last_member(object_view(members@), key@) is None,
{
    let mut k: usize = members.len();
    assert(object_view(members@).take(k as int) =~= object_view(members@));
    while k > 0
        invariant
            k <= members@.len(),
            last_member(object_view(members@), key@) == last_member(
                object_view(members@).take(k as int),
                key@,
            ),
        decreases k,
    {
        let ghost prefix = object_view(members@).take(k as int);
        assert(prefix.drop_last() =~= object_view(members@).take(k - 1));
        if same_text(members[k - 1].0.as_str(), key) {
            return Some(k - 1);
        }
        k -= 1;
    }
    None
}

/// The input schema of a tool whose arguments are named `arg_names`, from
/// the JSON Schema `raw_schema` of the command's argument tuple.
pub fn build_input_schema(raw_schema: &JsonOut, arg_names: &[String]) -> (r: JsonOut)
    ensures
        json_view(r) == input_schema(json_view(*raw_schema), string_views(arg_names@)),
{
    let ghost names = string_views(arg_names@);
    if arg_names.len() == 0 {
        let mut m: Vec<(String, JsonOut)> = Vec::new();
        push_member(&mut m, "type", str_of("object"));
        assert(object_view(m@) =~= seq![("type"@, JsonView::Str("object"@))]);
        return object_of(m);
    }
    proof {
        lemma_view_parts(*raw_schema);
    }
    let empty: Vec<JsonOut> = Vec::new();
    let mut items: &Vec<JsonOut> = &empty;
    if let JsonOut::Object(members) = raw_schema {
        if let Some(k) = find_last_member(members, "prefixItems") {
            if let JsonOut::Array(found) = &members[k].1 {
                proof {
                    lemma_view_parts(members@[k as int].1);
                }
                items = found;
            }
        }
    }
    assert(array_view(items@) == prefix_items(json_view(*raw_schema)));
    let n = if arg_names.len() < items.len() {
        arg_names.len()
    } else {
        items.len()
    };
    let mut props: Vec<(String, JsonOut)> = Vec::new();
    let mut required: Vec<JsonOut> = Vec::new();
    let mut i: usize = 0;
    while i < n
        invariant
            i <= n,
            n <= arg_names@.len(),
            n <= items@.len(),
            names == string_views(arg_names@),
            object_view(props@) == Seq::new(
                i as nat,
                |j: int| (names[j], array_view(items@)[j]),
            ),
            array_view(required@) == Seq::new(i as nat, |j: int| JsonView::Str(names[j])),
        decreases n - i,
    {
        let ghost before_props = object_view(props@);
        let ghost before_req = array_view(required@);
        let schema = clone_out(&items[i]);
        push_member(&mut props, arg_names[i].as_str(), schema);
        push_item(&mut required, str_of(arg_names[i].as_str()));
        assert(object_view(props@) =~= Seq::new(
            (i + 1) as nat,
            |j: int| (names[j], array_view(items@)[j]),
        ));
        assert(array_view(required@) =~= Seq::new(
            (i + 1) as nat,
            |j: int| JsonView::Str(names[j]),
        ));
        i += 1;
    }
    let mut m: Vec<(String, JsonOut)> = Vec::new();
    let ghost pv = object_view(props@);
    let ghost rv = array_view(required@);
    push_member(&mut m, "type", str_of("object"));
    push_member(&mut m, "properties", object_of(props));
    push_member(&mut m, "required", array_of(required));
    push_member(&mut m, "additionalProperties", JsonOut::Bool(false));
    assert(object_view(m@) =~= seq![
        ("type"@, JsonView::Str("object"@)),
        ("properties"@, JsonView::Object(pv)),
        ("required"@, JsonView::Array(rv)),
        ("additionalProperties"@, JsonView::Bool(false)),
    ]);
    object_of(m)
}

/// The positional arguments of a command whose arguments are named `names`,
/// from the named `arguments` of a tool call: no value for a command without
/// arguments, else an array with the argument of each name, `null` where it
/// is missing.
pub open spec fn positional(arguments: Option<Seq<(String, JsonValue)>>, names: Seq<Seq<char>>) -> ValueView {
    if names.len() == 0 {
        ValueView::Null
    } else {
        ValueView::Array(
            Seq::new(
                names.len(),
                |i: int|
                    match arguments {
                        Some(members) => match member(members, names[i]) {
                            Some(k) => value_view(members[k].1),
                            None => ValueView::Null,
                        },
                        None => ValueView::Null,
                    },
            ),
        )
    }
}

/// The members of optional named arguments.
pub open spec fn members_view(arguments: Option<Vec<(String, JsonValue)>>) -> Option<
    Seq<(String, JsonValue)>,
> {
    match arguments {
        Some(members) => Some(members@),
        None => None,
    }
}

/// The positional arguments of a command whose arguments are named
/// `arg_names`, from the named `arguments` of a tool call.
pub fn named_to_positional(arguments: Option<Vec<(String, JsonValue)>>, arg_names: &[String]) -> (r:
    JsonValue)
    ensures
        value_view(r) == positional(members_view(arguments), string_views(arg_names@)),
{
    let ghost args = members_view(arguments);
    let ghost names = string_views(arg_names@);
    if arg_names.len() == 0 {
        return JsonValue::Null;
    }
    let obj: Vec<(String, JsonValue)> = match arguments {
        Some(members) => members,
        None => Vec::new(),
    };
    let mut out: Vec<JsonValue> = Vec::new();
    let mut i: usize = 0;
    while i < arg_names.len()
        invariant
            i <= arg_names@.len(),
            names == string_views(arg_names@),
            args matches Some(ms) ==> ms == obj@,
            args is None ==> obj@.len() == 0,
            out@.len() == i,
            forall|j: int|
                0 <= j < i ==> value_view(#[trigger] out@[j]) == positional(args, names)->Array_0[j],
        decreases arg_names@.len() - i,
    {
        proof {
            lemma_member(obj@, names[i as int]);
        }
        let v = match find_member(&obj, arg_names[i].as_str()) {
            Some(k) => clone_value(&obj[k].1),
            None => JsonValue::Null,
        };
        out.push(v);
        i += 1;
    }
    let r = JsonValue::Array(out);
    proof {
        lemma_value_parts(r);
        assert(value_items(out@) =~= positional(args, names)->Array_0);
    }
    r
}

/// The text of the prompt that asks to check that the firmware is alive.
pub open spec fn alive_prompt() -> Seq<char> {
    "Use the 'ping' tool to verify the firmware is alive. The ping command takes no arguments and returns a 32-bit sentinel value. Report success or failure and the value you received."@
}

/// The text of the prompt that asks to call command `cmd` with `args`.
pub open spec fn call_prompt(cmd: Seq<char>, args: Seq<char>) -> Seq<char> {
    "Call the Telepath command '"@ + cmd + "' with the following arguments: "@ + args
        + ". Report the result value or any error that occurs."@
}

/// The text of the prompt `name`: `verify-board-alive`, or `call-command`
/// for the command `command` (`<command>` when none is given) with the
/// arguments `args` as text (`{}` when none are given); no text for another
/// name.
pub fn prompt_text(name: &str, command: Option<&str>, args: Option<&str>) -> (r: Option<String>)
    ensures
        name@ == "verify-board-alive"@ ==> (r matches Some(t) && t@ == alive_prompt()),
        name@ == "call-command"@ ==> (r matches Some(t) && t@ == call_prompt(
            match command {
                Some(c) => c@,
                None => "<command>"@,
            },
            match args {
                Some(a) => a@,
                None => "{}"@,
            },
        )),
        name@ != "verify-board-alive"@ && name@ != "call-command"@ ==> r is None,
{
    proof {
        reveal_strlit("verify-board-alive");
        reveal_strlit("call-command");
        assert("verify-board-alive"@.len() != "call-command"@.len());
    }
    if same_text(name, "verify-board-alive") {
        return Some(
            "Use the 'ping' tool to verify the firmware is alive. The ping command takes no arguments and returns a 32-bit sentinel value. Report success or failure and the value you received.".to_owned(),
        );
    }
    if same_text(name, "call-command") {
        let cmd = match command {
            Some(c) => c,
            None => "<command>",
        };
        let text = match args {
            Some(a) => a,
            None => "{}",
        };
        let mut t = "Call the Telepath command '".to_owned();
        t.append(cmd);
        t.append("' with the following arguments: ");
        t.append(text);
        t.append(". Report the result value or any error that occurs.");
        return Some(t);
    }
    None
}

} // verus!

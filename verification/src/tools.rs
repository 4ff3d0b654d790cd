//! The tool list of the MCP bridge: commands ordered by ID, the names that
//! more than one command carries, and each command's tool description,
//! input schema and catalog entry.

use vstd::prelude::*;
use vstd::string::*;
use crate::cli::same_text;
use crate::command::{hex4, push_hex4};
use crate::data_model::{
    array_of, array_view, clone_out, json_view, object_of, object_view, push_item, push_member, str_of,
    JsonOut, JsonView, NamedType,
};
use crate::mcp::{build_input_schema, input_schema};
use crate::client::HostError;
use crate::schema::{schema_decoding, SchemaEntry};
use crate::schema_json::{named_type_to_json_schema, schema_json};
use crate::text::{decimal_text, push_decimal, string_views};

verus! {

// ---------------------------------------------------------------------------
// Ordering by command ID
// ---------------------------------------------------------------------------

/// Whether the entries are in order of command ID.
pub open spec fn ids_sorted(s: Seq<SchemaEntry>) -> bool {
    forall|i: int, j: int| 0 <= i < j < s.len() ==> s[i].cmd_id <= s[j].cmd_id
}

/// `s` with `e` placed after every entry whose ID is not above its own.
pub open spec fn insert_by_id(s: Seq<SchemaEntry>, e: SchemaEntry) -> Seq<SchemaEntry>
    decreases s.len(),
{
    if s.len() == 0 {
        seq![e]
    } else if s.last().cmd_id <= e.cmd_id {
        s.push(e)
    } else {
        insert_by_id(s.drop_last(), e).push(s.last())
    }
}

/// The entries ordered by command ID, entries with equal IDs in the order
/// they came in (a stable sort).
pub open spec fn sorted_by_id(s: Seq<SchemaEntry>) -> Seq<SchemaEntry>
    decreases s.len(),
{
    if s.len() == 0 {
        Seq::empty()
    } else {
        insert_by_id(sorted_by_id(s.drop_last()), s.last())
    }
}

/// Placing `e` is inserting it at the first position after which every ID
/// is above its own.
proof fn lemma_insert_at(s: Seq<SchemaEntry>, e: SchemaEntry, idx: int)
    requires
        0 <= idx <= s.len(),
        forall|k: int| idx <= k < s.len() ==> s[k].cmd_id > e.cmd_id,
        idx > 0 ==> s[idx - 1].cmd_id <= e.cmd_id,
    ensures
        insert_by_id(s, e) == s.insert(idx, e),
    decreases s.len(),
{
    if s.len() == 0 {
        assert(s.insert(idx, e) =~= seq![e]);
    } else if idx == s.len() {
        assert(s.insert(idx, e) =~= s.push(e));
    } else {
        lemma_insert_at(s.drop_last(), e, idx);
        assert(s.insert(idx, e) =~= s.drop_last().insert(idx, e).push(s.last()));
    }
}

/// Placing an entry keeps the order, adds one entry, and raises no ID
/// above the larger of the entry's and the last one's.
proof fn lemma_insert_sorted(s: Seq<SchemaEntry>, e: SchemaEntry)
    requires
        ids_sorted(s),
    ensures
        ids_sorted(insert_by_id(s, e)),
        insert_by_id(s, e).len() == s.len() + 1,
        forall|k: int|
            0 <= k < insert_by_id(s, e).len() ==> #[trigger] insert_by_id(s, e)[k].cmd_id <= (
            if s.len() > 0 && s.last().cmd_id > e.cmd_id {
                s.last().cmd_id
            } else {
                e.cmd_id
            }),
    decreases s.len(),
{
    if s.len() > 0 && s.last().cmd_id > e.cmd_id {
        let t = s.drop_last();
        lemma_insert_sorted(t, e);
        let r = insert_by_id(t, e);
        assert forall|k: int| 0 <= k < r.len() implies #[trigger] r[k].cmd_id <= s.last().cmd_id by {
            if t.len() > 0 {
                assert(t.last() == s[s.len() - 2]);
            }
        }
    }
}

/// The entries ordered by ID are in order.
proof fn lemma_sorted_by_id(s: Seq<SchemaEntry>)
    ensures
        ids_sorted(sorted_by_id(s)),
        sorted_by_id(s).len() == s.len(),
    decreases s.len(),
{
    if s.len() > 0 {
        lemma_sorted_by_id(s.drop_last());
        lemma_insert_sorted(sorted_by_id(s.drop_last()), s.last());
    }
}

/// Where an entry with ID `id` goes in the ordered `out`: after every entry
/// whose ID is not above `id`.
fn insert_position(out: &Vec<SchemaEntry>, id: u16) -> (idx: usize)
    requires
        ids_sorted(out@),
    ensures
        idx <= out@.len(),
        forall|k: int| idx <= k < out@.len() ==> out@[k].cmd_id > id,
        idx > 0 ==> out@[idx - 1].cmd_id <= id,
{
    let mut idx: usize = out.len();
    while idx > 0 && out[idx - 1].cmd_id > id
        invariant
            idx <= out@.len(),
            forall|k: int| idx <= k < out@.len() ==> out@[k].cmd_id > id,
        decreases idx,
    {
        idx -= 1;
    }
    idx
}

/// The entries ordered by command ID; entries with equal IDs keep their
/// order.
pub fn sort_by_cmd_id(entries: Vec<SchemaEntry>) -> (r: Vec<SchemaEntry>)
    ensures
        r@ == sorted_by_id(entries@),
        ids_sorted(r@),
        r@.len() == entries@.len(),
{
    let ghost orig = entries@;
    let mut rest = entries;
    let mut out: Vec<SchemaEntry> = Vec::new();
    let ghost mut k: int = 0;
    assert(orig.take(0) =~= Seq::<SchemaEntry>::empty());
    assert(rest@ =~= orig.skip(0));
    while rest.len() > 0
        invariant
            0 <= k <= orig.len(),
            rest@ == orig.skip(k),
            out@ == sorted_by_id(orig.take(k)),
            ids_sorted(out@),
        decreases rest@.len(),
    {
        let e = rest.remove(0);
        let idx = insert_position(&out, e.cmd_id);
        proof {
            assert(e == orig[k]);
            assert(orig.take(k + 1).drop_last() =~= orig.take(k));
            assert(orig.take(k + 1).last() == e);
            lemma_insert_at(out@, e, idx as int);
            lemma_insert_sorted(out@, e);
            assert(rest@ =~= orig.skip(k + 1));
            k = k + 1;
        }
        out.insert(idx, e);
    }
    proof {
        assert(orig.take(k) =~= orig);
        lemma_sorted_by_id(orig);
    }
    out
}

// ---------------------------------------------------------------------------
// Names that several commands carry
// ---------------------------------------------------------------------------

/// The IDs of the entries named `name`, in order.
pub open spec fn ids_named(s: Seq<SchemaEntry>, name: Seq<char>) -> Seq<u16>
    decreases s.len(),
{
    if s.len() == 0 {
        Seq::empty()
    } else if s.last().name@ == name {
        ids_named(s.drop_last(), name).push(s.last().cmd_id)
    } else {
        ids_named(s.drop_last(), name)
    }
}

/// The names carried by more than one entry, each with the IDs of its
/// entries, listed at the first entry of the name among entries `i..`.
pub open spec fn shared_names(s: Seq<SchemaEntry>, i: nat) -> Seq<(Seq<char>, Seq<u16>)>
    decreases s.len() - i,
{
    if i >= s.len() {
        Seq::empty()
    } else {
        let n = s[i as int].name@;
        if ids_named(s.take(i as int), n).len() == 0 && ids_named(s, n).len() > 1 {
            seq![(n, ids_named(s, n))] + shared_names(s, i + 1)
        } else {
            shared_names(s, i + 1)
        }
    }
}

/// A list of names with their IDs, as character sequences.
pub open spec fn name_ids_view(v: Seq<(String, Vec<u16>)>) -> Seq<(Seq<char>, Seq<u16>)> {
    Seq::new(v.len(), |i: int| (v[i].0@, v[i].1@))
}

/// The IDs of the first `end` entries that are named `name`.
fn ids_with_name(entries: &Vec<SchemaEntry>, end: usize, name: &str) -> (r: Vec<u16>)
    requires
        end <= entries@.len(),
    ensures
        r@ == ids_named(entries@.take(end as int), name@),
{
    let mut r: Vec<u16> = Vec::new();
    let mut j: usize = 0;
    assert(entries@.take(0) =~= Seq::<SchemaEntry>::empty());
    while j < end
        invariant
            j <= end <= entries@.len(),
            r@ == ids_named(entries@.take(j as int), name@),
        decreases end - j,
    {
        assert(entries@.take(j + 1).drop_last() =~= entries@.take(j as int));
        if same_text(entries[j].name.as_str(), name) {
            r.push(entries[j].cmd_id);
        }
        j += 1;
    }
    r
}

/// The command names that more than one entry carries, each with the IDs
/// of its entries in order, listed in the order the names first occur.
pub fn shared_command_names(entries: &Vec<SchemaEntry>) -> (r: Vec<(String, Vec<u16>)>)
    ensures
        name_ids_view(r@) == shared_names(entries@, 0),
{
    let n = entries.len();
    let mut r: Vec<(String, Vec<u16>)> = Vec::new();
    let mut i: usize = n;
    assert(entries@.take(n as int) =~= entries@);
    assert(name_ids_view(r@) =~= shared_names(entries@, n as nat));
    while i > 0
        invariant
            i <= n == entries@.len(),
            entries@.take(n as int) == entries@,
            name_ids_view(r@) == shared_names(entries@, i as nat),
        decreases i,
    {
        i -= 1;
        let name = entries[i].name.as_str();
        let before = ids_with_name(entries, i, name);
        let all = ids_with_name(entries, n, name);
        if before.len() == 0 && all.len() > 1 {
            let ghost old_r = r@;
            r.insert(0, (entries[i].name.clone(), all));
            assert(name_ids_view(r@) =~= seq![(name@, all@)] + name_ids_view(old_r));
        }
    }
    r
}

/// The IDs as four hexadecimal digits each, separated by `, `.
pub open spec fn hex_list(ids: Seq<u16>) -> Seq<char>
    decreases ids.len(),
{
    if ids.len() == 0 {
        Seq::empty()
    } else if ids.len() == 1 {
        hex4(ids[0])
    } else {
        hex_list(ids.drop_last()) + ", "@ + hex4(ids.last())
    }
}

/// The warning for a name that the commands with IDs `ids` share.
pub open spec fn shared_name_warning(name: Seq<char>, ids: Seq<u16>) -> Seq<char> {
    "[telepath mcp] Warning: ambiguous command name '"@ + name + "' maps to "@ + decimal_text(
        ids.len(),
    ) + " cmd_ids (["@ + hex_list(ids)
        + "]). MCP clients cannot disambiguate; only the first will be reachable by name."@
}

/// The warning for a name that the commands with IDs `ids` share: MCP
/// clients reach only the first of them by name.
pub fn shared_name_message(name: &str, ids: &Vec<u16>) -> (m: String)
    ensures
        m@ == shared_name_warning(name@, ids@),
{
    let mut m = "[telepath mcp] Warning: ambiguous command name '".to_owned();
    m.append(name);
    m.append("' maps to ");
    push_decimal(&mut m, ids.len() as u64);
    m.append(" cmd_ids ([");
    let ghost head = m@;
    let mut j: usize = 0;
    assert(ids@.take(0) =~= Seq::<u16>::empty());
    while j < ids.len()
        invariant
            j <= ids@.len(),
            m@ == head + hex_list(ids@.take(j as int)),
        decreases ids@.len() - j,
    {
        assert(ids@.take(j + 1).drop_last() =~= ids@.take(j as int));
        if j > 0 {
            m.append(", ");
        }
        push_hex4(&mut m, ids[j]);
        j += 1;
    }
    assert(ids@.take(ids@.len() as int) =~= ids@);
    m.append("]). MCP clients cannot disambiguate; only the first will be reachable by name.");
    proof {
        reveal_strlit("[telepath mcp] Warning: ambiguous command name '");
    }
    m
}

// ---------------------------------------------------------------------------
// Tools
// ---------------------------------------------------------------------------

/// The description of the tool for command `cmd_id`.
pub open spec fn tool_description_text(cmd_id: u16) -> Seq<char> {
    "Telepath command 0x"@ + hex4(cmd_id)
}

/// The description of the tool for command `cmd_id`.
pub fn tool_description(cmd_id: u16) -> (s: String)
    ensures
        s@ == tool_description_text(cmd_id),
{
    let mut s = "Telepath command 0x".to_owned();
    push_hex4(&mut s, cmd_id);
    s
}

/// What the bridge knows of a command offered as a tool.
pub struct ToolSpec {
    /// The tool's name: the command's.
    pub name: String,
    /// The command ID.
    pub cmd_id: u16,
    /// The tool's description.
    pub description: String,
    /// The JSON Schema of the tool's named arguments.
    pub input_schema: JsonOut,
    /// The schema of the command's argument tuple.
    pub args_schema: NamedType,
    /// The schema of the command's result.
    pub ret_schema: NamedType,
    /// The command's argument names in declaration order.
    pub arg_names: Vec<String>,
}

/// The tool for a command: its description names the ID, and its input
/// schema has one property per argument name.
pub fn tool_spec(
    name: String,
    cmd_id: u16,
    args_schema: NamedType,
    ret_schema: NamedType,
    arg_names: Vec<String>,
) -> (t: ToolSpec)
    ensures
        t.name == name,
        t.cmd_id == cmd_id,
        t.description@ == tool_description_text(cmd_id),
        json_view(t.input_schema) == input_schema(
            schema_json(args_schema.ty, 0),
            string_views(arg_names@),
        ),
        t.args_schema == args_schema,
        t.ret_schema == ret_schema,
        t.arg_names == arg_names,
{
    let raw = named_type_to_json_schema(&args_schema);
    let input_schema = build_input_schema(&raw, arg_names.as_slice());
    ToolSpec {
        name,
        cmd_id,
        description: tool_description(cmd_id),
        input_schema,
        args_schema,
        ret_schema,
        arg_names,
    }
}

/// The catalog entry of a tool.
pub open spec fn catalog_entry(t: ToolSpec) -> JsonView {
    JsonView::Object(
        seq![
            ("cmd_id"@, JsonView::Str("0x"@ + hex4(t.cmd_id))),
            ("inputSchema"@, json_view(t.input_schema)),
            ("name"@, JsonView::Str(t.name@)),
        ],
    )
}

/// The catalog of the offered commands: for each tool, in order, its name,
/// command ID as `0x` and four hexadecimal digits, and input schema.
pub fn commands_catalog(tools: &Vec<ToolSpec>) -> (r: JsonOut)
    ensures
        json_view(r) == JsonView::Array(Seq::new(tools@.len(), |i: int| catalog_entry(tools@[i]))),
{
    let mut items: Vec<JsonOut> = Vec::new();
    let mut i: usize = 0;
    while i < tools.len()
        invariant
            i <= tools@.len(),
            array_view(items@) == Seq::new(i as nat, |k: int| catalog_entry(tools@[k])),
        decreases tools@.len() - i,
    {
        let t = &tools[i];
        let mut id = "0x".to_owned();
        push_hex4(&mut id, t.cmd_id);
        let mut members: Vec<(String, JsonOut)> = Vec::new();
        push_member(&mut members, "cmd_id", str_of(id.as_str()));
        push_member(&mut members, "inputSchema", clone_out(&t.input_schema));
        push_member(&mut members, "name", str_of(t.name.as_str()));
        let entry = object_of(members);
        proof {
            reveal_strlit("0x");
            assert(object_view(members@) =~= seq![
                ("cmd_id"@, JsonView::Str("0x"@ + hex4(t.cmd_id))),
                ("inputSchema"@, json_view(t.input_schema)),
                ("name"@, JsonView::Str(t.name@)),
            ]);
        }
        push_item(&mut items, entry);
        assert(array_view(items@) =~= Seq::new((i + 1) as nat, |k: int| catalog_entry(tools@[k])));
        i += 1;
    }
    array_of(items)
}

/// Whether the schemas of every entry can be read.
pub open spec fn all_decodable(s: Seq<SchemaEntry>) -> bool {
    forall|i: int|
        0 <= i < s.len() ==> (#[trigger] schema_decoding(s[i].args_schema@)) is Some
            && schema_decoding(s[i].ret_schema@) is Some
}

/// Whether `t` is the tool for entry `e`: its name, ID, argument names and
/// read schemas, the description naming the ID, and the input schema built
/// from the argument schema and names.
pub open spec fn tool_for(t: ToolSpec, e: SchemaEntry) -> bool {
    &&& t.name == e.name
    &&& t.cmd_id == e.cmd_id
    &&& t.arg_names == e.arg_names
    &&& schema_decoding(e.args_schema@) == Some(t.args_schema)
    &&& schema_decoding(e.ret_schema@) == Some(t.ret_schema)
    &&& t.description@ == tool_description_text(e.cmd_id)
    &&& json_view(t.input_schema) == input_schema(
        schema_json(t.args_schema.ty, 0),
        string_views(e.arg_names@),
    )
}

/// The tools for the cached entries: ordered by command ID, one per entry,
/// or a postcard error where some entry's schemas cannot be read.
pub fn build_tools(entries: Vec<SchemaEntry>) -> (r: Result<Vec<ToolSpec>, HostError>)
    ensures
        r is Ok <==> all_decodable(sorted_by_id(entries@)),
        r matches Ok(v) ==> v@.len() == entries@.len() && forall|i: int|
            0 <= i < v@.len() ==> tool_for(#[trigger] v@[i], sorted_by_id(entries@)[i]),
        r matches Err(e) ==> e is SerdeError,
{
    let ghost orig = entries@;
    let sorted = sort_by_cmd_id(entries);
    let ghost all = sorted@;
    let mut rest = sorted;
    let mut out: Vec<ToolSpec> = Vec::new();
    let ghost mut k: int = 0;
    assert(rest@ =~= all.skip(0));
    while rest.len() > 0
        invariant
            all == sorted_by_id(orig),
            orig == entries@,
            all.len() == orig.len(),
            0 <= k <= all.len(),
            rest@ == all.skip(k),
            out@.len() == k,
            forall|j: int| 0 <= j < k ==> tool_for(#[trigger] out@[j], all[j]),
            forall|j: int|
                0 <= j < k ==> (#[trigger] schema_decoding(all[j].args_schema@)) is Some
                    && schema_decoding(all[j].ret_schema@) is Some,
        decreases rest@.len(),
    {
        let e = rest.remove(0);
        proof {
            assert(e == all[k]);
            assert(rest@ =~= all.skip(k + 1));
        }
        let args = match e.decoded_args_schema() {
            Ok(t) => t,
            Err(err) => {
                proof {
                    assert(schema_decoding(all[k].args_schema@) is None);
                    assert(!all_decodable(all));
                }
                return Err(err);
            },
        };
        let ret = match e.decoded_ret_schema() {
            Ok(t) => t,
            Err(err) => {
                proof {
                    assert(schema_decoding(all[k].ret_schema@) is None);
                    assert(!all_decodable(all));
                }
                return Err(err);
            },
        };
        let t = tool_spec(e.name, e.cmd_id, args, ret, e.arg_names);
        out.push(t);
        proof {
            k = k + 1;
        }
    }
    assert(all_decodable(all));
    Ok(out)
}

} // verus!

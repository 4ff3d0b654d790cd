//! Host-side cache of the command schemas a target reported.
//!
//! Entries are keyed by command ID. Since an ID hashes the name and both
//! schemas, a firmware change to a command's types yields a new ID and thus
//! a cache miss rather than a stale hit.

use std::collections::HashMap;
use vstd::std_specs::iter::IteratorSpec;
use vstd::prelude::*;
use postcard_schema::schema::owned::{
    OwnedDataModelType, OwnedDataModelVariant, OwnedNamedType, OwnedNamedValue, OwnedNamedVariant,
};
use postcard_schema::schema::owned::OwnedDataModelType as Odm;
use crate::client::HostError;
use crate::data_model::{DataModel, NamedType, NamedValue, NamedVariant, VariantModel};
use crate::data_model::DataModel as Dm;

verus! {

broadcast use vstd::std_specs::hash::group_hash_axioms;

/// One cached command schema, as reported by the discovery protocol.
#[derive(Debug, Clone)]
pub struct SchemaEntry {
    /// Command name as reported by the firmware.
    pub name: String,
    /// Command ID.
    pub cmd_id: u16,
    /// Serialized schema of the argument tuple.
    pub args_schema: Vec<u8>,
    /// Serialized schema of the return type.
    pub ret_schema: Vec<u8>,
    /// Argument names in declaration order; empty for zero-argument commands.
    pub arg_names: Vec<String>,
}

// ---------------------------------------------------------------------------
// Schemas as the target sends them
// ---------------------------------------------------------------------------

#[verifier::external_type_specification]
#[verifier::external_body]
pub struct ExOwnedNamedType(OwnedNamedType);

#[verifier::external_type_specification]
#[verifier::external_body]
pub struct ExOwnedDataModelType(OwnedDataModelType);

#[verifier::external_type_specification]
#[verifier::external_body]
pub struct ExOwnedNamedValue(OwnedNamedValue);

#[verifier::external_type_specification]
#[verifier::external_body]
pub struct ExOwnedNamedVariant(OwnedNamedVariant);

#[verifier::external_type_specification]
#[verifier::external_body]
pub struct ExOwnedDataModelVariant(OwnedDataModelVariant);

/// The schema that `postcard::from_bytes::<OwnedNamedType>` reads from
/// `bytes`, as the library's schema type; none where postcard reports an
/// error.
pub uninterp spec fn schema_decoding(bytes: Seq<u8>) -> Option<NamedType>;

/// `postcard::from_bytes::<OwnedNamedType>`, its schema taken over one for
/// one into the library's schema type. The result is named, not stated.
#[verifier::external_body]
fn postcard_decode_schema(bytes: &[u8]) -> (r: Result<NamedType, postcard::Error>)
    ensures
        r is Ok <==> schema_decoding(bytes@) is Some,
        r matches Ok(t) ==> schema_decoding(bytes@) == Some(t),
{
    match postcard::from_bytes::<OwnedNamedType>(bytes) {
        Ok(t) => Ok(named_type_of(&t)),
        Err(e) => Err(e),
    }
}

/// An `OwnedNamedType` as the library's schema type, field for field.
#[verifier::external_body]
fn named_type_of(t: &OwnedNamedType) -> NamedType {
    NamedType { name: t.name.to_string(), ty: data_model_of(&t.ty) }
}

/// An `OwnedNamedValue` as the library's struct field, field for field.
#[verifier::external_body]
fn named_value_of(v: &OwnedNamedValue) -> NamedValue {
    NamedValue { name: v.name.to_string(), ty: named_type_of(&v.ty) }
}

/// An `OwnedNamedVariant` as the library's enum variant, field for field.
#[verifier::external_body]
fn named_variant_of(v: &OwnedNamedVariant) -> NamedVariant {
    NamedVariant { name: v.name.to_string(), ty: variant_of(&v.ty) }
}

/// An `OwnedDataModelVariant` as the library's variant shape, one arm per
/// variant.
#[verifier::external_body]
fn variant_of(v: &OwnedDataModelVariant) -> VariantModel {
    match v {
        OwnedDataModelVariant::UnitVariant => VariantModel::UnitVariant,
        OwnedDataModelVariant::NewtypeVariant(t) => VariantModel::NewtypeVariant(Box::new(named_type_of(t))),
        OwnedDataModelVariant::TupleVariant(ts) => VariantModel::TupleVariant(ts.iter().map(named_type_of).collect()),
        OwnedDataModelVariant::StructVariant(fs) => VariantModel::StructVariant(fs.iter().map(named_value_of).collect()),
    }
}

/// An `OwnedDataModelType` as the library's data model, one arm per
/// variant; the scalar variants from `Bool` to `U64`.
#[verifier::external_body]
fn data_model_of(t: &OwnedDataModelType) -> DataModel {
    match t {
        Odm::Bool => Dm::Bool,
        Odm::I8 => Dm::I8,
        Odm::U8 => Dm::U8,
        Odm::I16 => Dm::I16,
        Odm::I32 => Dm::I32,
        Odm::I64 => Dm::I64,
        Odm::I128 => Dm::I128,
        Odm::U16 => Dm::U16,
        Odm::U32 => Dm::U32,
        Odm::U64 => Dm::U64,
        _ => data_model_rest_of(t),
    }
}

/// The scalar variants from `U128` on, and the unit types.
#[verifier::external_body]
fn data_model_rest_of(t: &OwnedDataModelType) -> DataModel {
    match t {
        Odm::U128 => Dm::U128,
        Odm::Usize => Dm::Usize,
        Odm::Isize => Dm::Isize,
        Odm::F32 => Dm::F32,
        Odm::F64 => Dm::F64,
        Odm::Char => Dm::Char,
        Odm::String => Dm::String,
        Odm::ByteArray => Dm::ByteArray,
        Odm::Unit => Dm::Unit,
        Odm::UnitStruct => Dm::UnitStruct,
        Odm::Schema => Dm::Schema,
        _ => data_model_wrapped_of(t),
    }
}

/// The variants that wrap one or two schemas.
#[verifier::external_body]
fn data_model_wrapped_of(t: &OwnedDataModelType) -> DataModel {
    match t {
        Odm::Option(x) => Dm::Option(Box::new(named_type_of(x))),
        Odm::NewtypeStruct(x) => Dm::NewtypeStruct(Box::new(named_type_of(x))),
        Odm::Seq(x) => Dm::SeqOf(Box::new(named_type_of(x))),
        Odm::Map { key, val } => Dm::MapOf { key: Box::new(named_type_of(key)), val: Box::new(named_type_of(val)) },
        _ => data_model_listed_of(t),
    }
}

/// The variants that list schemas, fields or variants.
#[verifier::external_body]
fn data_model_listed_of(t: &OwnedDataModelType) -> DataModel {
    match t {
        Odm::Tuple(ts) => Dm::Tuple(ts.iter().map(named_type_of).collect()),
        Odm::TupleStruct(ts) => Dm::TupleStruct(ts.iter().map(named_type_of).collect()),
        Odm::Struct(fs) => Dm::Struct(fs.iter().map(named_value_of).collect()),
        Odm::Enum(vs) => Dm::Enum(vs.iter().map(named_variant_of).collect()),
        // Every other variant is taken by the callers above.
        _ => Dm::Unit,
    }
}

impl SchemaEntry {
    /// The schema of the command's argument tuple, read from the bytes the
    /// target sent; a postcard error where they do not hold one.
    pub fn decoded_args_schema(&self) -> (r: Result<NamedType, HostError>)
        ensures
            r is Ok <==> schema_decoding(self.args_schema@) is Some,
            r matches Ok(t) ==> schema_decoding(self.args_schema@) == Some(t),
            r matches Err(e) ==> e is SerdeError,
    {
        match postcard_decode_schema(self.args_schema.as_slice()) {
            Ok(t) => Ok(t),
            Err(e) => Err(HostError::SerdeError(e)),
        }
    }

    /// The schema of the command's result, read from the bytes the target
    /// sent; a postcard error where they do not hold one.
    pub fn decoded_ret_schema(&self) -> (r: Result<NamedType, HostError>)
        ensures
            r is Ok <==> schema_decoding(self.ret_schema@) is Some,
            r matches Ok(t) ==> schema_decoding(self.ret_schema@) == Some(t),
            r matches Err(e) ==> e is SerdeError,
    {
        match postcard_decode_schema(self.ret_schema.as_slice()) {
            Ok(t) => Ok(t),
            Err(e) => Err(HostError::SerdeError(e)),
        }
    }
}

/// Whether `e` is cached under some ID in `m`.
pub open spec fn is_cached(m: Map<u16, SchemaEntry>, e: SchemaEntry) -> bool {
    exists|k: u16| #[trigger] m.contains_key(k) && m[k] == e
}

/// Whether every entry of `m` is stored under its own command ID.
pub open spec fn keyed_by_id(m: Map<u16, SchemaEntry>) -> bool {
    forall|k: u16| #[trigger] m.contains_key(k) ==> m[k].cmd_id == k
}

/// In-memory cache of command schemas keyed by command ID.
#[derive(Debug)]
pub struct SchemaCache {
    entries: HashMap<u16, SchemaEntry>,
}

impl View for SchemaCache {
    type V = Map<u16, SchemaEntry>;

    closed spec fn view(&self) -> Map<u16, SchemaEntry> {
        self.entries@
    }
}

impl SchemaCache {
    /// Each entry is stored under its own command ID, and there are finitely
    /// many.
    #[verifier::type_invariant]
    spec fn well_keyed(self) -> bool {
        keyed_by_id(self.entries@) && self.entries@.dom().finite()
    }

    /// An empty cache.
    pub fn new() -> (r: Self)
        ensures
            r@ == Map::<u16, SchemaEntry>::empty(),
    {
        SchemaCache { entries: HashMap::new() }
    }

    /// Insert an entry under its command ID, replacing any entry there.
    pub fn insert(&mut self, entry: SchemaEntry)
        ensures
            final(self)@ == old(self)@.insert(entry.cmd_id, entry),
            keyed_by_id(final(self)@),
            final(self)@.dom().finite(),
    {
        proof {
            use_type_invariant(&*self);
        }
        let id = entry.cmd_id;
        let mut entries = HashMap::new();
        std::mem::swap(&mut entries, &mut self.entries);
        entries.insert(id, entry);
        self.entries = entries;
    }

    /// The entry cached under `cmd_id`, if any: the entry whose ID it is.
    pub fn get(&self, cmd_id: u16) -> (r: Option<&SchemaEntry>)
        ensures
            r is Some <==> self@.contains_key(cmd_id),
            r matches Some(e) ==> *e == self@[cmd_id] && e.cmd_id == cmd_id,
            keyed_by_id(self@),
            self@.dom().finite(),
    {
        proof {
            use_type_invariant(self);
        }
        self.entries.get(&cmd_id)
    }

    /// Remove the entry cached under `cmd_id`, if any.
    pub fn invalidate(&mut self, cmd_id: u16)
        ensures
            final(self)@ == old(self)@.remove(cmd_id),
            keyed_by_id(final(self)@),
            final(self)@.dom().finite(),
    {
        proof {
            use_type_invariant(&*self);
        }
        let mut entries = HashMap::new();
        std::mem::swap(&mut entries, &mut self.entries);
        entries.remove(&cmd_id);
        self.entries = entries;
    }

    /// Remove all entries.
    pub fn clear(&mut self)
        ensures
            final(self)@ == Map::<u16, SchemaEntry>::empty(),
    {
        self.entries = HashMap::new();
    }

    /// Number of cached entries.
    pub fn len(&self) -> (n: usize)
        ensures
            n == self@.len(),
            keyed_by_id(self@),
            self@.dom().finite(),
    {
        proof {
            use_type_invariant(self);
        }
        self.entries.len()
    }

    /// Whether the cache holds no entry.
    pub fn is_empty(&self) -> (b: bool)
        ensures
            b <==> self@.len() == 0,
    {
        proof {
            use_type_invariant(self);
        }
        self.entries.len() == 0
    }

    /// All cached entries, in unspecified order; each is the one cached
    /// under its own command ID.
    pub fn iter(&self) -> (out: Vec<&SchemaEntry>)
        ensures
            out@.len() == self@.len(),
            forall|i: int| 0 <= i < out@.len() ==> is_cached(self@, *#[trigger] out@[i]),
            forall|i: int|
                0 <= i < out@.len() ==> self@.contains_key((#[trigger] out@[i]).cmd_id)
                    && self@[out@[i].cmd_id] == *out@[i],
            forall|k: u16|
                #[trigger] self@.contains_key(k) ==> exists|i: int|
                    0 <= i < out@.len() && *out@[i] == self@[k],
            keyed_by_id(self@),
            self@.dom().finite(),
    {
        proof {
            use_type_invariant(self);
        }
        let mut out: Vec<&SchemaEntry> = Vec::new();
        let ghost pairs = vstd::std_specs::hash::spec_hash_map_iter(&self.entries).remaining();
        for kv in it: self.entries.iter()
            invariant
                it.seq() == pairs,
                out@.len() == it.index(),
                forall|i: int| 0 <= i < it.index() ==> out@[i] == pairs[i].1,
        {
            out.push(kv.1);
        }
        proof {
            assert(out@.len() == pairs.len());
            assert forall|i: int| 0 <= i < out@.len() implies is_cached(self@, *#[trigger] out@[i]) by {
                let k = *pairs[i].0;
                assert(out@[i] == pairs[i].1);
                assert(self.entries@.contains_key(*pairs[i].0));
                assert(self.entries@[*pairs[i].0] == *pairs[i].1);
                assert(self@.contains_key(k) && self@[k] == *out@[i]);
            }
            assert forall|k: u16| #[trigger] self@.contains_key(k) implies exists|i: int|
                0 <= i < out@.len() && *out@[i] == self@[k] by {
                assert(self.entries@.contains_key(k));
                assert(pairs.contains((&k, &self.entries@[k])));
                let i = choose|i: int| 0 <= i < pairs.len() && pairs[i] == (&k, &self.entries@[k]);
                assert(*out@[i] == self@[k]);
            }
        }
        out
    }
}

} // verus!

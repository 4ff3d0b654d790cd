use postcard_schema::Schema;
use telepath::schema::{SchemaCache, SchemaEntry};

fn entry(name: &str, cmd_id: u16, args_schema: Vec<u8>, ret_schema: Vec<u8>) -> SchemaEntry {
    SchemaEntry {
        name: name.to_string(),
        cmd_id,
        args_schema,
        ret_schema,
        arg_names: vec![],
    }
}

#[test]
fn lib_schema_cache_insert_and_get() {
    let mut cache = SchemaCache::new();
    cache.insert(entry("ping", 0x0001, vec![], vec![]));
    assert!(cache.get(0x0001).is_some());
    assert!(cache.get(0x0002).is_none());
    assert_eq!(cache.len(), 1);
}

#[test]
fn lib_schema_cache_invalidate() {
    let mut cache = SchemaCache::new();
    cache.insert(entry("ping", 0x0001, vec![], vec![]));
    cache.invalidate(0x0001);
    assert!(cache.is_empty());
}

#[test]
fn schema_cache_clear_removes_all_entries() {
    let mut cache = SchemaCache::new();
    cache.insert(entry("a", 0x0001, vec![], vec![]));
    cache.insert(entry("b", 0x0002, vec![], vec![]));
    assert_eq!(cache.len(), 2);
    cache.clear();
    assert!(cache.is_empty(), "clear() must remove all entries");
}

#[test]
fn schema_cache_iter_yields_inserted_entries() {
    let mut cache = SchemaCache::new();
    cache.insert(entry("a", 0x0001, vec![1], vec![]));
    cache.insert(entry("b", 0x0002, vec![], vec![2]));
    let mut names: Vec<&str> = cache.iter().iter().map(|e| e.name.as_str()).collect();
    names.sort();
    assert_eq!(names, vec!["a", "b"]);
}

#[test]
fn schema_cache_iter_is_empty_on_empty_cache() {
    assert_eq!(SchemaCache::new().iter().len(), 0);
}

#[test]
fn schema_cache_insert_replaces_same_id() {
    let mut cache = SchemaCache::new();
    cache.insert(entry("old", 0x0007, vec![], vec![]));
    cache.insert(entry("new", 0x0007, vec![9], vec![]));
    assert_eq!(cache.len(), 1);
    let e = cache.get(0x0007).unwrap();
    assert_eq!(e.name, "new");
    assert_eq!(e.args_schema, vec![9]);
}

const FIXTURE_UNIT: &[u8] = &[0x02, 0x28, 0x29, 0x13];
const FIXTURE_U32: &[u8] = &[0x03, 0x75, 0x33, 0x32, 0x08];

#[test]
fn fixture_unit_matches_current_postcard_schema() {
    let expected: Vec<u8> = postcard::to_allocvec(&<() as Schema>::SCHEMA).expect("serialize");
    assert_eq!(FIXTURE_UNIT, expected.as_slice());
}

#[test]
fn fixture_u32_matches_current_postcard_schema() {
    let expected: Vec<u8> = postcard::to_allocvec(&<u32 as Schema>::SCHEMA).expect("serialize");
    assert_eq!(FIXTURE_U32, expected.as_slice());
}

#[test]
fn schema_entry_decoded_args_schema_roundtrip() {
    let entry = SchemaEntry {
        name: "ping".into(),
        cmd_id: 1,
        args_schema: FIXTURE_UNIT.to_vec(),
        ret_schema: FIXTURE_U32.to_vec(),
        arg_names: vec![],
    };
    let args = entry.decoded_args_schema().expect("args decode");
    assert_eq!(args.name.as_str(), "()");
    assert!(matches!(args.ty, telepath::data_model::DataModel::Unit));
    let ret = entry.decoded_ret_schema().expect("ret decode");
    assert_eq!(ret.name.as_str(), "u32");
    assert!(matches!(ret.ty, telepath::data_model::DataModel::U32));
}

#[test]
fn schema_entry_decode_returns_err_on_garbage() {
    let entry = SchemaEntry {
        name: "x".into(),
        cmd_id: 1,
        args_schema: vec![0xFF, 0xFF, 0xFF],
        ret_schema: vec![],
        arg_names: vec![],
    };
    assert!(entry.decoded_args_schema().is_err());
    assert!(matches!(entry.decoded_ret_schema(), Err(telepath::client::HostError::SerdeError(_))));
}

#[test]
fn decoded_schema_of_a_nested_type() {
    let bytes = postcard::to_allocvec(&<(u8, Option<bool>, u16) as Schema>::SCHEMA).unwrap();
    let entry = SchemaEntry {
        name: "t".into(),
        cmd_id: 2,
        args_schema: bytes,
        ret_schema: vec![],
        arg_names: vec![],
    };
    let t = entry.decoded_args_schema().expect("decodes");
    match t.ty {
        telepath::data_model::DataModel::Tuple(elems) => {
            assert_eq!(elems.len(), 3);
            assert!(matches!(elems[0].ty, telepath::data_model::DataModel::U8));
            assert!(matches!(elems[1].ty, telepath::data_model::DataModel::Option(_)));
        }
        _ => panic!("expected a tuple"),
    }
}

#[test]
fn schema_cache_insert_and_get() {
    let mut cache = SchemaCache::new();
    let e = SchemaEntry {
        name: "ping".to_string(),
        cmd_id: 0x0001,
        args_schema: vec![],
        ret_schema: vec![],
        arg_names: vec![],
    };
    cache.insert(e);
    assert!(cache.get(0x0001).is_some());
    assert!(cache.get(0x0002).is_none());
    assert_eq!(cache.len(), 1);
}

#[test]
fn schema_cache_invalidate() {
    let mut cache = SchemaCache::new();
    cache.insert(SchemaEntry {
        name: "ping".to_string(),
        cmd_id: 0x0001,
        args_schema: vec![],
        ret_schema: vec![],
        arg_names: vec![],
    });
    cache.invalidate(0x0001);
    assert!(cache.is_empty());
}

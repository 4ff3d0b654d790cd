use telepath::text::{join_names, split_names};

#[test]
fn split_names_empty_is_none() {
    assert!(split_names("").is_empty());
}

#[test]
fn split_names_splits_on_commas() {
    assert_eq!(split_names("a,b"), vec!["a".to_string(), "b".to_string()]);
    assert_eq!(split_names("x"), vec!["x".to_string()]);
    assert_eq!(split_names("a,,b"), vec!["a".to_string(), "".to_string(), "b".to_string()]);
    assert_eq!(split_names(","), vec!["".to_string(), "".to_string()]);
}

#[test]
fn join_then_split_gives_names_back() {
    let names = vec!["amount".to_string(), "b".to_string(), "ctr".to_string()];
    let joined = join_names(&names, ",");
    assert_eq!(joined, "amount,b,ctr");
    assert_eq!(split_names(&joined), names);
    assert_eq!(join_names(&vec!["u32".to_string(), "u8".to_string()], ", "), "u32, u8");
    assert_eq!(join_names(&vec![], ","), "");
}

use serde_llsd::value::{dict_insert_exec, dict_lookup, LLSDValue};

fn s(x: &str) -> String {
    x.to_string()
}

#[test]
fn insert_then_lookup_gives_inserted_value() {
    let mut m: Vec<(String, LLSDValue)> = vec![(s("a"), LLSDValue::Integer(1))];
    dict_insert_exec(&mut m, s("b"), LLSDValue::Integer(2));
    assert_eq!(dict_lookup(&m, "b"), Some(&LLSDValue::Integer(2)));
    dict_insert_exec(&mut m, s("a"), LLSDValue::Boolean(true));
    assert_eq!(dict_lookup(&m, "a"), Some(&LLSDValue::Boolean(true)));
    assert_eq!(dict_lookup(&m, "b"), Some(&LLSDValue::Integer(2)));
    assert_eq!(dict_lookup(&m, "c"), None);
    assert_eq!(m.len(), 2);
    assert_eq!(m[0].0, "a");
}

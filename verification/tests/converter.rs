use serde_llsd::value::LLSDValue;
use serde_llsd::{get, get_nested_vec, get_opt, get_vec, FromLLSDValue};

fn s(x: &str) -> String {
    x.to_string()
}

fn sample() -> Vec<(String, LLSDValue)> {
    vec![
        (s("name"), LLSDValue::String(s("Joe"))),
        (s("count"), LLSDValue::Integer(-1)),
        (s("flag"), LLSDValue::Boolean(true)),
        (s("id"), LLSDValue::UUID(0x550e8400_e29b_41d4_a716_446655440000)),
        (
            s("list"),
            LLSDValue::Array(vec![LLSDValue::Integer(1), LLSDValue::String(s("x")), LLSDValue::Integer(3)]),
        ),
        (
            s("nested"),
            LLSDValue::Array(vec![
                LLSDValue::Array(vec![LLSDValue::Integer(1), LLSDValue::Integer(2)]),
                LLSDValue::Integer(99),
                LLSDValue::Array(vec![LLSDValue::Boolean(false), LLSDValue::Integer(4)]),
            ]),
        ),
        (
            s("table"),
            LLSDValue::Dict(vec![
                (s("a"), LLSDValue::Integer(1)),
                (s("b"), LLSDValue::String(s("no"))),
                (s("c"), LLSDValue::Integer(3)),
            ]),
        ),
    ]
}

#[test]
fn get_converts_or_defaults() {
    let m = sample();
    assert_eq!(get::<String>("name", &m), "Joe");
    assert_eq!(get::<i32>("count", &m), -1);
    assert_eq!(get::<i32>("missing", &m), 0);
    assert_eq!(get::<i32>("name", &m), 0);
    assert_eq!(get::<bool>("flag", &m), true);
    assert_eq!(get::<String>("count", &m), "");
}

#[test]
fn integer_conversions_cast() {
    let m = sample();
    assert_eq!(get_opt::<u16>("count", &m), Some(0xffff));
    assert_eq!(get_opt::<u32>("count", &m), Some(0xffff_ffff));
    assert_eq!(get_opt::<i64>("count", &m), Some(-1));
    assert_eq!(get_opt::<u16>("name", &m), None);
}

#[test]
fn uuid_conversion() {
    let m = sample();
    let u: uuid::Uuid = get_opt("id", &m).unwrap();
    assert_eq!(u.to_string(), "550e8400-e29b-41d4-a716-446655440000");
    assert_eq!(get_opt::<uuid::Uuid>("name", &m), None);
}

#[test]
fn vec_filters_items() {
    let m = sample();
    assert_eq!(get_vec::<i32>("list", &m), Some(vec![1, 3]));
    assert_eq!(get_vec::<i32>("name", &m), None);
    assert_eq!(get_vec::<i32>("missing", &m), None);
}

#[test]
fn nested_vec_flattens_inner_arrays() {
    let m = sample();
    assert_eq!(get_nested_vec::<i32>("nested", &m), Some(vec![1, 2, 4]));
    assert_eq!(get_nested_vec::<bool>("nested", &m), Some(vec![false]));
    assert_eq!(get_nested_vec::<i32>("list", &m), Some(vec![]));
    assert_eq!(get_nested_vec::<i32>("flag", &m), None);
}

#[test]
fn map_conversion_keeps_converting_entries() {
    let m = sample();
    let t: Vec<(String, i32)> = get_opt("table", &m).unwrap();
    assert_eq!(t, vec![(s("a"), 1), (s("c"), 3)]);
    assert_eq!(<Vec<(String, i32)> as FromLLSDValue>::from_llsd(&LLSDValue::Integer(1)), None);
}

#[test]
fn integer_keyed_maps_convert() {
    let v = LLSDValue::Dict(vec![
        (s("1"), LLSDValue::Integer(10)),
        (s("x"), LLSDValue::Integer(2)),
        (s("+2"), LLSDValue::Integer(20)),
        (s("01"), LLSDValue::Integer(11)),
        (s("3"), LLSDValue::String(s("no"))),
        (s("-4"), LLSDValue::Integer(40)),
        (s("4294967296"), LLSDValue::Integer(5)),
        (s(""), LLSDValue::Integer(6)),
    ]);
    let unsigned: Vec<(u32, i32)> = FromLLSDValue::from_llsd(&v).unwrap();
    assert_eq!(unsigned, vec![(1, 11), (2, 20)]);
    let short: Vec<(u16, i32)> = FromLLSDValue::from_llsd(&v).unwrap();
    assert_eq!(short, vec![(1, 11), (2, 20)]);
    let wide: Vec<(u64, i32)> = FromLLSDValue::from_llsd(&v).unwrap();
    assert_eq!(wide, vec![(1, 11), (2, 20), (4294967296, 5)]);
    let signed: Vec<(i32, i32)> = FromLLSDValue::from_llsd(&v).unwrap();
    assert_eq!(signed, vec![(1, 11), (2, 20), (-4, 40)]);
    let signed_wide: Vec<(i64, i32)> = FromLLSDValue::from_llsd(&v).unwrap();
    assert_eq!(signed_wide, vec![(1, 11), (2, 20), (-4, 40), (4294967296, 5)]);
    let not_a_map: Option<Vec<(u32, i32)>> = FromLLSDValue::from_llsd(&LLSDValue::Integer(1));
    assert!(not_a_map.is_none());
}

#[test]
fn integer_keyed_map_from_entry() {
    let m = vec![(
        s("ids"),
        LLSDValue::Dict(vec![(s("7"), LLSDValue::String(s("seven"))), (s("8"), LLSDValue::Integer(8))]),
    )];
    assert_eq!(get_opt::<Vec<(u32, String)>>("ids", &m), Some(vec![(7, s("seven"))]));
    assert_eq!(get_opt::<Vec<(u32, String)>>("missing", &m), None);
}

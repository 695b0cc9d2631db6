use serde_llsd::value::LLSDValue;
use serde_llsd::de::newline::{parse_llwearable_to_llsd, WearableError, LLSDNEWLINEPREFIX};

fn s(x: &str) -> String {
    x.to_string()
}

fn entry<'a>(v: &'a LLSDValue, key: &str) -> &'a LLSDValue {
    match v {
        LLSDValue::Dict(pairs) => &pairs.iter().find(|(k, _)| k == key).unwrap().1,
        _ => panic!("not a map"),
    }
}

const SHIRT: &str = "LLWearable version 22\n\
New Shirt\n\
\n\
\tpermissions 0\n\
\t{\n\
\t\tbase_mask\t7fffffff\n\
\t\tgroup_mask\t00000000\n\
\t\tnext_owner_mask\t00082000\n\
\t\tcreator_id\t11111111-2222-3333-4444-555555555555\n\
\t}\n\
\tsale_info\t0\n\
\t{\n\
\t\tsale_type\tnot\n\
\t\tsale_price\t10\n\
\t}\n\
type 4\n\
parameters 2\n\
781 0.5\n\
800 -1\n\
textures 1\n\
1 5748decc-f629-461c-9a36-a35a221fe21f\n";

#[test]
fn shirt_parses_to_expected_map() {
    let v = parse_llwearable_to_llsd(SHIRT).unwrap();
    let keys: Vec<&str> = match &v {
        LLSDValue::Dict(pairs) => pairs.iter().map(|(k, _)| k.as_str()).collect(),
        _ => panic!("not a map"),
    };
    assert_eq!(keys, vec!["version", "name", "permissions", "sale_info", "parameters", "textures"]);
    assert_eq!(entry(&v, "version"), &LLSDValue::Integer(22));
    assert_eq!(entry(&v, "name"), &LLSDValue::String(s("New Shirt")));
    assert_eq!(
        entry(&v, "permissions"),
        &LLSDValue::Dict(vec![
            (s("base_mask"), LLSDValue::Integer(0x7fffffff)),
            (s("group_mask"), LLSDValue::Integer(0)),
            (s("next_owner_mask"), LLSDValue::Integer(0x82000)),
            (s("creator_id"), LLSDValue::UUID(0x11111111_2222_3333_4444_555555555555)),
        ])
    );
    assert_eq!(
        entry(&v, "sale_info"),
        &LLSDValue::Dict(vec![
            (s("sale_type"), LLSDValue::String(s("not"))),
            (s("sale_price"), LLSDValue::Integer(10)),
        ])
    );
    assert_eq!(
        entry(&v, "parameters"),
        &LLSDValue::Dict(vec![
            (s("781"), LLSDValue::Real(s("0.5"))),
            (s("800"), LLSDValue::Real(s("-1"))),
        ])
    );
    assert_eq!(
        entry(&v, "textures"),
        &LLSDValue::Dict(vec![(s("1"), LLSDValue::UUID(0x5748decc_f629_461c_9a36_a35a221fe21f))])
    );
}

#[test]
fn prefix_constant_is_a_valid_header() {
    let text = format!("{}\nname\n", LLSDNEWLINEPREFIX);
    let v = parse_llwearable_to_llsd(&text).unwrap();
    assert_eq!(entry(&v, "version"), &LLSDValue::Integer(22));
    assert_eq!(entry(&v, "permissions"), &LLSDValue::Dict(vec![]));
}

#[test]
fn crlf_line_endings_are_trimmed() {
    let v = parse_llwearable_to_llsd("LLWearable version 18\r\nHat\r\n").unwrap();
    assert_eq!(entry(&v, "version"), &LLSDValue::Integer(18));
    assert_eq!(entry(&v, "name"), &LLSDValue::String(s("Hat")));
}

#[test]
fn permissions_without_closing_brace_end_at_end_of_text() {
    let v = parse_llwearable_to_llsd("LLWearable version 22\nx\npermissions 0\n{\nowner_mask 1f\n").unwrap();
    assert_eq!(entry(&v, "permissions"), &LLSDValue::Dict(vec![(s("owner_mask"), LLSDValue::Integer(31))]));
}

#[test]
fn repeated_parameter_keeps_last_value() {
    let v = parse_llwearable_to_llsd("LLWearable version 22\nx\nparameters 2\n5 1\n5 2\n").unwrap();
    assert_eq!(entry(&v, "parameters"), &LLSDValue::Dict(vec![(s("5"), LLSDValue::Real(s("2")))]));
}

#[test]
fn wearable_errors() {
    assert_eq!(parse_llwearable_to_llsd(""), Err(WearableError::UnexpectedEnd));
    assert_eq!(parse_llwearable_to_llsd("LLWearable"), Err(WearableError::BadHeader));
    assert_eq!(parse_llwearable_to_llsd("LLWearable version x\nn\n"), Err(WearableError::InvalidNumber));
    assert_eq!(parse_llwearable_to_llsd("LLWearable version 22\n"), Err(WearableError::UnexpectedEnd));
    assert_eq!(
        parse_llwearable_to_llsd("LLWearable version 22\nn\npermissions 0\nx\n"),
        Err(WearableError::MissingBrace)
    );
    assert_eq!(
        parse_llwearable_to_llsd("LLWearable version 22\nn\npermissions 0\n"),
        Err(WearableError::UnexpectedEnd)
    );
    assert_eq!(
        parse_llwearable_to_llsd("LLWearable version 22\nn\npermissions 0\n{\nowner_id 1-2\n}\n"),
        Err(WearableError::InvalidUuid)
    );
    assert_eq!(
        parse_llwearable_to_llsd("LLWearable version 22\nn\npermissions 0\n{\nbase_mask ffffffff\n}\n"),
        Err(WearableError::InvalidNumber)
    );
    assert_eq!(
        parse_llwearable_to_llsd("LLWearable version 22\nn\nsale_info 0\n{\nsale_type\n}\n"),
        Err(WearableError::BadSaleInfoLine)
    );
    assert_eq!(
        parse_llwearable_to_llsd("LLWearable version 22\nn\nsale_info 0\n{\nprice 5\n}\n"),
        Err(WearableError::UnknownSaleField)
    );
    assert_eq!(
        parse_llwearable_to_llsd("LLWearable version 22\nn\nsale_info 0\n{\nsale_price ten\n}\n"),
        Err(WearableError::InvalidNumber)
    );
    assert_eq!(
        parse_llwearable_to_llsd("LLWearable version 22\nn\nparameters\n"),
        Err(WearableError::MissingCount)
    );
    assert_eq!(
        parse_llwearable_to_llsd("LLWearable version 22\nn\ntextures -1\n"),
        Err(WearableError::InvalidNumber)
    );
    assert_eq!(
        parse_llwearable_to_llsd("LLWearable version 22\nn\nparameters 3\n1 2\n"),
        Err(WearableError::UnexpectedEnd)
    );
    assert_eq!(
        parse_llwearable_to_llsd("LLWearable version 22\nn\nparameters 1\n1 x\n"),
        Err(WearableError::InvalidNumber)
    );
    assert_eq!(
        parse_llwearable_to_llsd("LLWearable version 22\nn\ntextures 1\n1 nope\n"),
        Err(WearableError::InvalidUuid)
    );
}

#[test]
fn other_top_level_lines_are_ignored() {
    let lines: Vec<&str> = SHIRT.split('\n').collect();
    let with_extra = format!("{}\n{}\nwear_flags 3\n{}", lines[0], lines[1], lines[2..].join("\n"));
    assert_eq!(parse_llwearable_to_llsd(&with_extra), parse_llwearable_to_llsd(SHIRT));
    let with_blank = format!("{}\n{}\n\n{}", lines[0], lines[1], lines[2..].join("\n"));
    assert_eq!(parse_llwearable_to_llsd(&with_blank), parse_llwearable_to_llsd(SHIRT));
}

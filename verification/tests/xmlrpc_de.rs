use serde_llsd::value::LLSDValue;
use serde_llsd::xml_event::XmlEvent;
use serde_llsd::de::xml_rpc::{flatten_login_response, from_events, from_str, xml_events_of, XmlRpcError};

fn s(x: &str) -> String {
    x.to_string()
}

fn get<'a>(v: &'a LLSDValue, key: &str) -> Option<&'a LLSDValue> {
    match v {
        LLSDValue::Dict(pairs) => pairs.iter().find(|(k, _)| k == key).map(|(_, v)| v),
        _ => None,
    }
}

fn response(value: &str) -> String {
    format!(
        "<?xml version=\"1.0\" encoding=\"utf-8\"?><methodResponse><params><param><value>{}</value></param></params></methodResponse>",
        value
    )
}

const LOGIN: &str = r#"<?xml version="1.0" encoding="utf-8"?>
<methodResponse>
  <params>
    <param>
      <value>
        <struct>
          <member><name>login</name><value><string>true</string></value></member>
          <member><name>first_name</name><value><string>Joe</string></value></member>
          <member><name>seconds</name><value><i4>42</i4></value></member>
          <member><name>agent_id</name><value><string>550e8400-e29b-41d4-a716-446655440000</string></value></member>
        </struct>
      </value>
    </param>
  </params>
</methodResponse>"#;

#[test]
fn login_response_struct() {
    let v = from_str(LOGIN).unwrap();
    assert_eq!(get(&v, "login"), Some(&LLSDValue::Boolean(true)));
    assert_eq!(get(&v, "first_name"), Some(&LLSDValue::String(s("Joe"))));
    assert_eq!(get(&v, "seconds"), Some(&LLSDValue::Integer(42)));
    assert_eq!(get(&v, "agent_id"), Some(&LLSDValue::UUID(0x550e8400_e29b_41d4_a716_446655440000)));
}

#[test]
fn primitive_types() {
    let v = |x: &str| from_str(&response(x)).unwrap();
    assert_eq!(v("<integer> -7 </integer>"), LLSDValue::Integer(-7));
    assert_eq!(v("<boolean>1</boolean>"), LLSDValue::Boolean(true));
    assert_eq!(v("<boolean>false</boolean>"), LLSDValue::Boolean(false));
    assert_eq!(v("<string>FALSE</string>"), LLSDValue::Boolean(false));
    assert_eq!(v("<string>a &amp; b</string>"), LLSDValue::String(s("a & b")));
    assert_eq!(v("<uri>http://x/</uri>"), LLSDValue::String(s("http://x/")));
    assert_eq!(v("<uuid></uuid>"), LLSDValue::UUID(0));
    assert_eq!(v("<uuid/>"), LLSDValue::UUID(0));
    assert_eq!(v("<real>1.5e3</real>"), LLSDValue::Real(s("1.5e3")));
    assert_eq!(v("<real>nan</real>"), LLSDValue::Real(s("nan")));
    assert_eq!(v("<undef></undef>"), LLSDValue::Undefined);
    assert_eq!(v("<date>2015-05-15T00:00:00Z</date>"), LLSDValue::Date(1431648000));
    assert_eq!(v("<binary>aGVsbG8=</binary>"), LLSDValue::Binary(b"hello".to_vec()));
    assert_eq!(v("<string>a<!-- c -->b</string>"), LLSDValue::String(s("a b")));
}

#[test]
fn invalid_primitive_values() {
    let e = |x: &str| from_str(&response(x)).unwrap_err();
    assert_eq!(e("<integer>99999999999</integer>"), XmlRpcError::InvalidValue);
    assert_eq!(e("<integer></integer>"), XmlRpcError::InvalidValue);
    assert_eq!(e("<boolean>yes</boolean>"), XmlRpcError::InvalidValue);
    assert_eq!(e("<real>1.2.3</real>"), XmlRpcError::InvalidValue);
    assert_eq!(e("<uuid>xyz</uuid>"), XmlRpcError::InvalidValue);
    assert_eq!(e("<date>yesterday</date>"), XmlRpcError::InvalidValue);
    assert_eq!(e("<binary>***</binary>"), XmlRpcError::InvalidValue);
}

#[test]
fn top_level_array_of_arrays_flattens_to_empty_map() {
    let v = from_str(&response(
        "<array><data>\
         <value><struct><member><name>a</name><value><i4>1</i4></value></member></struct></value>\
         <value><struct><member><name>b</name><value><i4>2</i4></value></member></struct></value>\
         </data></array>",
    ))
    .unwrap();
    assert_eq!(v, LLSDValue::Dict(vec![]));
}

#[test]
fn container_merges_an_array_of_maps() {
    let v = from_str(&response(
        "<struct><member><name>l</name><value><array><data>\
         <value><array><data><value><struct><member><name>a</name><value><i4>1</i4></value></member></struct></value></data></array></value>\
         <value><i4>5</i4></value>\
         </data></array></value></member></struct>",
    ))
    .unwrap();
    assert_eq!(
        get(&v, "l"),
        Some(&LLSDValue::Array(vec![LLSDValue::Array(vec![
            LLSDValue::Dict(vec![(s("a"), LLSDValue::Integer(1))]),
            LLSDValue::Integer(5),
        ])]))
    );
}

#[test]
fn array_of_plain_values() {
    let v = from_str(&response(
        "<array><data><value><i4>1</i4></value><value><string>x</string></value></data></array>",
    ))
    .unwrap();
    assert_eq!(
        v,
        LLSDValue::Dict(vec![])
    );
    let inner = from_str(&response(
        "<struct><member><name>l</name><value><array><data><value><i4>1</i4></value><value><string>x</string></value></data></array></value></member></struct>",
    ))
    .unwrap();
    assert_eq!(
        get(&inner, "l"),
        Some(&LLSDValue::Array(vec![LLSDValue::Array(vec![
            LLSDValue::Integer(1),
            LLSDValue::String(s("x"))
        ])]))
    );
}

#[test]
fn repeated_member_keeps_last_value() {
    let v = from_str(&response(
        "<struct><member><name>k</name><value><i4>1</i4></value></member>\
         <member><name>k</name><value><i4>2</i4></value></member></struct>",
    ))
    .unwrap();
    assert_eq!(v, LLSDValue::Dict(vec![(s("k"), LLSDValue::Integer(2))]));
}

#[test]
fn empty_struct_and_empty_container() {
    assert_eq!(from_str(&response("<struct></struct>")).unwrap(), LLSDValue::Dict(vec![]));
    assert_eq!(from_str(&response("")).unwrap(), LLSDValue::Dict(vec![]));
}

#[test]
fn map_with_keys() {
    let v = from_str(&response("<map><key>a</key><integer>3</integer></map>")).unwrap();
    assert_eq!(v, LLSDValue::Dict(vec![(s("a"), LLSDValue::Integer(3))]));
}

#[test]
fn error_kinds() {
    assert_eq!(from_str(""), Err(XmlRpcError::NoResponse));
    assert_eq!(from_str("<other/>"), Err(XmlRpcError::UnexpectedElement));
    assert_eq!(
        from_str("<methodResponse><params></params></methodResponse><methodResponse><params></params></methodResponse>"),
        Err(XmlRpcError::DuplicateResponse)
    );
    assert_eq!(from_str("<methodResponse></methodResponse>"), Err(XmlRpcError::UnexpectedEvent));
    assert_eq!(from_str(&response("<struct><foo/></struct>")), Err(XmlRpcError::UnknownType));
    assert_eq!(
        from_str(&response("<struct><member><value/></member></struct>")),
        Err(XmlRpcError::UnexpectedElement)
    );
    assert_eq!(from_str("<methodResponse><params>"), Err(XmlRpcError::UnexpectedEnd));
    assert_eq!(from_str("<methodResponse><params></x></methodResponse>"), Err(XmlRpcError::Syntax));
    assert_eq!(from_str(&response("<string>&bogus;</string>")), Err(XmlRpcError::Syntax));
}

#[test]
fn unmatched_tags_from_events() {
    let ev = vec![
        XmlEvent::Start(s("methodResponse")),
        XmlEvent::Start(s("member")),
        XmlEvent::Start(s("name")),
        XmlEvent::Text(Some(s("k"))),
        XmlEvent::End(s("nome")),
        XmlEvent::Eof,
    ];
    assert_eq!(from_events(&ev), Err(XmlRpcError::UnmatchedTags));
}

#[test]
fn events_of_text() {
    let ev = xml_events_of("<a>x<!--c--></a>");
    assert_eq!(
        ev,
        vec![
            XmlEvent::Start(s("a")),
            XmlEvent::Text(Some(s("x"))),
            XmlEvent::Comment,
            XmlEvent::End(s("a")),
            XmlEvent::Eof
        ]
    );
}

#[test]
fn flatten_merges_maps_and_is_idempotent() {
    let a = LLSDValue::Dict(vec![(s("a"), LLSDValue::Integer(1))]);
    let b = LLSDValue::Dict(vec![(s("a"), LLSDValue::Integer(2)), (s("b"), LLSDValue::Integer(3))]);
    let once = flatten_login_response(LLSDValue::Array(vec![a, LLSDValue::Integer(9), b]));
    let expected = LLSDValue::Dict(vec![(s("a"), LLSDValue::Integer(2)), (s("b"), LLSDValue::Integer(3))]);
    assert_eq!(once, expected);
    let twice = flatten_login_response(once);
    assert_eq!(twice, expected);
    assert_eq!(flatten_login_response(LLSDValue::Integer(4)), LLSDValue::Integer(4));
}

#[test]
fn uuid_forms() {
    let v = |x: &str| from_str(&response(x)).unwrap();
    let bits = 0x67e55044_10b1_426f_9247_bb680e5fe0c8u128;
    assert_eq!(v("<uuid>67e5504410b1426f9247bb680e5fe0c8</uuid>"), LLSDValue::UUID(bits));
    assert_eq!(v("<uuid>67E55044-10B1-426F-9247-BB680E5FE0C8</uuid>"), LLSDValue::UUID(bits));
    assert_eq!(v("<uuid>{67e55044-10b1-426f-9247-bb680e5fe0c8}</uuid>"), LLSDValue::UUID(bits));
    assert_eq!(v("<uuid>URN:uuid:67e55044-10b1-426f-9247-bb680e5fe0c8</uuid>"), LLSDValue::UUID(bits));
    let e = |x: &str| from_str(&response(x)).unwrap_err();
    assert_eq!(e("<uuid>67e55044-10b1-426f-9247_bb680e5fe0c8</uuid>"), XmlRpcError::InvalidValue);
    assert_eq!(e("<uuid>(67e55044-10b1-426f-9247-bb680e5fe0c8)</uuid>"), XmlRpcError::InvalidValue);
    assert_eq!(v("<string>not-a-uuid</string>"), LLSDValue::String(s("not-a-uuid")));
}

use serde_llsd::value::LLSDValue;
use serde_llsd::ser::xml::xml_escape;
use serde_llsd::ser::xml_rpc::{to_string, to_writer_xmlrpc};

fn s(x: &str) -> String {
    x.to_string()
}

#[test]
fn compact_struct() {
    let v = LLSDValue::Dict(vec![
        (s("first"), LLSDValue::String(s("Joe"))),
        (s("n"), LLSDValue::Integer(-42)),
    ]);
    assert_eq!(
        to_string(&v, false, "login_to_simulator"),
        "<?xml version=\"1.0\"?><methodCall><methodName>login_to_simulator</methodName>\
<params><param><value><struct><member><name>first</name><value><string>Joe</string></value></member>\
<member><name>n</name><value><string>-42</string></value></member></struct>\
</value></param></params></methodCall>"
    );
}

#[test]
fn indented_array() {
    let v = LLSDValue::Array(vec![LLSDValue::Boolean(true), LLSDValue::Undefined]);
    let expected = [
        "<?xml version=\"1.0\"?>\n<methodCall>\n    <methodName>m</methodName>\n",
        "    <params>\n        <param>\n            <value>\n",
        "            <array>\n",
        "                <data>\n",
        "                    <value>\n",
        "                        <string>true</string>\n",
        "                    </value>\n",
        "                    <value>\n",
        "                        <string />\n",
        "                    </value>\n",
        "                </data>\n",
        "            </array>\n",
        "            </value>\n        </param>\n    </params>\n</methodCall>\n",
    ]
    .concat();
    assert_eq!(to_string(&v, true, "m"), expected);
}

#[test]
fn indented_struct_member_name_line() {
    let v = LLSDValue::Dict(vec![(s("k"), LLSDValue::Integer(1))]);
    let out = to_string(&v, true, "m");
    assert!(out.contains(&[
        "\n            <struct>\n",
        "                <member>\n",
        "                    <name>k</name>\n",
        "                    <value>\n",
        "                        <string>1</string>\n",
        "                    </value>\n",
        "                </member>\n",
        "            </struct>\n",
    ]
    .concat()));
}

#[test]
fn leaf_texts() {
    let v = LLSDValue::Array(vec![
        LLSDValue::Integer(i32::MIN),
        LLSDValue::Date(1431648000),
        LLSDValue::Real(s("2.5")),
        LLSDValue::UUID(0x550e8400_e29b_41d4_a716_446655440000),
        LLSDValue::Binary(b"hello".to_vec()),
        LLSDValue::Boolean(false),
        LLSDValue::URI(s("http://x")),
        LLSDValue::String(s("")),
    ]);
    let out = to_string(&v, false, "m");
    assert_eq!(
        out,
        "<?xml version=\"1.0\"?><methodCall><methodName>m</methodName><params><param><value><array><data>\
<value><string>-2147483648</string></value>\
<value><string>1431648000</string></value>\
<value><string>2.5</string></value>\
<value><string>550e8400-e29b-41d4-a716-446655440000</string></value>\
<value><string>aGVsbG8=</string></value>\
<value><string>false</string></value>\
<value><string /></value>\
<value><string /></value>\
</data></array></value></param></params></methodCall>"
    );
}

#[test]
fn text_and_names_are_escaped() {
    let v = LLSDValue::Dict(vec![(s("a<b"), LLSDValue::String(s("x & \"y\" 'z' >")))]);
    let out = to_string(&v, false, "m&n");
    assert!(out.contains("<methodName>m&amp;n</methodName>"));
    assert!(out.contains("<name>a&lt;b</name>"));
    assert!(out.contains("<string>x &amp; &quot;y&quot; &apos;z&apos; &gt;</string>"));
}

#[test]
fn writer_appends() {
    let mut w = s("prefix:");
    to_writer_xmlrpc(&mut w, &LLSDValue::Integer(7), false, "m");
    assert_eq!(
        w,
        "prefix:<?xml version=\"1.0\"?><methodCall><methodName>m</methodName><params><param><value>\
<string>7</string></value></param></params></methodCall>"
    );
}

#[test]
fn escape_replaces_all_five() {
    assert_eq!(xml_escape("<a href='x'>\"&\"</a>"), "&lt;a href=&apos;x&apos;&gt;&quot;&amp;&quot;&lt;/a&gt;");
    assert_eq!(xml_escape("plain ü"), "plain ü");
}

#[test]
fn binary_is_standard_base64() {
    let one = |b: &[u8]| {
        let out = to_string(&LLSDValue::Binary(b.to_vec()), false, "m");
        let start = out.find("<value>").unwrap() + "<value>".len();
        let end = out.rfind("</value>").unwrap();
        out[start..end].to_string()
    };
    assert_eq!(one(b""), "<string />");
    assert_eq!(one(b"f"), "<string>Zg==</string>");
    assert_eq!(one(b"fo"), "<string>Zm8=</string>");
    assert_eq!(one(b"foo"), "<string>Zm9v</string>");
    assert_eq!(one(b"foob"), "<string>Zm9vYg==</string>");
    assert_eq!(one(&[0xff, 0xfe, 0xfd, 0x00]), "<string>//79AA==</string>");
}

#[test]
fn indented_lines_trim_to_compact() {
    let v = LLSDValue::Dict(vec![
        (s("first name"), LLSDValue::String(s("  Joe <x> "))),
        (
            s("list"),
            LLSDValue::Array(vec![
                LLSDValue::Integer(-7),
                LLSDValue::Real(s("1.50")),
                LLSDValue::UUID(0x550e8400_e29b_41d4_a716_446655440000),
                LLSDValue::Binary(vec![1, 2, 3, 4]),
                LLSDValue::Dict(vec![]),
                LLSDValue::Array(vec![]),
                LLSDValue::String(s("")),
            ]),
        ),
        (s("when"), LLSDValue::Date(1234567890)),
    ]);
    let indented = to_string(&v, true, "a & b");
    let compact = to_string(&v, false, "a & b");
    let flattened: String = indented.lines().map(str::trim).collect();
    assert_eq!(flattened, compact);
}

#[test]
fn to_string_is_what_the_writer_writes() {
    let v = LLSDValue::Array(vec![LLSDValue::Boolean(false), LLSDValue::String(s("x"))]);
    for indent in [false, true] {
        let mut w = String::new();
        to_writer_xmlrpc(&mut w, &v, indent, "m");
        assert_eq!(to_string(&v, indent, "m"), w);
    }
}

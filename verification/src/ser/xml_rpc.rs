//! Writing an LLSD value as an XML-RPC method call.
use vstd::prelude::*;
use crate::value::{LLSDValue, SpecLLSD, depth, depth_pairs, depth_items, view_pairs, view_items};
use crate::text::push_char;
use crate::numbers::{dec_int, push_i64};
use crate::ser::xml::{escape_spec, push_escaped};
use crate::outside::{uuid_hyphenated, base64_encoded, uuid_of_bits, uuid_to_string, base64_encode};

verus! {

broadcast use vstd::std_specs::vec::group_vec_axioms;

/// `n` spaces.
pub open spec fn pad(n: nat) -> Seq<char> {
    Seq::new(n, |i: int| ' ')
}

/// The spaces that open an indented line: `indent` of them, when indenting.
pub open spec fn indentation(indent: nat, do_indent: bool) -> Seq<char> {
    if do_indent && indent > 0 {
        pad(indent)
    } else {
        Seq::empty()
    }
}

pub open spec fn line_end(do_indent: bool) -> Seq<char> {
    if do_indent {
        seq!['\n']
    } else {
        Seq::empty()
    }
}

/// A start or end tag, on a line of its own when indenting.
pub open spec fn tag_text(name: Seq<char>, close: bool, indent: nat, do_indent: bool) -> Seq<char> {
    indentation(indent, do_indent) + seq!['<'] + (if close {
        seq!['/']
    } else {
        Seq::empty()
    }) + name + seq!['>'] + line_end(do_indent)
}

/// A `<string>` element with the escaped text; `<string />` for an empty text.
pub open spec fn string_element(text: Seq<char>, indent: nat, do_indent: bool) -> Seq<char> {
    indentation(indent, do_indent) + (if text.len() == 0 {
        "<string />"@
    } else {
        "<string>"@ + escape_spec(text) + "</string>"@
    }) + line_end(do_indent)
}

/// The `<name>` line of a struct member.
pub open spec fn name_line(key: Seq<char>, indent: nat, do_indent: bool) -> Seq<char> {
    if do_indent {
        pad(indent) + "<name>"@ + escape_spec(key) + "</name>"@ + seq!['\n']
    } else {
        "<name>"@ + escape_spec(key) + "</name>"@
    }
}

/// The text that a value other than a map or an array is written as: the decimal
/// form of an integer or a date, the text of a real, the hyphenated form of a UUID,
/// the base64 form of binary data, `true` or `false`; nothing for an undefined value
/// and for a URI.
pub open spec fn leaf_text(v: SpecLLSD) -> Seq<char> {
    match v {
        SpecLLSD::Boolean(b) => if b {
            "true"@
        } else {
            "false"@
        },
        SpecLLSD::Str(s) => s,
        SpecLLSD::Integer(i) => dec_int(i as int),
        SpecLLSD::Real(t) => t,
        SpecLLSD::UUID(bits) => uuid_hyphenated(bits),
        SpecLLSD::Binary(bytes) => base64_encoded(bytes),
        SpecLLSD::Date(d) => dec_int(d as int),
        _ => Seq::empty(),
    }
}

/// The XML-RPC form of a value: a map as a `<struct>` of `<member>`s, an array as an
/// `<array>` of `<data>`, anything else as a `<string>`. `spaces` is the indentation
/// step and `indent` the indentation of the value's own tags.
pub open spec fn value_text(v: SpecLLSD, spaces: nat, indent: nat, do_indent: bool) -> Seq<char>
    decreases v, 1nat,
{
    match v {
        SpecLLSD::Dict(pairs) => tag_text("struct"@, false, indent, do_indent) + members_text(
            pairs,
            spaces,
            indent,
            do_indent,
        ) + tag_text("struct"@, true, indent, do_indent),
        SpecLLSD::Array(items) => tag_text("array"@, false, indent, do_indent) + tag_text(
            "data"@,
            false,
            indent + spaces,
            do_indent,
        ) + items_text(items, spaces, indent, do_indent) + tag_text(
            "data"@,
            true,
            indent + spaces,
            do_indent,
        ) + tag_text("array"@, true, indent, do_indent),
        _ => string_element(leaf_text(v), indent, do_indent),
    }
}

/// One `<member>` of a `<struct>`: its name and its value.
pub open spec fn member_text(key: Seq<char>, v: SpecLLSD, spaces: nat, indent: nat, do_indent: bool) -> Seq<
    char,
>
    decreases v, 2nat,
{
    tag_text("member"@, false, indent + spaces, do_indent) + name_line(key, indent + spaces * 2, do_indent)
        + tag_text("value"@, false, indent + spaces * 2, do_indent) + value_text(
        v,
        spaces,
        indent + spaces * 3,
        do_indent,
    ) + tag_text("value"@, true, indent + spaces * 2, do_indent) + tag_text(
        "member"@,
        true,
        indent + spaces,
        do_indent,
    )
}

/// One `<value>` of an array's `<data>`.
pub open spec fn item_text(v: SpecLLSD, spaces: nat, indent: nat, do_indent: bool) -> Seq<char>
    decreases v, 2nat,
{
    tag_text("value"@, false, indent + spaces * 2, do_indent) + value_text(
        v,
        spaces,
        indent + spaces * 3,
        do_indent,
    ) + tag_text("value"@, true, indent + spaces * 2, do_indent)
}

pub open spec fn members_text(
    pairs: Seq<(Seq<char>, SpecLLSD)>,
    spaces: nat,
    indent: nat,
    do_indent: bool,
) -> Seq<char>
    decreases pairs, 0nat,
{
    if pairs.len() == 0 {
        Seq::empty()
    } else {
        members_text(pairs.drop_last(), spaces, indent, do_indent) + member_text(
            pairs.last().0,
            pairs.last().1,
            spaces,
            indent,
            do_indent,
        )
    }
}

pub open spec fn items_text(items: Seq<SpecLLSD>, spaces: nat, indent: nat, do_indent: bool) -> Seq<
    char,
>
    decreases items, 0nat,
{
    if items.len() == 0 {
        Seq::empty()
    } else {
        items_text(items.drop_last(), spaces, indent, do_indent) + item_text(
            items.last(),
            spaces,
            indent,
            do_indent,
        )
    }
}

/// The whole method call: the XML declaration, the method name, and the value as its
/// single parameter; indented by four spaces a level, or on one line.
pub open spec fn document_text(v: SpecLLSD, do_indent: bool, method_name: Seq<char>) -> Seq<char> {
    "<?xml version=\"1.0\"?>"@ + (if do_indent {
        "\n<methodCall>\n"@ + "    <methodName>"@ + escape_spec(method_name) + "</methodName>\n"@
            + "    <params>\n"@ + "        <param>\n"@ + "            <value>\n"@
    } else {
        "<methodCall><methodName>"@ + escape_spec(method_name)
            + "</methodName><params><param><value>"@
    }) + value_text(v, if do_indent { 4 } else { 0 }, 12, do_indent) + (if do_indent {
        "            </value>\n"@ + "        </param>\n"@ + "    </params>\n"@ + "</methodCall>\n"@
    } else {
        "</value></param></params></methodCall>"@
    })
}

proof fn lemma_depth_pairs(pairs: Seq<(Seq<char>, SpecLLSD)>, i: int)
    requires
        0 <= i < pairs.len(),
    ensures
        depth(pairs[i].1) <= depth_pairs(pairs),
    decreases pairs.len(),
{
    if i < pairs.len() - 1 {
        lemma_depth_pairs(pairs.drop_last(), i);
    }
}

proof fn lemma_depth_items(items: Seq<SpecLLSD>, i: int)
    requires
        0 <= i < items.len(),
    ensures
        depth(items[i]) <= depth_items(items),
    decreases items.len(),
{
    if i < items.len() - 1 {
        lemma_depth_items(items.drop_last(), i);
    }
}

fn push_pad(out: &mut String, n: usize)
    ensures
        final(out)@ == old(out)@ + pad(n as nat),
{
    let ghost start = out@;
    let mut i: usize = 0;
    while i < n
        invariant
            i <= n,
            out@ == start + pad(i as nat),
        decreases n - i,
    {
        push_char(out, ' ');
        i = i + 1;
        assert(out@ =~= start + pad(i as nat));
    }
}

fn push_tag(out: &mut String, name: &str, close: bool, indent: usize, do_indent: bool)
    ensures
        final(out)@ == old(out)@ + tag_text(name@, close, indent as nat, do_indent),
{
    let ghost start = out@;
    if do_indent && indent > 0 {
        push_pad(out, indent);
    }
    push_char(out, '<');
    if close {
        push_char(out, '/');
    }
    out.append(name);
    push_char(out, '>');
    if do_indent {
        push_char(out, '\n');
    }
    assert(out@ =~= start + tag_text(name@, close, indent as nat, do_indent));
}

fn push_string_element(out: &mut String, text: &str, indent: usize, do_indent: bool)
    ensures
        final(out)@ == old(out)@ + string_element(text@, indent as nat, do_indent),
{
    let ghost start = out@;
    if do_indent && indent > 0 {
        push_pad(out, indent);
    }
    if text.is_empty() {
        out.append("<string />");
    } else {
        out.append("<string>");
        push_escaped(out, text);
        out.append("</string>");
    }
    if do_indent {
        push_char(out, '\n');
    }
    assert(out@ =~= start + string_element(text@, indent as nat, do_indent));
}

/// The text of a value that is neither a map nor an array.
fn leaf_string(v: &LLSDValue) -> (r: String)
    ensures
        r@ == leaf_text(v@),
{
    match v {
        LLSDValue::Boolean(b) => if *b {
            String::from_str("true")
        } else {
            String::from_str("false")
        },
        LLSDValue::String(s) => s.clone(),
        LLSDValue::Integer(i) => {
            let mut s = String::new();
            push_i64(&mut s, *i as i64);
            s
        },
        LLSDValue::Real(t) => t.clone(),
        LLSDValue::UUID(bits) => uuid_to_string(&uuid_of_bits(*bits)),
        LLSDValue::Binary(bytes) => base64_encode(bytes.as_slice()),
        LLSDValue::Date(d) => {
            let mut s = String::new();
            push_i64(&mut s, *d);
            s
        },
        _ => String::new(),
    }
}

fn push_name_line(out: &mut String, key: &String, indent: usize, do_indent: bool)
    ensures
        final(out)@ == old(out)@ + name_line(key@, indent as nat, do_indent),
{
    let ghost start = out@;
    if do_indent {
        push_pad(out, indent);
        out.append("<name>");
        push_escaped(out, key.as_str());
        out.append("</name>");
        push_char(out, '\n');
    } else {
        out.append("<name>");
        push_escaped(out, key.as_str());
        out.append("</name>");
    }
    assert(out@ =~= start + name_line(key@, indent as nat, do_indent));
}

/// Appends one `<member>` of a `<struct>`.
#[verifier::spinoff_prover]
#[verifier::rlimit(40)]
fn push_member(out: &mut String, key: &String, item: &LLSDValue, spaces: usize, indent: usize, do_indent: bool)
    requires
        spaces <= 4,
        indent + 12 * (depth(item@) + 2) <= usize::MAX,
    ensures
        final(out)@ == old(out)@ + member_text(key@, item@, spaces as nat, indent as nat, do_indent),
    decreases item, 2nat,
{
    let ghost s0 = out@;
    push_tag(out, "member", false, indent + spaces, do_indent);
    let ghost s1 = out@;
    push_name_line(out, key, indent + spaces * 2, do_indent);
    let ghost s2 = out@;
    push_tag(out, "value", false, indent + spaces * 2, do_indent);
    let ghost s3 = out@;
    generate_value_xmlrpc(out, item, spaces, indent + spaces * 3, do_indent);
    let ghost s4 = out@;
    push_tag(out, "value", true, indent + spaces * 2, do_indent);
    let ghost s5 = out@;
    push_tag(out, "member", true, indent + spaces, do_indent);
    let ghost t1 = tag_text("member"@, false, (indent + spaces) as nat, do_indent);
    let ghost n = name_line(key@, (indent + spaces * 2) as nat, do_indent);
    let ghost t2 = tag_text("value"@, false, (indent + spaces * 2) as nat, do_indent);
    let ghost v = value_text(item@, spaces as nat, (indent + spaces * 3) as nat, do_indent);
    let ghost t3 = tag_text("value"@, true, (indent + spaces * 2) as nat, do_indent);
    let ghost t4 = tag_text("member"@, true, (indent + spaces) as nat, do_indent);
    assert(member_text(key@, item@, spaces as nat, indent as nat, do_indent) == t1 + n + t2 + v + t3
        + t4);
    assert(out@ == s0 + t1 + n + t2 + v + t3 + t4);
    assert(out@ =~= s0 + (t1 + n + t2 + v + t3 + t4));
}

/// Appends one `<value>` of an array's `<data>`.
fn push_item(out: &mut String, item: &LLSDValue, spaces: usize, indent: usize, do_indent: bool)
    requires
        spaces <= 4,
        indent + 12 * (depth(item@) + 2) <= usize::MAX,
    ensures
        final(out)@ == old(out)@ + item_text(item@, spaces as nat, indent as nat, do_indent),
    decreases item, 2nat,
{
    let ghost s0 = out@;
    push_tag(out, "value", false, indent + spaces * 2, do_indent);
    let ghost s1 = out@;
    generate_value_xmlrpc(out, item, spaces, indent + spaces * 3, do_indent);
    let ghost s2 = out@;
    assert(s2 == s1 + value_text(item@, spaces as nat, (indent + spaces * 3) as nat, do_indent));
    push_tag(out, "value", true, indent + spaces * 2, do_indent);
    let ghost t1 = tag_text("value"@, false, (indent + spaces * 2) as nat, do_indent);
    let ghost v = value_text(item@, spaces as nat, (indent + spaces * 3) as nat, do_indent);
    let ghost t2 = tag_text("value"@, true, (indent + spaces * 2) as nat, do_indent);
    assert(item_text(item@, spaces as nat, indent as nat, do_indent) == t1 + v + t2);
    assert(out@ == s0 + t1 + v + t2);
    assert(out@ =~= s0 + (t1 + v + t2));
}

/// Appends a map as a `<struct>`.
fn push_dict(out: &mut String, pairs: &Vec<(String, LLSDValue)>, spaces: usize, indent: usize, do_indent: bool)
    requires
        spaces <= 4,
        indent + 12 * (depth_pairs(view_pairs(pairs@)) + 2) <= usize::MAX,
    ensures
        final(out)@ == old(out)@ + tag_text("struct"@, false, indent as nat, do_indent) + members_text(
            view_pairs(pairs@),
            spaces as nat,
            indent as nat,
            do_indent,
        ) + tag_text("struct"@, true, indent as nat, do_indent),
    decreases *pairs, 3nat,
{
    let ghost vp = view_pairs(pairs@);
    push_tag(out, "struct", false, indent, do_indent);
    let ghost mid = out@;
    assert(vp.take(0) =~= Seq::<(Seq<char>, SpecLLSD)>::empty());
    let mut i: usize = 0;
    while i < pairs.len()
        invariant
            i <= pairs@.len() == vp.len(),
            vp == view_pairs(pairs@),
            spaces <= 4,
            indent + 12 * (depth_pairs(vp) + 2) <= usize::MAX,
            out@ == mid + members_text(vp.take(i as int), spaces as nat, indent as nat, do_indent),
        decreases pairs@.len() - i,
    {
        proof {
            lemma_depth_pairs(vp, i as int);
        }
        let key = &pairs[i].0;
        let item = &pairs[i].1;
        proof {
            assert(decreases_to!(*pairs => pairs[i as int]));
        }
        push_member(out, key, item, spaces, indent, do_indent);
        assert(vp.take(i + 1).drop_last() =~= vp.take(i as int));
        assert(vp.take(i + 1).last() == (key@, item@));
        i = i + 1;
    }
    assert(vp.take(vp.len() as int) =~= vp);
    push_tag(out, "struct", true, indent, do_indent);
}

/// Appends an array as an `<array>` of `<data>`.
fn push_array(out: &mut String, items: &Vec<LLSDValue>, spaces: usize, indent: usize, do_indent: bool)
    requires
        spaces <= 4,
        indent + 12 * (depth_items(view_items(items@)) + 2) <= usize::MAX,
    ensures
        final(out)@ == old(out)@ + tag_text("array"@, false, indent as nat, do_indent) + tag_text(
            "data"@,
            false,
            (indent + spaces) as nat,
            do_indent,
        ) + items_text(view_items(items@), spaces as nat, indent as nat, do_indent) + tag_text(
            "data"@,
            true,
            (indent + spaces) as nat,
            do_indent,
        ) + tag_text("array"@, true, indent as nat, do_indent),
    decreases *items, 3nat,
{
    let ghost vi = view_items(items@);
    push_tag(out, "array", false, indent, do_indent);
    push_tag(out, "data", false, indent + spaces, do_indent);
    let ghost mid = out@;
    assert(vi.take(0) =~= Seq::<SpecLLSD>::empty());
    let mut i: usize = 0;
    while i < items.len()
        invariant
            i <= items@.len() == vi.len(),
            vi == view_items(items@),
            spaces <= 4,
            indent + 12 * (depth_items(vi) + 2) <= usize::MAX,
            out@ == mid + items_text(vi.take(i as int), spaces as nat, indent as nat, do_indent),
        decreases items@.len() - i,
    {
        proof {
            lemma_depth_items(vi, i as int);
        }
        let item = &items[i];
        proof {
            assert(decreases_to!(*items => items[i as int]));
        }
        push_item(out, item, spaces, indent, do_indent);
        assert(vi.take(i + 1).drop_last() =~= vi.take(i as int));
        assert(vi.take(i + 1).last() == item@);
        i = i + 1;
    }
    assert(vi.take(vi.len() as int) =~= vi);
    push_tag(out, "data", true, indent + spaces, do_indent);
    push_tag(out, "array", true, indent, do_indent);
}

/// Appends the XML-RPC form of `val`.
fn generate_value_xmlrpc(out: &mut String, val: &LLSDValue, spaces: usize, indent: usize, do_indent: bool)
    requires
        spaces <= 4,
        indent + 12 * (depth(val@) + 1) <= usize::MAX,
    ensures
        final(out)@ == old(out)@ + value_text(val@, spaces as nat, indent as nat, do_indent),
    decreases val, 1nat,
{
    match val {
        LLSDValue::Dict(pairs) => {
            push_dict(out, pairs, spaces, indent, do_indent);
        },
        LLSDValue::Array(items) => {
            push_array(out, items, spaces, indent, do_indent);
        },
        _ => {
            let s = leaf_string(val);
            push_string_element(out, s.as_str(), indent, do_indent);
        },
    }
}

/// Appends to `writer` the XML-RPC method call `method_name` with `value` as its
/// single parameter, indented by four spaces a level when `do_indent` is set.
pub fn to_writer_xmlrpc(writer: &mut String, value: &LLSDValue, do_indent: bool, method_name: &str)
    requires
        12 * (depth(value@) + 2) <= usize::MAX,
    ensures
        final(writer)@ == old(writer)@ + document_text(value@, do_indent, method_name@),
{
    let ghost start = writer@;
    writer.append("<?xml version=\"1.0\"?>");
    if do_indent {
        writer.append("\n<methodCall>\n");
        writer.append("    <methodName>");
        push_escaped(writer, method_name);
        writer.append("</methodName>\n");
        writer.append("    <params>\n");
        writer.append("        <param>\n");
        writer.append("            <value>\n");
    } else {
        writer.append("<methodCall><methodName>");
        push_escaped(writer, method_name);
        writer.append("</methodName><params><param><value>");
    }
    let ghost head = writer@;
    generate_value_xmlrpc(writer, value, if do_indent { 4 } else { 0 }, 12, do_indent);
    let ghost body = writer@;
    if do_indent {
        writer.append("            </value>\n");
        writer.append("        </param>\n");
        writer.append("    </params>\n");
        writer.append("</methodCall>\n");
    } else {
        writer.append("</value></param></params></methodCall>");
    }
    assert(writer@ =~= start + document_text(value@, do_indent, method_name@));
}

/// The XML-RPC method call `method_name` with `val` as its single parameter.
pub fn to_string(val: &LLSDValue, do_indent: bool, method_name: &str) -> (r: String)
    requires
        12 * (depth(val@) + 2) <= usize::MAX,
    ensures
        r@ == document_text(val@, do_indent, method_name@),
{
    let mut s = String::new();
    to_writer_xmlrpc(&mut s, val, do_indent, method_name);
    assert(s@ =~= document_text(val@, do_indent, method_name@));
    s
}

} // verus!

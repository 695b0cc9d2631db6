//! Reading an XML-RPC method response (as OpenSimulator's login service sends it)
//! into an LLSD value.
use vstd::prelude::*;
use crate::value::{
    LLSDValue, SpecLLSD, dict_insert, view_items, view_pairs, dict_insert_exec,
};
use crate::text::{join_space, trim, join_space_trimmed, string_of, chars_of, eq_chars};
use crate::numbers::{
    parse_i32_spec, real_text_ok, eq_ignore_ascii_case, parse_i32, real_text_valid, eq_ignore_case,
};
use crate::outside::{
    uuid_parsed, rfc3339_seconds, base64_decoded, parse_uuid, parse_rfc3339, base64_decode,
    xml_tokens, pending_events, ends_once, is_final_event, open_xml_reader, next_xml_event,
};
use crate::xml_event::XmlEvent;

verus! {

/// Why an XML-RPC text could not be read.
#[derive(Debug, Clone, Copy, PartialEq, Eq, Structural)]
pub enum XmlRpcError {
    /// The XML reader reported a syntax error, or text could not be unescaped.
    Syntax,
    /// The input ended inside an element.
    UnexpectedEnd,
    /// A start tag where none may stand, or of the wrong name.
    UnexpectedElement,
    /// An event of a kind that may not stand where it was found.
    UnexpectedEvent,
    /// An end tag that does not close the element that is open.
    UnmatchedTags,
    /// A value element of an unknown type.
    UnknownType,
    /// The text of a value is not valid for its type.
    InvalidValue,
    /// The input holds no `<methodResponse>` block.
    NoResponse,
    /// The input holds more than one `<methodResponse>` block.
    DuplicateResponse,
}

/// The event at `p`, or the end of input past the last event.
pub open spec fn event_at(ev: Seq<XmlEvent>, p: int) -> XmlEvent {
    if 0 <= p < ev.len() {
        ev[p]
    } else {
        XmlEvent::Eof
    }
}

/// Element names whose text is a single value.
pub open spec fn is_primitive_tag(t: Seq<char>) -> bool {
    ||| t == "undef"@
    ||| t == "real"@
    ||| t == "integer"@
    ||| t == "boolean"@
    ||| t == "string"@
    ||| t == "uri"@
    ||| t == "binary"@
    ||| t == "uuid"@
    ||| t == "i4"@
    ||| t == "date"@
}

/// XML-RPC elements that only wrap other values.
pub open spec fn is_container_tag(t: Seq<char>) -> bool {
    ||| t == "params"@
    ||| t == "param"@
    ||| t == "value"@
    ||| t == "struct"@
    ||| t == "data"@
}

/// The value that the text of a primitive element of type `tag` stands for.
pub open spec fn primitive_value(tag: Seq<char>, text: Seq<char>) -> Result<SpecLLSD, XmlRpcError> {
    if tag == "undef"@ {
        Ok(SpecLLSD::Undefined)
    } else if tag == "real"@ {
        if real_text_ok(text) {
            Ok(SpecLLSD::Real(text))
        } else {
            Err(XmlRpcError::InvalidValue)
        }
    } else if tag == "integer"@ || tag == "i4"@ {
        match parse_i32_spec(text) {
            Some(i) => Ok(SpecLLSD::Integer(i as i32)),
            None => Err(XmlRpcError::InvalidValue),
        }
    } else if tag == "boolean"@ {
        if text == "1"@ || text == "true"@ {
            Ok(SpecLLSD::Boolean(true))
        } else if text == "0"@ || text == "false"@ {
            Ok(SpecLLSD::Boolean(false))
        } else {
            Err(XmlRpcError::InvalidValue)
        }
    } else if tag == "string"@ {
        if eq_ignore_ascii_case(text, "true"@) {
            Ok(SpecLLSD::Boolean(true))
        } else if eq_ignore_ascii_case(text, "false"@) {
            Ok(SpecLLSD::Boolean(false))
        } else {
            match uuid_parsed(text) {
                Some(bits) => Ok(SpecLLSD::UUID(bits)),
                None => Ok(SpecLLSD::Str(text)),
            }
        }
    } else if tag == "uri"@ {
        Ok(SpecLLSD::Str(text))
    } else if tag == "uuid"@ {
        if text.len() == 0 {
            Ok(SpecLLSD::UUID(0))
        } else {
            match uuid_parsed(text) {
                Some(bits) => Ok(SpecLLSD::UUID(bits)),
                None => Err(XmlRpcError::InvalidValue),
            }
        }
    } else if tag == "date"@ {
        match rfc3339_seconds(text) {
            Some(secs) => Ok(SpecLLSD::Date(secs)),
            None => Err(XmlRpcError::InvalidValue),
        }
    } else if tag == "binary"@ {
        match base64_decoded(text) {
            Some(bytes) => Ok(SpecLLSD::Binary(bytes)),
            None => Err(XmlRpcError::InvalidValue),
        }
    } else {
        Err(XmlRpcError::UnknownType)
    }
}

/// Reads the rest of a primitive element of type `tag` from `p` on, with the texts
/// met so far.
pub open spec fn de_primitive(ev: Seq<XmlEvent>, p: int, tag: Seq<char>, texts: Seq<Seq<char>>) -> Result<
    (SpecLLSD, int),
    XmlRpcError,
>
    decreases ev.len() - p,
{
    match event_at(ev, p) {
        XmlEvent::Text(t) => match t {
            Some(s) => de_primitive(ev, p + 1, tag, texts.push(s@)),
            None => Err(XmlRpcError::Syntax),
        },
        XmlEvent::End(n) => if n@ != tag {
            Err(XmlRpcError::UnmatchedTags)
        } else {
            match primitive_value(tag, trim(join_space(texts))) {
                Ok(v) => Ok((v, p + 1)),
                Err(e) => Err(e),
            }
        },
        XmlEvent::Eof => Err(XmlRpcError::UnexpectedEnd),
        XmlEvent::Comment => de_primitive(ev, p + 1, tag, texts),
        XmlEvent::Error => Err(XmlRpcError::Syntax),
        _ => Err(XmlRpcError::UnexpectedEvent),
    }
}

/// The entries of a map value; no entries for any other value.
pub open spec fn entries_of(v: SpecLLSD) -> Seq<(Seq<char>, SpecLLSD)> {
    match v {
        SpecLLSD::Dict(pairs) => pairs,
        _ => Seq::empty(),
    }
}

/// `acc` after inserting the entries one after the other.
pub open spec fn insert_all(acc: Seq<(Seq<char>, SpecLLSD)>, pairs: Seq<(Seq<char>, SpecLLSD)>) -> Seq<
    (Seq<char>, SpecLLSD),
>
    decreases pairs.len(),
{
    if pairs.len() == 0 {
        acc
    } else {
        let rest = insert_all(acc, pairs.drop_last());
        dict_insert(rest, pairs.last().0, pairs.last().1)
    }
}

/// The entries of all the maps among `vals`, merged in order: a later value of a key
/// replaces an earlier one. Values that are not maps add nothing.
pub open spec fn merge_maps(vals: Seq<SpecLLSD>) -> Seq<(Seq<char>, SpecLLSD)>
    decreases vals.len(),
{
    if vals.len() == 0 {
        Seq::empty()
    } else {
        insert_all(merge_maps(vals.drop_last()), entries_of(vals.last()))
    }
}

pub open spec fn all_maps(vals: Seq<SpecLLSD>) -> bool {
    forall|i: int| 0 <= i < vals.len() ==> #[trigger] vals[i] is Dict
}

/// One item of a container with several: an array of maps becomes their merged map.
pub open spec fn merge_item(v: SpecLLSD) -> SpecLLSD {
    match v {
        SpecLLSD::Array(arr) => if all_maps(arr) {
            SpecLLSD::Dict(merge_maps(arr))
        } else {
            v
        },
        _ => v,
    }
}

/// The value of a container element with the given items.
pub open spec fn container_value(items: Seq<SpecLLSD>) -> SpecLLSD {
    if items.len() == 0 {
        SpecLLSD::Array(Seq::empty())
    } else if items.len() == 1 {
        items[0]
    } else {
        SpecLLSD::Array(items.map_values(|v: SpecLLSD| merge_item(v)))
    }
}

pub open spec fn is_empty_array(v: SpecLLSD) -> bool {
    v matches SpecLLSD::Array(a) && a.len() == 0
}

/// Reads the value of an element whose start tag `tag` stands just before `p`.
pub open spec fn de_value(ev: Seq<XmlEvent>, p: int, tag: Seq<char>) -> Result<(SpecLLSD, int), XmlRpcError>
    decreases ev.len() - p, 3nat,
{
    if p < 0 || p > ev.len() {
        Err(XmlRpcError::UnexpectedEnd)
    } else if is_primitive_tag(tag) {
        de_primitive(ev, p, tag, Seq::empty())
    } else if tag == "map"@ {
        de_struct(ev, p, "key"@, "map"@, Seq::empty())
    } else if tag == "array"@ {
        de_array(ev, p, Seq::empty())
    } else if is_container_tag(tag) {
        de_container(ev, p, tag, Seq::empty())
    } else if tag == "member"@ {
        de_struct(ev, p, "name"@, "member"@, Seq::empty())
    } else {
        Err(XmlRpcError::UnknownType)
    }
}

/// Reads the rest of a container element `tag` from `p` on, with the items met so
/// far; empty arrays among the items are left out.
pub open spec fn de_container(ev: Seq<XmlEvent>, p: int, tag: Seq<char>, items: Seq<SpecLLSD>) -> Result<
    (SpecLLSD, int),
    XmlRpcError,
>
    decreases ev.len() - p, 1nat,
{
    match event_at(ev, p) {
        XmlEvent::Start(n) => match de_value(ev, p + 1, n@) {
            Ok((v, q)) => if p < q <= ev.len() {
                de_container(ev, q, tag, if is_empty_array(v) { items } else { items.push(v) })
            } else {
                Err(XmlRpcError::UnexpectedEnd)
            },
            Err(e) => Err(e),
        },
        XmlEvent::End(n) => if n@ == tag {
            Ok((container_value(items), p + 1))
        } else {
            de_container(ev, p + 1, tag, items)
        },
        XmlEvent::Eof => Err(XmlRpcError::UnexpectedEnd),
        XmlEvent::Error => Err(XmlRpcError::Syntax),
        _ => de_container(ev, p + 1, tag, items),
    }
}

/// Reads the rest of a map-like element (`<member>` of `<name>` entries, or `<map>`
/// of `<key>` entries) from `p` on, with the entries met so far.
pub open spec fn de_struct(
    ev: Seq<XmlEvent>,
    p: int,
    entry_tag: Seq<char>,
    end_tag: Seq<char>,
    pairs: Seq<(Seq<char>, SpecLLSD)>,
) -> Result<(SpecLLSD, int), XmlRpcError>
    decreases ev.len() - p, 1nat,
{
    match event_at(ev, p) {
        XmlEvent::Start(n) => if n@ == entry_tag {
            match de_entry(ev, p + 1, entry_tag, Seq::empty()) {
                Ok((k, v, q)) => if p < q <= ev.len() {
                    de_struct(ev, q, entry_tag, end_tag, dict_insert(pairs, k, v))
                } else {
                    Err(XmlRpcError::UnexpectedEnd)
                },
                Err(e) => Err(e),
            }
        } else {
            Err(XmlRpcError::UnexpectedElement)
        },
        XmlEvent::Text(t) => if t is Some {
            de_struct(ev, p + 1, entry_tag, end_tag, pairs)
        } else {
            Err(XmlRpcError::Syntax)
        },
        XmlEvent::End(n) => if n@ != end_tag {
            Err(XmlRpcError::UnmatchedTags)
        } else {
            Ok((SpecLLSD::Dict(pairs), p + 1))
        },
        XmlEvent::Eof => Err(XmlRpcError::UnexpectedEnd),
        XmlEvent::Comment => de_struct(ev, p + 1, entry_tag, end_tag, pairs),
        XmlEvent::Error => Err(XmlRpcError::Syntax),
        XmlEvent::Other => Err(XmlRpcError::UnexpectedEvent),
    }
}

/// Reads one entry: the rest of its key element from `p` on (with the texts met so
/// far), then the value element that follows it.
pub open spec fn de_entry(ev: Seq<XmlEvent>, p: int, entry_tag: Seq<char>, texts: Seq<Seq<char>>) -> Result<
    (Seq<char>, SpecLLSD, int),
    XmlRpcError,
>
    decreases ev.len() - p, 1nat,
{
    match event_at(ev, p) {
        XmlEvent::Start(_) => Err(XmlRpcError::UnexpectedElement),
        XmlEvent::Text(t) => match t {
            Some(s) => de_entry(ev, p + 1, entry_tag, texts.push(s@)),
            None => Err(XmlRpcError::Syntax),
        },
        XmlEvent::End(n) => if n@ != entry_tag {
            Err(XmlRpcError::UnmatchedTags)
        } else {
            match event_at(ev, p + 1) {
                XmlEvent::Start(t2) => match de_value(ev, p + 2, t2@) {
                    Ok((v, q)) => Ok((trim(join_space(texts)), v, q)),
                    Err(e) => Err(e),
                },
                _ => Err(XmlRpcError::UnexpectedEvent),
            }
        },
        XmlEvent::Eof => Err(XmlRpcError::UnexpectedEnd),
        XmlEvent::Comment => de_entry(ev, p + 1, entry_tag, texts),
        XmlEvent::Error => Err(XmlRpcError::Syntax),
        XmlEvent::Other => Err(XmlRpcError::UnexpectedEvent),
    }
}

/// Reads the rest of an `<array>` element from `p` on, with the items met so far.
pub open spec fn de_array(ev: Seq<XmlEvent>, p: int, items: Seq<SpecLLSD>) -> Result<
    (SpecLLSD, int),
    XmlRpcError,
>
    decreases ev.len() - p, 1nat,
{
    match event_at(ev, p) {
        XmlEvent::Start(n) => match de_value(ev, p + 1, n@) {
            Ok((v, q)) => if p < q <= ev.len() {
                de_array(ev, q, items.push(v))
            } else {
                Err(XmlRpcError::UnexpectedEnd)
            },
            Err(e) => Err(e),
        },
        XmlEvent::Text(t) => if t is Some {
            de_array(ev, p + 1, items)
        } else {
            Err(XmlRpcError::Syntax)
        },
        XmlEvent::End(n) => if n@ != "array"@ {
            Err(XmlRpcError::UnmatchedTags)
        } else {
            Ok((SpecLLSD::Array(items), p + 1))
        },
        XmlEvent::Eof => Err(XmlRpcError::UnexpectedEnd),
        XmlEvent::Comment => de_array(ev, p + 1, items),
        XmlEvent::Error => Err(XmlRpcError::Syntax),
        XmlEvent::Other => Err(XmlRpcError::UnexpectedEvent),
    }
}

/// Reads the document from `p` on: exactly one `<methodResponse>` whose first
/// element is the value; other text, end tags, comments and declarations around it
/// are passed over.
pub open spec fn de_document(ev: Seq<XmlEvent>, p: int, out: Option<SpecLLSD>) -> Result<
    SpecLLSD,
    XmlRpcError,
>
    decreases ev.len() - p,
{
    match event_at(ev, p) {
        XmlEvent::Start(n) => if n@ == "methodResponse"@ {
            if out is Some {
                Err(XmlRpcError::DuplicateResponse)
            } else {
                match event_at(ev, p + 1) {
                    XmlEvent::Start(t) => match de_value(ev, p + 2, t@) {
                        Ok((v, q)) => if p < q <= ev.len() {
                            de_document(ev, q, Some(v))
                        } else {
                            Err(XmlRpcError::UnexpectedEnd)
                        },
                        Err(e) => Err(e),
                    },
                    _ => Err(XmlRpcError::UnexpectedEvent),
                }
            }
        } else {
            Err(XmlRpcError::UnexpectedElement)
        },
        XmlEvent::Eof => match out {
            Some(v) => Ok(v),
            None => Err(XmlRpcError::NoResponse),
        },
        XmlEvent::Error => Err(XmlRpcError::Syntax),
        _ => de_document(ev, p + 1, out),
    }
}

/// A login response as a single map: an array's maps are merged into one (later keys
/// win, other items are dropped); any other value is left as it is.
pub open spec fn flatten_spec(v: SpecLLSD) -> SpecLLSD {
    match v {
        SpecLLSD::Array(arr) => SpecLLSD::Dict(merge_maps(arr)),
        _ => v,
    }
}

/// The value that the events of an XML-RPC method response stand for.
pub open spec fn from_events_spec(ev: Seq<XmlEvent>) -> Result<SpecLLSD, XmlRpcError> {
    match de_document(ev, 0, None) {
        Ok(v) => Ok(flatten_spec(v)),
        Err(e) => Err(e),
    }
}

broadcast use vstd::std_specs::vec::axiom_spec_into_iter;

/// The model of a reader's result: the value's model and the position after it.
pub open spec fn res_view(r: Result<(LLSDValue, usize), XmlRpcError>) -> Result<
    (SpecLLSD, int),
    XmlRpcError,
> {
    match r {
        Ok((v, q)) => Ok((v@, q as int)),
        Err(e) => Err(e),
    }
}

/// The character sequences of the texts.
pub open spec fn text_views(texts: Seq<String>) -> Seq<Seq<char>> {
    texts.map_values(|t: String| t@)
}

/// Whether the name is the given literal.
fn is_tag(name: &String, lit: &str) -> (b: bool)
    ensures
        b == (name@ == lit@),
{
    *name == String::from_str(lit)
}

fn is_text(text: &Vec<char>, lit: &str) -> (b: bool)
    ensures
        b == (text@ == lit@),
{
    eq_chars(text, &chars_of(lit))
}

fn is_primitive_name(t: &String) -> (b: bool)
    ensures
        b == is_primitive_tag(t@),
{
    is_tag(t, "undef") || is_tag(t, "real") || is_tag(t, "integer") || is_tag(t, "boolean")
        || is_tag(t, "string") || is_tag(t, "uri") || is_tag(t, "binary") || is_tag(t, "uuid")
        || is_tag(t, "i4") || is_tag(t, "date")
}

fn is_container_name(t: &String) -> (b: bool)
    ensures
        b == is_container_tag(t@),
{
    is_tag(t, "params") || is_tag(t, "param") || is_tag(t, "value") || is_tag(t, "struct")
        || is_tag(t, "data")
}

/// Converts the text of a primitive element of type `tag` to its value.
fn primitive_value_of(tag: &String, text: &Vec<char>) -> (r: Result<LLSDValue, XmlRpcError>)
    ensures
        match r {
            Ok(v) => primitive_value(tag@, text@) == Ok::<SpecLLSD, XmlRpcError>(v@),
            Err(e) => primitive_value(tag@, text@) == Err::<SpecLLSD, XmlRpcError>(e),
        },
{
    if is_tag(tag, "undef") {
        Ok(LLSDValue::Undefined)
    } else if is_tag(tag, "real") {
        if real_text_valid(text) {
            Ok(LLSDValue::Real(string_of(text)))
        } else {
            Err(XmlRpcError::InvalidValue)
        }
    } else if is_tag(tag, "integer") || is_tag(tag, "i4") {
        match parse_i32(text) {
            Some(i) => Ok(LLSDValue::Integer(i)),
            None => Err(XmlRpcError::InvalidValue),
        }
    } else if is_tag(tag, "boolean") {
        if is_text(text, "1") || is_text(text, "true") {
            Ok(LLSDValue::Boolean(true))
        } else if is_text(text, "0") || is_text(text, "false") {
            Ok(LLSDValue::Boolean(false))
        } else {
            Err(XmlRpcError::InvalidValue)
        }
    } else if is_tag(tag, "string") {
        if eq_ignore_case(text, &chars_of("true")) {
            Ok(LLSDValue::Boolean(true))
        } else if eq_ignore_case(text, &chars_of("false")) {
            Ok(LLSDValue::Boolean(false))
        } else {
            let s = string_of(text);
            match parse_uuid(s.as_str()) {
                Some(bits) => Ok(LLSDValue::UUID(bits)),
                None => Ok(LLSDValue::String(s)),
            }
        }
    } else if is_tag(tag, "uri") {
        Ok(LLSDValue::String(string_of(text)))
    } else if is_tag(tag, "uuid") {
        if text.len() == 0 {
            Ok(LLSDValue::UUID(0))
        } else {
            let s = string_of(text);
            match parse_uuid(s.as_str()) {
                Some(bits) => Ok(LLSDValue::UUID(bits)),
                None => Err(XmlRpcError::InvalidValue),
            }
        }
    } else if is_tag(tag, "date") {
        let s = string_of(text);
        match parse_rfc3339(s.as_str()) {
            Some(secs) => Ok(LLSDValue::Date(secs)),
            None => Err(XmlRpcError::InvalidValue),
        }
    } else if is_tag(tag, "binary") {
        let s = string_of(text);
        match base64_decode(s.as_str()) {
            Some(bytes) => Ok(LLSDValue::Binary(bytes)),
            None => Err(XmlRpcError::InvalidValue),
        }
    } else {
        Err(XmlRpcError::UnknownType)
    }
}

/// Reads a primitive element whose start tag `tag` stands just before `p0`.
fn parse_primitive_value(ev: &Vec<XmlEvent>, p0: usize, tag: &String) -> (r: Result<
    (LLSDValue, usize),
    XmlRpcError,
>)
    requires
        p0 <= ev@.len(),
    ensures
        res_view(r) == de_primitive(ev@, p0 as int, tag@, Seq::empty()),
        r matches Ok((_, q)) ==> p0 < q <= ev@.len(),
{
    let mut texts: Vec<String> = Vec::new();
    let mut p = p0;
    assert(text_views(texts@) =~= Seq::<Seq<char>>::empty());
    loop
        invariant
            p0 <= p <= ev@.len(),
            de_primitive(ev@, p0 as int, tag@, Seq::empty()) == de_primitive(
                ev@,
                p as int,
                tag@,
                text_views(texts@),
            ),
        decreases ev@.len() - p,
    {
        if p >= ev.len() {
            return Err(XmlRpcError::UnexpectedEnd);
        }
        match &ev[p] {
            XmlEvent::Text(t) => match t {
                Some(s) => {
                    let ghost old_texts = texts@;
                    texts.push(s.clone());
                    assert(text_views(texts@) =~= text_views(old_texts).push(s@));
                    p = p + 1;
                },
                None => {
                    return Err(XmlRpcError::Syntax);
                },
            },
            XmlEvent::End(n) => {
                if *n != *tag {
                    return Err(XmlRpcError::UnmatchedTags);
                }
                let text = join_space_trimmed(&texts);
                return match primitive_value_of(tag, &text) {
                    Ok(v) => Ok((v, p + 1)),
                    Err(e) => Err(e),
                };
            },
            XmlEvent::Eof => {
                return Err(XmlRpcError::UnexpectedEnd);
            },
            XmlEvent::Comment => {
                p = p + 1;
            },
            XmlEvent::Error => {
                return Err(XmlRpcError::Syntax);
            },
            _ => {
                return Err(XmlRpcError::UnexpectedEvent);
            },
        }
    }
}

/// Inserts the entries of `m` into `acc`, one after the other.
fn insert_all_exec(acc: &mut Vec<(String, LLSDValue)>, m: Vec<(String, LLSDValue)>)
    ensures
        view_pairs(final(acc)@) == insert_all(view_pairs(old(acc)@), view_pairs(m@)),
{
    let ghost ms = m@;
    let ghost mv = view_pairs(m@);
    let ghost a0 = view_pairs(acc@);
    assert(mv.take(0) =~= Seq::<(Seq<char>, SpecLLSD)>::empty());
    for kv in it: m.into_iter()
        invariant
            it.seq() == ms,
            mv == view_pairs(ms),
            view_pairs(acc@) == insert_all(a0, mv.take(it.index() as int)),
    {
        let ghost i = it.index() as int;
        let (k, v) = kv;
        assert(mv[i] == (k@, v@));
        dict_insert_exec(acc, k, v);
        assert(mv.take(i + 1).drop_last() =~= mv.take(i));
    }
    assert(mv.take(ms.len() as int) =~= mv);
}

/// Whether every value is a map.
fn all_dicts(vals: &Vec<LLSDValue>) -> (b: bool)
    ensures
        b == all_maps(view_items(vals@)),
{
    let mut i: usize = 0;
    while i < vals.len()
        invariant
            i <= vals@.len(),
            forall|j: int| 0 <= j < i ==> #[trigger] view_items(vals@)[j] is Dict,
        decreases vals@.len() - i,
    {
        match &vals[i] {
            LLSDValue::Dict(_) => {},
            _ => {
                assert(!(view_items(vals@)[i as int] is Dict));
                return false;
            },
        }
        i = i + 1;
    }
    true
}

/// The entries of all the maps among `vals`, merged in order.
fn merge_maps_exec(vals: Vec<LLSDValue>) -> (r: Vec<(String, LLSDValue)>)
    ensures
        view_pairs(r@) == merge_maps(view_items(vals@)),
{
    let ghost vs = vals@;
    let ghost vv = view_items(vals@);
    let mut acc: Vec<(String, LLSDValue)> = Vec::new();
    assert(vv.take(0) =~= Seq::<SpecLLSD>::empty());
    assert(view_pairs(acc@) =~= Seq::<(Seq<char>, SpecLLSD)>::empty());
    for v in it: vals.into_iter()
        invariant
            it.seq() == vs,
            vv == view_items(vs),
            view_pairs(acc@) == merge_maps(vv.take(it.index() as int)),
    {
        let ghost i = it.index() as int;
        assert(vv[i] == v@);
        assert(vv.take(i + 1).drop_last() =~= vv.take(i));
        match v {
            LLSDValue::Dict(m) => {
                insert_all_exec(&mut acc, m);
            },
            _ => {
                assert(insert_all(view_pairs(acc@), Seq::empty()) == view_pairs(acc@));
            },
        }
    }
    assert(vv.take(vs.len() as int) =~= vv);
    acc
}

/// One item of a container with several items: an array of maps becomes their merged map.
fn merge_item_exec(v: LLSDValue) -> (r: LLSDValue)
    ensures
        r@ == merge_item(v@),
{
    match v {
        LLSDValue::Array(arr) => {
            if all_dicts(&arr) {
                LLSDValue::Dict(merge_maps_exec(arr))
            } else {
                LLSDValue::Array(arr)
            }
        },
        other => other,
    }
}

/// The value of a container element with the given items.
fn container_value_exec(items: Vec<LLSDValue>) -> (r: LLSDValue)
    ensures
        r@ == container_value(view_items(items@)),
{
    if items.len() == 0 {
        let empty: Vec<LLSDValue> = Vec::new();
        assert(view_items(empty@) =~= Seq::<SpecLLSD>::empty());
        LLSDValue::Array(empty)
    } else if items.len() == 1 {
        let mut items = items;
        let last = items.pop();
        match last {
            Some(v) => v,
            None => LLSDValue::Undefined,
        }
    } else {
        let ghost vs = items@;
        let ghost vv = view_items(items@);
        let mut out: Vec<LLSDValue> = Vec::new();
        for v in it: items.into_iter()
            invariant
                it.seq() == vs,
                vv == view_items(vs),
                view_items(out@) == vv.take(it.index() as int).map_values(
                    |x: SpecLLSD| merge_item(x),
                ),
        {
            let ghost i = it.index() as int;
            assert(vv[i] == v@);
            let ghost before = out@;
            let m = merge_item_exec(v);
            out.push(m);
            assert(view_items(out@) =~= view_items(before).push(m@));
            assert(view_items(out@) =~= vv.take(i + 1).map_values(|x: SpecLLSD| merge_item(x)));
        }
        assert(vv.take(vs.len() as int) =~= vv);
        LLSDValue::Array(out)
    }
}

/// A login response as a single map: the maps of an array are merged into one, later
/// keys replacing earlier ones and other items dropped; any other value is returned
/// as it is.
pub fn flatten_login_response(value: LLSDValue) -> (r: LLSDValue)
    ensures
        r@ == flatten_spec(value@),
{
    match value {
        LLSDValue::Array(arr) => LLSDValue::Dict(merge_maps_exec(arr)),
        other => other,
    }
}

/// Reads the value of an element whose start tag `tag` stands just before `p`.
fn parse_value(ev: &Vec<XmlEvent>, p: usize, tag: &String) -> (r: Result<(LLSDValue, usize), XmlRpcError>)
    requires
        p <= ev@.len(),
    ensures
        res_view(r) == de_value(ev@, p as int, tag@),
        r matches Ok((_, q)) ==> p < q <= ev@.len(),
    decreases ev@.len() - p, 3nat,
{
    if is_primitive_name(tag) {
        parse_primitive_value(ev, p, tag)
    } else if is_tag(tag, "map") {
        parse_struct(ev, p, "key", "map")
    } else if is_tag(tag, "array") {
        parse_array(ev, p)
    } else if is_container_name(tag) {
        parse_container(ev, p, tag)
    } else if is_tag(tag, "member") {
        parse_struct(ev, p, "name", "member")
    } else {
        Err(XmlRpcError::UnknownType)
    }
}

/// Reads a container element (`params`, `param`, `value`, `struct` or `data`) whose
/// start tag stands just before `p0`.
fn parse_container(ev: &Vec<XmlEvent>, p0: usize, end_tag: &String) -> (r: Result<
    (LLSDValue, usize),
    XmlRpcError,
>)
    requires
        p0 <= ev@.len(),
    ensures
        res_view(r) == de_container(ev@, p0 as int, end_tag@, Seq::empty()),
        r matches Ok((_, q)) ==> p0 < q <= ev@.len(),
    decreases ev@.len() - p0, 1nat,
{
    let mut items: Vec<LLSDValue> = Vec::new();
    let mut p = p0;
    assert(view_items(items@) =~= Seq::<SpecLLSD>::empty());
    loop
        invariant
            p0 <= p <= ev@.len(),
            de_container(ev@, p0 as int, end_tag@, Seq::empty()) == de_container(
                ev@,
                p as int,
                end_tag@,
                view_items(items@),
            ),
        decreases ev@.len() - p,
    {
        if p >= ev.len() {
            return Err(XmlRpcError::UnexpectedEnd);
        }
        match &ev[p] {
            XmlEvent::Start(n) => {
                match parse_value(ev, p + 1, n) {
                    Ok((v, q)) => {
                        let empty = match &v {
                            LLSDValue::Array(a) => a.len() == 0,
                            _ => false,
                        };
                        assert(empty == is_empty_array(v@));
                        if !empty {
                            let ghost before = items@;
                            let ghost vv = v@;
                            items.push(v);
                            assert(view_items(items@) =~= view_items(before).push(vv));
                        }
                        p = q;
                    },
                    Err(e) => {
                        return Err(e);
                    },
                }
            },
            XmlEvent::End(n) => {
                if *n == *end_tag {
                    return Ok((container_value_exec(items), p + 1));
                }
                p = p + 1;
            },
            XmlEvent::Eof => {
                return Err(XmlRpcError::UnexpectedEnd);
            },
            XmlEvent::Error => {
                return Err(XmlRpcError::Syntax);
            },
            _ => {
                p = p + 1;
            },
        }
    }
}

/// Reads a map-like element whose start tag stands just before `p0`: entries whose
/// key element is `entry_tag`, closed by `end_tag`.
fn parse_struct(ev: &Vec<XmlEvent>, p0: usize, entry_tag: &str, end_tag: &str) -> (r: Result<
    (LLSDValue, usize),
    XmlRpcError,
>)
    requires
        p0 <= ev@.len(),
    ensures
        res_view(r) == de_struct(ev@, p0 as int, entry_tag@, end_tag@, Seq::empty()),
        r matches Ok((_, q)) ==> p0 < q <= ev@.len(),
    decreases ev@.len() - p0, 1nat,
{
    let mut pairs: Vec<(String, LLSDValue)> = Vec::new();
    let mut p = p0;
    assert(view_pairs(pairs@) =~= Seq::<(Seq<char>, SpecLLSD)>::empty());
    loop
        invariant
            p0 <= p <= ev@.len(),
            de_struct(ev@, p0 as int, entry_tag@, end_tag@, Seq::empty()) == de_struct(
                ev@,
                p as int,
                entry_tag@,
                end_tag@,
                view_pairs(pairs@),
            ),
        decreases ev@.len() - p,
    {
        if p >= ev.len() {
            return Err(XmlRpcError::UnexpectedEnd);
        }
        match &ev[p] {
            XmlEvent::Start(n) => {
                if !is_tag(n, entry_tag) {
                    return Err(XmlRpcError::UnexpectedElement);
                }
                match parse_entry(ev, p + 1, entry_tag) {
                    Ok((k, v, q)) => {
                        dict_insert_exec(&mut pairs, k, v);
                        p = q;
                    },
                    Err(e) => {
                        return Err(e);
                    },
                }
            },
            XmlEvent::Text(t) => {
                if t.is_none() {
                    return Err(XmlRpcError::Syntax);
                }
                p = p + 1;
            },
            XmlEvent::End(n) => {
                if !is_tag(n, end_tag) {
                    return Err(XmlRpcError::UnmatchedTags);
                }
                return Ok((LLSDValue::Dict(pairs), p + 1));
            },
            XmlEvent::Eof => {
                return Err(XmlRpcError::UnexpectedEnd);
            },
            XmlEvent::Comment => {
                p = p + 1;
            },
            XmlEvent::Error => {
                return Err(XmlRpcError::Syntax);
            },
            XmlEvent::Other => {
                return Err(XmlRpcError::UnexpectedEvent);
            },
        }
    }
}

/// Reads one entry of a map-like element: the rest of its key element (whose start
/// tag stands just before `p0`), then the value element that follows.
fn parse_entry(ev: &Vec<XmlEvent>, p0: usize, entry_tag: &str) -> (r: Result<
    (String, LLSDValue, usize),
    XmlRpcError,
>)
    requires
        p0 <= ev@.len(),
    ensures
        match r {
            Ok((k, v, q)) => de_entry(ev@, p0 as int, entry_tag@, Seq::empty()) == Ok::<
                (Seq<char>, SpecLLSD, int),
                XmlRpcError,
            >((k@, v@, q as int)) && p0 < q <= ev@.len(),
            Err(e) => de_entry(ev@, p0 as int, entry_tag@, Seq::empty()) == Err::<
                (Seq<char>, SpecLLSD, int),
                XmlRpcError,
            >(e),
        },
    decreases ev@.len() - p0, 1nat,
{
    let mut texts: Vec<String> = Vec::new();
    let mut p = p0;
    assert(text_views(texts@) =~= Seq::<Seq<char>>::empty());
    loop
        invariant
            p0 <= p <= ev@.len(),
            de_entry(ev@, p0 as int, entry_tag@, Seq::empty()) == de_entry(
                ev@,
                p as int,
                entry_tag@,
                text_views(texts@),
            ),
        decreases ev@.len() - p,
    {
        if p >= ev.len() {
            return Err(XmlRpcError::UnexpectedEnd);
        }
        match &ev[p] {
            XmlEvent::Start(_) => {
                return Err(XmlRpcError::UnexpectedElement);
            },
            XmlEvent::Text(t) => match t {
                Some(s) => {
                    let ghost old_texts = texts@;
                    texts.push(s.clone());
                    assert(text_views(texts@) =~= text_views(old_texts).push(s@));
                    p = p + 1;
                },
                None => {
                    return Err(XmlRpcError::Syntax);
                },
            },
            XmlEvent::End(n) => {
                if !is_tag(n, entry_tag) {
                    return Err(XmlRpcError::UnmatchedTags);
                }
                let key = string_of(&join_space_trimmed(&texts));
                if p + 1 >= ev.len() {
                    return Err(XmlRpcError::UnexpectedEvent);
                }
                return match &ev[p + 1] {
                    XmlEvent::Start(t2) => match parse_value(ev, p + 2, t2) {
                        Ok((v, q)) => Ok((key, v, q)),
                        Err(e) => Err(e),
                    },
                    _ => Err(XmlRpcError::UnexpectedEvent),
                };
            },
            XmlEvent::Eof => {
                return Err(XmlRpcError::UnexpectedEnd);
            },
            XmlEvent::Comment => {
                p = p + 1;
            },
            XmlEvent::Error => {
                return Err(XmlRpcError::Syntax);
            },
            XmlEvent::Other => {
                return Err(XmlRpcError::UnexpectedEvent);
            },
        }
    }
}

/// Reads an `<array>` element whose start tag stands just before `p0`.
fn parse_array(ev: &Vec<XmlEvent>, p0: usize) -> (r: Result<(LLSDValue, usize), XmlRpcError>)
    requires
        p0 <= ev@.len(),
    ensures
        res_view(r) == de_array(ev@, p0 as int, Seq::empty()),
        r matches Ok((_, q)) ==> p0 < q <= ev@.len(),
    decreases ev@.len() - p0, 1nat,
{
    let mut items: Vec<LLSDValue> = Vec::new();
    let mut p = p0;
    assert(view_items(items@) =~= Seq::<SpecLLSD>::empty());
    loop
        invariant
            p0 <= p <= ev@.len(),
            de_array(ev@, p0 as int, Seq::empty()) == de_array(ev@, p as int, view_items(items@)),
        decreases ev@.len() - p,
    {
        if p >= ev.len() {
            return Err(XmlRpcError::UnexpectedEnd);
        }
        match &ev[p] {
            XmlEvent::Start(n) => {
                match parse_value(ev, p + 1, n) {
                    Ok((v, q)) => {
                        let ghost before = items@;
                        let ghost vv = v@;
                        items.push(v);
                        assert(view_items(items@) =~= view_items(before).push(vv));
                        p = q;
                    },
                    Err(e) => {
                        return Err(e);
                    },
                }
            },
            XmlEvent::Text(t) => {
                if t.is_none() {
                    return Err(XmlRpcError::Syntax);
                }
                p = p + 1;
            },
            XmlEvent::End(n) => {
                if !is_tag(n, "array") {
                    return Err(XmlRpcError::UnmatchedTags);
                }
                return Ok((LLSDValue::Array(items), p + 1));
            },
            XmlEvent::Eof => {
                return Err(XmlRpcError::UnexpectedEnd);
            },
            XmlEvent::Comment => {
                p = p + 1;
            },
            XmlEvent::Error => {
                return Err(XmlRpcError::Syntax);
            },
            XmlEvent::Other => {
                return Err(XmlRpcError::UnexpectedEvent);
            },
        }
    }
}

/// Reads a whole XML-RPC method response from its events: the value in its single
/// `<methodResponse>` block.
pub fn from_events(ev: &Vec<XmlEvent>) -> (r: Result<LLSDValue, XmlRpcError>)
    ensures
        match r {
            Ok(v) => de_document(ev@, 0, None) == Ok::<SpecLLSD, XmlRpcError>(v@),
            Err(e) => de_document(ev@, 0, None) == Err::<SpecLLSD, XmlRpcError>(e),
        },
{
    let mut out: Option<LLSDValue> = None;
    let mut p: usize = 0;
    loop
        invariant
            p <= ev@.len(),
            de_document(ev@, 0, None) == de_document(
                ev@,
                p as int,
                match out {
                    Some(v) => Some(v@),
                    None => None,
                },
            ),
        decreases ev@.len() - p,
    {
        if p >= ev.len() {
            return match out {
                Some(v) => Ok(v),
                None => Err(XmlRpcError::NoResponse),
            };
        }
        match &ev[p] {
            XmlEvent::Start(n) => {
                if !is_tag(n, "methodResponse") {
                    return Err(XmlRpcError::UnexpectedElement);
                }
                if out.is_some() {
                    return Err(XmlRpcError::DuplicateResponse);
                }
                if p + 1 >= ev.len() {
                    return Err(XmlRpcError::UnexpectedEvent);
                }
                match &ev[p + 1] {
                    XmlEvent::Start(t) => match parse_value(ev, p + 2, t) {
                        Ok((v, q)) => {
                            out = Some(v);
                            p = q;
                        },
                        Err(e) => {
                            return Err(e);
                        },
                    },
                    _ => {
                        return Err(XmlRpcError::UnexpectedEvent);
                    },
                }
            },
            XmlEvent::Eof => {
                return match out {
                    Some(v) => Ok(v),
                    None => Err(XmlRpcError::NoResponse),
                };
            },
            XmlEvent::Error => {
                return Err(XmlRpcError::Syntax);
            },
            _ => {
                p = p + 1;
            },
        }
    }
}

/// The events that quick-xml's reader yields on the text, up to the end of input or
/// the first error.
pub fn xml_events_of(text: &str) -> (r: Vec<XmlEvent>)
    ensures
        r@ == xml_tokens(text@),
{
    let mut reader = open_xml_reader(text);
    let ghost all = xml_tokens(text@);
    let mut out: Vec<XmlEvent> = Vec::new();
    assert(all.skip(0) =~= all);
    loop
        invariant_except_break
            ends_once(all),
            out@.len() < all.len(),
            out@ == all.take(out@.len() as int),
            pending_events(reader) == all.skip(out@.len() as int),
        ensures
            out@ == all,
        decreases all.len() - out@.len(),
    {
        let ghost k = out@.len() as int;
        let e = next_xml_event(&mut reader);
        let fin = match e {
            XmlEvent::Eof => true,
            XmlEvent::Error => true,
            _ => false,
        };
        assert(fin == is_final_event(all[k]));
        out.push(e);
        assert(out@ =~= all.take(k + 1));
        assert(all.skip(k).drop_first() =~= all.skip(k + 1));
        if fin {
            assert(k == all.len() - 1);
            assert(all.take(k + 1) =~= all);
            break;
        }
    }
    out
}

/// Parses LLSD written as an XML-RPC method response into an LLSD tree, flattened
/// as a login response is (see `flatten_login_response`).
pub fn from_str(xmlstr: &str) -> (r: Result<LLSDValue, XmlRpcError>)
    ensures
        match r {
            Ok(v) => from_events_spec(xml_tokens(xmlstr@)) == Ok::<SpecLLSD, XmlRpcError>(v@),
            Err(e) => from_events_spec(xml_tokens(xmlstr@)) == Err::<SpecLLSD, XmlRpcError>(e),
        },
{
    let ev = xml_events_of(xmlstr);
    match from_events(&ev) {
        Ok(v) => Ok(flatten_login_response(v)),
        Err(e) => Err(e),
    }
}

} // verus!

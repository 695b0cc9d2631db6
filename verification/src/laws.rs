//! Properties that hold across the library's operations.
use vstd::prelude::*;
use crate::value::{
    SpecLLSD, dict_get, dict_insert, dict_find, keys_distinct, well_formed, lemma_dict_find,
    lemma_dict_find_range,
};
use crate::de::xml_rpc::{
    de_value, de_container, de_struct, de_entry, de_array, de_primitive, de_document,
    primitive_value, container_value, merge_item, merge_maps, insert_all, entries_of, flatten_spec,
    from_events_spec, is_empty_array, event_at,
};
use crate::de::newline::{
    wearable_spec, wear_body, wear_permissions, wear_sale_info, wear_parameters, wear_textures,
    WearSections, permission_value,
};
use crate::xml_event::XmlEvent;
use crate::ser::xml_rpc::document_text;
use crate::ser::layout::{single_line, texts_single_line, concat_lines, lemma_flatten_document};
use crate::text::trimmed_lines;
use crate::numbers::{
    digit_char, digit_value, dec_nat, dec_int, all_digits, digits_value, parse_int_spec,
    parse_i32_spec, eq_ignore_ascii_case,
};
use crate::outside::uuid_parsed;
use crate::numbers::real_text_ok;
use crate::ser::xml_rpc::leaf_text;
use crate::de::newline::count_spec;
use crate::ser::xml_rpc::value_text;
use crate::ser::xml::escape_spec;
use crate::converter::FromLLSDValue;

verus! {

// ---------------------------------------------------------------------------
// Maps
// ---------------------------------------------------------------------------

/// After a key is inserted, the map gives the inserted value for it.
pub proof fn law_get_after_insert(pairs: Seq<(Seq<char>, SpecLLSD)>, key: Seq<char>, val: SpecLLSD)
    ensures
        dict_get(dict_insert(pairs, key, val), key) == Some(val),
{
    lemma_dict_find_range(pairs, key);
    let i = dict_find(pairs, key);
    let r = dict_insert(pairs, key, val);
    if 0 <= i < pairs.len() {
        assert forall|j: int| 0 <= j < i implies #[trigger] r[j].0 != key by {
            assert(r[j] == pairs[j]);
        }
        lemma_dict_find(r, key, i);
    } else {
        assert forall|j: int| 0 <= j < pairs.len() implies #[trigger] r[j].0 != key by {
            assert(r[j] == pairs[j]);
        }
        lemma_dict_find(r, key, pairs.len() as int);
    }
}

/// Inserting a key leaves the values of all other keys as they were.
pub proof fn law_insert_keeps_other_keys(
    pairs: Seq<(Seq<char>, SpecLLSD)>,
    key: Seq<char>,
    val: SpecLLSD,
    other: Seq<char>,
)
    requires
        other != key,
    ensures
        dict_get(dict_insert(pairs, key, val), other) == dict_get(pairs, other),
{
    lemma_dict_find_range(pairs, key);
    lemma_dict_find_range(pairs, other);
    let r = dict_insert(pairs, key, val);
    let j = dict_find(pairs, other);
    assert forall|m: int| 0 <= m < pairs.len() implies #[trigger] r[m].0 == other <==> pairs[m].0
        == other by {
        if m == dict_find(pairs, key) {
            assert(pairs[m].0 == key);
        }
    }
    if j >= 0 {
        assert forall|m: int| 0 <= m < j implies #[trigger] r[m].0 != other by {
            assert(pairs[m].0 != other);
        }
        lemma_dict_find(r, other, j);
    } else {
        assert forall|m: int| 0 <= m < r.len() implies #[trigger] r[m].0 != other by {
            if m < pairs.len() {
                assert(pairs[m].0 != other);
            }
        }
        lemma_dict_find(r, other, r.len() as int);
    }
}

/// Inserting into a map whose keys are distinct keeps them distinct; the map grows by
/// one entry exactly when the key was absent.
pub proof fn law_insert_keeps_keys_distinct(
    pairs: Seq<(Seq<char>, SpecLLSD)>,
    key: Seq<char>,
    val: SpecLLSD,
)
    requires
        keys_distinct(pairs),
    ensures
        keys_distinct(dict_insert(pairs, key, val)),
        dict_insert(pairs, key, val).len() == pairs.len() + (if dict_get(pairs, key) is Some {
            0int
        } else {
            1int
        }),
{
    lemma_dict_find_range(pairs, key);
    let r = dict_insert(pairs, key, val);
    let i = dict_find(pairs, key);
    assert forall|a: int, b: int| 0 <= a < b < r.len() implies #[trigger] r[a].0 != #[trigger] r[b].0 by {
        if 0 <= i < pairs.len() {
            if a == i {
                assert(pairs[b].0 != pairs[i].0);
            } else if b == i {
                assert(pairs[a].0 != pairs[i].0);
            } else {
                assert(pairs[a].0 != pairs[b].0);
            }
        } else if b == pairs.len() {
            assert(pairs[a].0 != key);
        } else {
            assert(pairs[a].0 != pairs[b].0);
        }
    }
}

// ---------------------------------------------------------------------------
// Reading XML-RPC
// ---------------------------------------------------------------------------

/// A map whose keys are distinct and whose values are well formed.
pub open spec fn map_wf(pairs: Seq<(Seq<char>, SpecLLSD)>) -> bool {
    keys_distinct(pairs) && forall|i: int| 0 <= i < pairs.len() ==> well_formed(#[trigger] pairs[i].1)
}

pub open spec fn all_wf(vals: Seq<SpecLLSD>) -> bool {
    forall|i: int| 0 <= i < vals.len() ==> well_formed(#[trigger] vals[i])
}

proof fn lemma_insert_wf(pairs: Seq<(Seq<char>, SpecLLSD)>, key: Seq<char>, val: SpecLLSD)
    requires
        map_wf(pairs),
        well_formed(val),
    ensures
        map_wf(dict_insert(pairs, key, val)),
{
    law_insert_keeps_keys_distinct(pairs, key, val);
    lemma_dict_find_range(pairs, key);
    let r = dict_insert(pairs, key, val);
    assert forall|i: int| 0 <= i < r.len() implies well_formed(#[trigger] r[i].1) by {
        if i < pairs.len() && i != dict_find(pairs, key) {
            assert(r[i] == pairs[i]);
        }
    }
}

proof fn lemma_insert_all_wf(acc: Seq<(Seq<char>, SpecLLSD)>, pairs: Seq<(Seq<char>, SpecLLSD)>)
    requires
        map_wf(acc),
        forall|i: int| 0 <= i < pairs.len() ==> well_formed(#[trigger] pairs[i].1),
    ensures
        map_wf(insert_all(acc, pairs)),
    decreases pairs.len(),
{
    if pairs.len() > 0 {
        assert forall|i: int| 0 <= i < pairs.drop_last().len() implies well_formed(
            #[trigger] pairs.drop_last()[i].1,
        ) by {
            assert(pairs.drop_last()[i] == pairs[i]);
        }
        lemma_insert_all_wf(acc, pairs.drop_last());
        lemma_insert_wf(insert_all(acc, pairs.drop_last()), pairs.last().0, pairs.last().1);
    }
}

proof fn lemma_merge_maps_wf(vals: Seq<SpecLLSD>)
    requires
        all_wf(vals),
    ensures
        map_wf(merge_maps(vals)),
    decreases vals.len(),
{
    if vals.len() > 0 {
        assert(all_wf(vals.drop_last())) by {
            assert forall|i: int| 0 <= i < vals.drop_last().len() implies well_formed(
                #[trigger] vals.drop_last()[i],
            ) by {
                assert(vals.drop_last()[i] == vals[i]);
            }
        }
        lemma_merge_maps_wf(vals.drop_last());
        assert(well_formed(vals[vals.len() - 1]));
        lemma_insert_all_wf(merge_maps(vals.drop_last()), entries_of(vals.last()));
    } else {
        assert(map_wf(Seq::empty()));
    }
}

proof fn lemma_merge_item_wf(v: SpecLLSD)
    requires
        well_formed(v),
    ensures
        well_formed(merge_item(v)),
{
    if let SpecLLSD::Array(arr) = v {
        lemma_merge_maps_wf(arr);
    }
}

proof fn lemma_container_value_wf(items: Seq<SpecLLSD>)
    requires
        all_wf(items),
    ensures
        well_formed(container_value(items)),
{
    if items.len() > 1 {
        let m = items.map_values(|v: SpecLLSD| merge_item(v));
        assert forall|i: int| 0 <= i < m.len() implies well_formed(#[trigger] m[i]) by {
            lemma_merge_item_wf(items[i]);
        }
    } else if items.len() == 0 {
        assert(well_formed(SpecLLSD::Array(Seq::empty())));
    }
}

proof fn lemma_primitive_wf(tag: Seq<char>, text: Seq<char>)
    ensures
        primitive_value(tag, text) matches Ok(v) ==> well_formed(v),
{
}

proof fn lemma_de_primitive_wf(ev: Seq<XmlEvent>, p: int, tag: Seq<char>, texts: Seq<Seq<char>>)
    ensures
        de_primitive(ev, p, tag, texts) matches Ok((v, _)) ==> well_formed(v),
    decreases ev.len() - p,
{
    match event_at(ev, p) {
        XmlEvent::Text(t) => {
            if let Some(s) = t {
                lemma_de_primitive_wf(ev, p + 1, tag, texts.push(s@));
            }
        },
        XmlEvent::End(_) => {
            lemma_primitive_wf(tag, crate::text::trim(crate::text::join_space(texts)));
        },
        XmlEvent::Comment => {
            lemma_de_primitive_wf(ev, p + 1, tag, texts);
        },
        _ => {},
    }
}

proof fn lemma_de_value_wf(ev: Seq<XmlEvent>, p: int, tag: Seq<char>)
    ensures
        de_value(ev, p, tag) matches Ok((v, _)) ==> well_formed(v),
    decreases ev.len() - p, 3nat,
{
    if p < 0 || p > ev.len() {
    } else if crate::de::xml_rpc::is_primitive_tag(tag) {
        lemma_de_primitive_wf(ev, p, tag, Seq::empty());
    } else if tag == "map"@ {
        lemma_de_struct_wf(ev, p, "key"@, "map"@, Seq::empty());
    } else if tag == "array"@ {
        lemma_de_array_wf(ev, p, Seq::empty());
    } else if crate::de::xml_rpc::is_container_tag(tag) {
        lemma_de_container_wf(ev, p, tag, Seq::empty());
    } else if tag == "member"@ {
        lemma_de_struct_wf(ev, p, "name"@, "member"@, Seq::empty());
    }
}

proof fn lemma_de_container_wf(ev: Seq<XmlEvent>, p: int, tag: Seq<char>, items: Seq<SpecLLSD>)
    requires
        all_wf(items),
    ensures
        de_container(ev, p, tag, items) matches Ok((v, _)) ==> well_formed(v),
    decreases ev.len() - p, 1nat,
{
    match event_at(ev, p) {
        XmlEvent::Start(n) => {
            lemma_de_value_wf(ev, p + 1, n@);
            if let Ok((v, q)) = de_value(ev, p + 1, n@) {
                if p < q <= ev.len() {
                    let next = if is_empty_array(v) {
                        items
                    } else {
                        items.push(v)
                    };
                    assert forall|i: int| 0 <= i < next.len() implies well_formed(#[trigger] next[i]) by {
                        if i < items.len() {
                            assert(next[i] == items[i]);
                        }
                    }
                    lemma_de_container_wf(ev, q, tag, next);
                }
            }
        },
        XmlEvent::End(n) => {
            if n@ == tag {
                lemma_container_value_wf(items);
            } else {
                lemma_de_container_wf(ev, p + 1, tag, items);
            }
        },
        XmlEvent::Eof => {},
        XmlEvent::Error => {},
        _ => {
            lemma_de_container_wf(ev, p + 1, tag, items);
        },
    }
}

proof fn lemma_de_struct_wf(
    ev: Seq<XmlEvent>,
    p: int,
    entry_tag: Seq<char>,
    end_tag: Seq<char>,
    pairs: Seq<(Seq<char>, SpecLLSD)>,
)
    requires
        map_wf(pairs),
    ensures
        de_struct(ev, p, entry_tag, end_tag, pairs) matches Ok((v, _)) ==> well_formed(v),
    decreases ev.len() - p, 1nat,
{
    match event_at(ev, p) {
        XmlEvent::Start(n) => {
            if n@ == entry_tag {
                lemma_de_entry_wf(ev, p + 1, entry_tag, Seq::empty());
                if let Ok((k, v, q)) = de_entry(ev, p + 1, entry_tag, Seq::empty()) {
                    if p < q <= ev.len() {
                        lemma_insert_wf(pairs, k, v);
                        lemma_de_struct_wf(ev, q, entry_tag, end_tag, dict_insert(pairs, k, v));
                    }
                }
            }
        },
        XmlEvent::Text(t) => {
            if t is Some {
                lemma_de_struct_wf(ev, p + 1, entry_tag, end_tag, pairs);
            }
        },
        XmlEvent::Comment => {
            lemma_de_struct_wf(ev, p + 1, entry_tag, end_tag, pairs);
        },
        _ => {},
    }
}

proof fn lemma_de_entry_wf(ev: Seq<XmlEvent>, p: int, entry_tag: Seq<char>, texts: Seq<Seq<char>>)
    ensures
        de_entry(ev, p, entry_tag, texts) matches Ok((_, v, _)) ==> well_formed(v),
    decreases ev.len() - p, 1nat,
{
    match event_at(ev, p) {
        XmlEvent::Text(t) => {
            if let Some(s) = t {
                lemma_de_entry_wf(ev, p + 1, entry_tag, texts.push(s@));
            }
        },
        XmlEvent::End(n) => {
            if n@ == entry_tag {
                if let XmlEvent::Start(t2) = event_at(ev, p + 1) {
                    lemma_de_value_wf(ev, p + 2, t2@);
                }
            }
        },
        XmlEvent::Comment => {
            lemma_de_entry_wf(ev, p + 1, entry_tag, texts);
        },
        _ => {},
    }
}

proof fn lemma_de_array_wf(ev: Seq<XmlEvent>, p: int, items: Seq<SpecLLSD>)
    requires
        all_wf(items),
    ensures
        de_array(ev, p, items) matches Ok((v, _)) ==> well_formed(v),
    decreases ev.len() - p, 1nat,
{
    match event_at(ev, p) {
        XmlEvent::Start(n) => {
            lemma_de_value_wf(ev, p + 1, n@);
            if let Ok((v, q)) = de_value(ev, p + 1, n@) {
                if p < q <= ev.len() {
                    let next = items.push(v);
                    assert forall|i: int| 0 <= i < next.len() implies well_formed(#[trigger] next[i]) by {
                        if i < items.len() {
                            assert(next[i] == items[i]);
                        }
                    }
                    lemma_de_array_wf(ev, q, next);
                }
            }
        },
        XmlEvent::Text(t) => {
            if t is Some {
                lemma_de_array_wf(ev, p + 1, items);
            }
        },
        XmlEvent::Comment => {
            lemma_de_array_wf(ev, p + 1, items);
        },
        _ => {},
    }
}

proof fn lemma_de_document_wf(ev: Seq<XmlEvent>, p: int, out: Option<SpecLLSD>)
    requires
        out matches Some(v) ==> well_formed(v),
    ensures
        de_document(ev, p, out) matches Ok(v) ==> well_formed(v),
    decreases ev.len() - p,
{
    match event_at(ev, p) {
        XmlEvent::Start(n) => {
            if n@ == "methodResponse"@ && out is None {
                if let XmlEvent::Start(t) = event_at(ev, p + 1) {
                    lemma_de_value_wf(ev, p + 2, t@);
                    if let Ok((v, q)) = de_value(ev, p + 2, t@) {
                        if p < q <= ev.len() {
                            lemma_de_document_wf(ev, q, Some(v));
                        }
                    }
                }
            }
        },
        XmlEvent::Eof => {},
        XmlEvent::Error => {},
        _ => {
            lemma_de_document_wf(ev, p + 1, out);
        },
    }
}

/// Every value read from an XML-RPC response is well formed: in each of its maps, at
/// any depth, no key occurs twice (a repeated member name keeps its last value).
pub proof fn law_read_values_well_formed(ev: Seq<XmlEvent>)
    ensures
        from_events_spec(ev) matches Ok(v) ==> well_formed(v),
{
    lemma_de_document_wf(ev, 0, None);
    if let Ok(v) = crate::de::xml_rpc::de_document(ev, 0, None) {
        if let SpecLLSD::Array(arr) = v {
            lemma_merge_maps_wf(arr);
        }
    }
}

/// Flattening a login response twice gives what flattening it once gives.
pub proof fn law_flatten_idempotent(v: SpecLLSD)
    ensures
        flatten_spec(flatten_spec(v)) == flatten_spec(v),
{
}

// ---------------------------------------------------------------------------
// Writing
// ---------------------------------------------------------------------------

/// What `to_string` returns is what `to_writer_xmlrpc` writes into an empty writer:
/// the writer gets the method call appended to what it held, and `to_string` is that
/// method call alone.
pub proof fn law_string_is_what_writer_writes(v: SpecLLSD, do_indent: bool, method_name: Seq<char>)
    ensures
        Seq::<char>::empty() + document_text(v, do_indent, method_name) == document_text(
            v,
            do_indent,
            method_name,
        ),
{
    assert(Seq::<char>::empty() + document_text(v, do_indent, method_name) =~= document_text(
        v,
        do_indent,
        method_name,
    ));
}

/// Indenting adds only layout: the lines of the indented method call, each trimmed
/// of its surrounding whitespace and put one after the other, give the compact
/// method call, wherever the method name, the map keys, the strings and the reals
/// hold no line break.
pub proof fn law_indented_lines_give_compact(v: SpecLLSD, method_name: Seq<char>)
    requires
        single_line(method_name),
        texts_single_line(v),
    ensures
        concat_lines(trimmed_lines(document_text(v, true, method_name))) == document_text(
            v,
            false,
            method_name,
        ),
{
    lemma_flatten_document(v, method_name);
}

// ---------------------------------------------------------------------------
// Wearable assets
// ---------------------------------------------------------------------------

pub open spec fn sections_wf(acc: WearSections) -> bool {
    map_wf(acc.permissions) && map_wf(acc.sale_info) && map_wf(acc.parameters) && map_wf(
        acc.textures,
    )
}

proof fn lemma_wear_body_wf(ls: Seq<Seq<char>>, i: int, acc: WearSections)
    requires
        sections_wf(acc),
    ensures
        wear_body(ls, i, acc) matches Ok(r) ==> sections_wf(r),
    decreases ls.len() - i, 0nat,
{
    if 0 <= i < ls.len() {
        let line = ls[i];
        if crate::text::starts_with(line, "permissions"@) {
            if i + 1 < ls.len() && ls[i + 1] == "{"@ {
                lemma_wear_permissions_wf(ls, i + 2, acc);
            }
        } else if crate::text::starts_with(line, "sale_info"@) {
            if i + 1 < ls.len() && ls[i + 1] == "{"@ {
                lemma_wear_sale_info_wf(ls, i + 2, acc);
            }
        } else if crate::text::starts_with(line, "parameters"@) {
            let parts = crate::text::words(line);
            if parts.len() >= 2 {
                if let Some(n) = crate::de::newline::count_spec(parts[1]) {
                    lemma_wear_parameters_wf(ls, i + 1, n as nat, acc);
                }
            }
        } else if crate::text::starts_with(line, "textures"@) {
            let parts = crate::text::words(line);
            if parts.len() >= 2 {
                if let Some(n) = crate::de::newline::count_spec(parts[1]) {
                    lemma_wear_textures_wf(ls, i + 1, n as nat, acc);
                }
            }
        } else {
            lemma_wear_body_wf(ls, i + 1, acc);
        }
    }
}

proof fn lemma_wear_permissions_wf(ls: Seq<Seq<char>>, j: int, acc: WearSections)
    requires
        sections_wf(acc),
    ensures
        wear_permissions(ls, j, acc) matches Ok(r) ==> sections_wf(r),
    decreases ls.len() - j, 1nat,
{
    if 0 <= j < ls.len() {
        if ls[j] == "}"@ {
            lemma_wear_body_wf(ls, j + 1, acc);
        } else {
            let parts = crate::text::words(ls[j]);
            if parts.len() == 2 {
                if let Ok(v) = permission_value(parts[1]) {
                    lemma_insert_wf(acc.permissions, parts[0], v);
                    lemma_wear_permissions_wf(
                        ls,
                        j + 1,
                        WearSections { permissions: dict_insert(acc.permissions, parts[0], v), ..acc },
                    );
                }
            } else {
                lemma_wear_permissions_wf(ls, j + 1, acc);
            }
        }
    }
}

proof fn lemma_wear_sale_info_wf(ls: Seq<Seq<char>>, j: int, acc: WearSections)
    requires
        sections_wf(acc),
    ensures
        wear_sale_info(ls, j, acc) matches Ok(r) ==> sections_wf(r),
    decreases ls.len() - j, 1nat,
{
    if 0 <= j < ls.len() {
        if ls[j] == "}"@ {
            lemma_wear_body_wf(ls, j + 1, acc);
        } else {
            let parts = crate::text::words(ls[j]);
            if parts.len() == 2 {
                if parts[0] == "sale_type"@ {
                    let v = SpecLLSD::Str(parts[1]);
                    lemma_insert_wf(acc.sale_info, parts[0], v);
                    lemma_wear_sale_info_wf(
                        ls,
                        j + 1,
                        WearSections { sale_info: dict_insert(acc.sale_info, parts[0], v), ..acc },
                    );
                } else if parts[0] == "sale_price"@ {
                    if let Some(n) = crate::numbers::parse_i32_spec(parts[1]) {
                        let v = SpecLLSD::Integer(n as i32);
                        lemma_insert_wf(acc.sale_info, parts[0], v);
                        lemma_wear_sale_info_wf(
                            ls,
                            j + 1,
                            WearSections { sale_info: dict_insert(acc.sale_info, parts[0], v), ..acc },
                        );
                    }
                }
            }
        }
    }
}

proof fn lemma_wear_parameters_wf(ls: Seq<Seq<char>>, j: int, n: nat, acc: WearSections)
    requires
        sections_wf(acc),
    ensures
        wear_parameters(ls, j, n, acc) matches Ok(r) ==> sections_wf(r),
    decreases ls.len() - j, 1nat,
{
    if n == 0 {
        lemma_wear_body_wf(ls, j, acc);
    } else if 0 <= j < ls.len() {
        let parts = crate::text::words(ls[j]);
        if parts.len() == 2 {
            let v = SpecLLSD::Real(parts[1]);
            lemma_insert_wf(acc.parameters, parts[0], v);
            lemma_wear_parameters_wf(
                ls,
                j + 1,
                (n - 1) as nat,
                WearSections { parameters: dict_insert(acc.parameters, parts[0], v), ..acc },
            );
        } else {
            lemma_wear_parameters_wf(ls, j + 1, (n - 1) as nat, acc);
        }
    }
}

proof fn lemma_wear_textures_wf(ls: Seq<Seq<char>>, j: int, n: nat, acc: WearSections)
    requires
        sections_wf(acc),
    ensures
        wear_textures(ls, j, n, acc) matches Ok(r) ==> sections_wf(r),
    decreases ls.len() - j, 1nat,
{
    if n == 0 {
        lemma_wear_body_wf(ls, j, acc);
    } else if 0 <= j < ls.len() {
        let parts = crate::text::words(ls[j]);
        if parts.len() == 2 {
            if let Some(bits) = crate::outside::uuid_parsed(parts[1]) {
                let v = SpecLLSD::UUID(bits);
                lemma_insert_wf(acc.textures, parts[0], v);
                lemma_wear_textures_wf(
                    ls,
                    j + 1,
                    (n - 1) as nat,
                    WearSections { textures: dict_insert(acc.textures, parts[0], v), ..acc },
                );
            }
        } else {
            lemma_wear_textures_wf(ls, j + 1, (n - 1) as nat, acc);
        }
    }
}

/// A wearable asset reads as a well-formed map whose keys are `version`, `name`,
/// `permissions`, `sale_info`, `parameters` and `textures`, in that order, the last
/// four holding maps.
pub proof fn law_wearable_shape(text: Seq<char>)
    ensures
        wearable_spec(text) matches Ok(v) ==> {
            &&& well_formed(v)
            &&& v matches SpecLLSD::Dict(pairs) && pairs.len() == 6 && pairs[0].0 == "version"@
                && pairs[1].0 == "name"@ && pairs[2].0 == "permissions"@ && pairs[3].0
                == "sale_info"@ && pairs[4].0 == "parameters"@ && pairs[5].0 == "textures"@
                && pairs[2].1 is Dict && pairs[3].1 is Dict && pairs[4].1 is Dict && pairs[5].1 is Dict
        },
{
    reveal_strlit("version");
    reveal_strlit("name");
    reveal_strlit("permissions");
    reveal_strlit("sale_info");
    reveal_strlit("parameters");
    reveal_strlit("textures");
    let ls = crate::text::trimmed_lines(text);
    let empty = crate::de::newline::no_sections();
    assert(map_wf(Seq::<(Seq<char>, SpecLLSD)>::empty()));
    lemma_wear_body_wf(ls, 2, empty);
    if let Ok(v) = wearable_spec(text) {
        let acc = wear_body(ls, 2, empty)->Ok_0;
        assert(sections_wf(acc));
        assert(well_formed(SpecLLSD::Dict(acc.permissions)));
        assert(well_formed(SpecLLSD::Dict(acc.sale_info)));
        assert(well_formed(SpecLLSD::Dict(acc.parameters)));
        assert(well_formed(SpecLLSD::Dict(acc.textures)));
        if let SpecLLSD::Dict(pairs) = v {
            assert forall|i: int| 0 <= i < pairs.len() implies well_formed(#[trigger] pairs[i].1) by {}
            assert forall|a: int, b: int| 0 <= a < b < pairs.len() implies #[trigger] pairs[a].0
                != #[trigger] pairs[b].0 by {
                assert(pairs[a].0.len() != pairs[b].0.len());
            }
        }
    }
}

/// `ls2` is `ls1` with one more line standing before line 2 of `ls1`.
pub open spec fn one_line_inserted(ls1: Seq<Seq<char>>, ls2: Seq<Seq<char>>) -> bool {
    &&& ls2.len() == ls1.len() + 1
    &&& forall|m: int| 2 <= m < ls1.len() ==> #[trigger] ls2[m + 1] == ls1[m]
}

proof fn lemma_shift_body(ls1: Seq<Seq<char>>, ls2: Seq<Seq<char>>, i: int, acc: WearSections)
    requires
        one_line_inserted(ls1, ls2),
        i >= 2,
    ensures
        wear_body(ls2, i + 1, acc) == wear_body(ls1, i, acc),
    decreases ls1.len() - i, 0nat,
{
    if i < ls1.len() {
        assert(ls2[i + 1] == ls1[i]);
        if i + 1 < ls1.len() {
            assert(ls2[i + 2] == ls1[i + 1]);
        }
        let line = ls1[i];
        if crate::text::starts_with(line, "permissions"@) {
            if i + 1 < ls1.len() && ls1[i + 1] == "{"@ {
                lemma_shift_permissions(ls1, ls2, i + 2, acc);
            }
        } else if crate::text::starts_with(line, "sale_info"@) {
            if i + 1 < ls1.len() && ls1[i + 1] == "{"@ {
                lemma_shift_sale_info(ls1, ls2, i + 2, acc);
            }
        } else if crate::text::starts_with(line, "parameters"@) {
            let parts = crate::text::words(line);
            if parts.len() >= 2 {
                if let Some(n) = crate::de::newline::count_spec(parts[1]) {
                    lemma_shift_parameters(ls1, ls2, i + 1, n as nat, acc);
                }
            }
        } else if crate::text::starts_with(line, "textures"@) {
            let parts = crate::text::words(line);
            if parts.len() >= 2 {
                if let Some(n) = crate::de::newline::count_spec(parts[1]) {
                    lemma_shift_textures(ls1, ls2, i + 1, n as nat, acc);
                }
            }
        } else {
            lemma_shift_body(ls1, ls2, i + 1, acc);
        }
    }
}

proof fn lemma_shift_permissions(ls1: Seq<Seq<char>>, ls2: Seq<Seq<char>>, j: int, acc: WearSections)
    requires
        one_line_inserted(ls1, ls2),
        j >= 2,
    ensures
        wear_permissions(ls2, j + 1, acc) == wear_permissions(ls1, j, acc),
    decreases ls1.len() - j, 1nat,
{
    if j < ls1.len() {
        assert(ls2[j + 1] == ls1[j]);
        if ls1[j] == "}"@ {
            lemma_shift_body(ls1, ls2, j + 1, acc);
        } else {
            let parts = crate::text::words(ls1[j]);
            if parts.len() == 2 {
                if let Ok(v) = permission_value(parts[1]) {
                    lemma_shift_permissions(
                        ls1,
                        ls2,
                        j + 1,
                        WearSections { permissions: dict_insert(acc.permissions, parts[0], v), ..acc },
                    );
                }
            } else {
                lemma_shift_permissions(ls1, ls2, j + 1, acc);
            }
        }
    }
}

proof fn lemma_shift_sale_info(ls1: Seq<Seq<char>>, ls2: Seq<Seq<char>>, j: int, acc: WearSections)
    requires
        one_line_inserted(ls1, ls2),
        j >= 2,
    ensures
        wear_sale_info(ls2, j + 1, acc) == wear_sale_info(ls1, j, acc),
    decreases ls1.len() - j, 1nat,
{
    if j < ls1.len() {
        assert(ls2[j + 1] == ls1[j]);
        if ls1[j] == "}"@ {
            lemma_shift_body(ls1, ls2, j + 1, acc);
        } else {
            let parts = crate::text::words(ls1[j]);
            if parts.len() == 2 {
                if parts[0] == "sale_type"@ {
                    lemma_shift_sale_info(
                        ls1,
                        ls2,
                        j + 1,
                        WearSections {
                            sale_info: dict_insert(acc.sale_info, parts[0], SpecLLSD::Str(parts[1])),
                            ..acc
                        },
                    );
                } else if parts[0] == "sale_price"@ {
                    if let Some(n) = crate::numbers::parse_i32_spec(parts[1]) {
                        lemma_shift_sale_info(
                            ls1,
                            ls2,
                            j + 1,
                            WearSections {
                                sale_info: dict_insert(
                                    acc.sale_info,
                                    parts[0],
                                    SpecLLSD::Integer(n as i32),
                                ),
                                ..acc
                            },
                        );
                    }
                }
            }
        }
    }
}

proof fn lemma_shift_parameters(
    ls1: Seq<Seq<char>>,
    ls2: Seq<Seq<char>>,
    j: int,
    n: nat,
    acc: WearSections,
)
    requires
        one_line_inserted(ls1, ls2),
        j >= 2,
    ensures
        wear_parameters(ls2, j + 1, n, acc) == wear_parameters(ls1, j, n, acc),
    decreases ls1.len() - j, 1nat,
{
    if n == 0 {
        lemma_shift_body(ls1, ls2, j, acc);
    } else if j < ls1.len() {
        assert(ls2[j + 1] == ls1[j]);
        let parts = crate::text::words(ls1[j]);
        if parts.len() == 2 {
            lemma_shift_parameters(
                ls1,
                ls2,
                j + 1,
                (n - 1) as nat,
                WearSections {
                    parameters: dict_insert(acc.parameters, parts[0], SpecLLSD::Real(parts[1])),
                    ..acc
                },
            );
        } else {
            lemma_shift_parameters(ls1, ls2, j + 1, (n - 1) as nat, acc);
        }
    }
}

proof fn lemma_shift_textures(
    ls1: Seq<Seq<char>>,
    ls2: Seq<Seq<char>>,
    j: int,
    n: nat,
    acc: WearSections,
)
    requires
        one_line_inserted(ls1, ls2),
        j >= 2,
    ensures
        wear_textures(ls2, j + 1, n, acc) == wear_textures(ls1, j, n, acc),
    decreases ls1.len() - j, 1nat,
{
    if n == 0 {
        lemma_shift_body(ls1, ls2, j, acc);
    } else if j < ls1.len() {
        assert(ls2[j + 1] == ls1[j]);
        let parts = crate::text::words(ls1[j]);
        if parts.len() == 2 {
            if let Some(bits) = crate::outside::uuid_parsed(parts[1]) {
                lemma_shift_textures(
                    ls1,
                    ls2,
                    j + 1,
                    (n - 1) as nat,
                    WearSections {
                        textures: dict_insert(acc.textures, parts[0], SpecLLSD::UUID(bits)),
                        ..acc
                    },
                );
            }
        } else {
            lemma_shift_textures(ls1, ls2, j + 1, (n - 1) as nat, acc);
        }
    }
}

/// Whether a trimmed line opens none of the sections of a wearable asset.
pub open spec fn opens_no_section(line: Seq<char>) -> bool {
    &&& !crate::text::starts_with(line, "permissions"@)
    &&& !crate::text::starts_with(line, "sale_info"@)
    &&& !crate::text::starts_with(line, "parameters"@)
    &&& !crate::text::starts_with(line, "textures"@)
}

/// Two texts whose trimmed lines are the same but for one more line after the name
/// line in the second, a line that opens no section, read alike: to the same map or
/// the same error. This holds whatever line breaks, blank lines or surrounding spaces
/// the texts were written with.
pub proof fn law_wearable_ignores_inserted_line(text1: Seq<char>, text2: Seq<char>, line: Seq<char>)
    requires
        crate::text::trimmed_lines(text1).len() >= 2,
        opens_no_section(line),
        crate::text::trimmed_lines(text2) == crate::text::trimmed_lines(text1).take(2) + seq![line]
            + crate::text::trimmed_lines(text1).skip(2),
    ensures
        wearable_spec(text2) == wearable_spec(text1),
{
    let ls1 = crate::text::trimmed_lines(text1);
    let ls2 = crate::text::trimmed_lines(text2);
    assert(ls2[0] == ls1[0] && ls2[1] == ls1[1] && ls2[2] == line);
    assert forall|m: int| 2 <= m < ls1.len() implies #[trigger] ls2[m + 1] == ls1[m] by {
        assert(ls2[m + 1] == ls1.skip(2)[m - 2]);
    }
    let empty = crate::de::newline::no_sections();
    lemma_shift_body(ls1, ls2, 2, empty);
    assert(wear_body(ls2, 2, empty) == wear_body(ls2, 3, empty));
}

/// A line that opens no section, put after the name line of a wearable asset,
/// changes nothing: the text reads as before, to the same map or the same error.
pub proof fn law_wearable_ignores_other_lines(
    line1: Seq<char>,
    line2: Seq<char>,
    extra: Seq<char>,
    rest: Seq<char>,
)
    requires
        !line1.contains('\n'),
        !line2.contains('\n'),
        !extra.contains('\n'),
        opens_no_section(crate::text::trim(extra)),
    ensures
        wearable_spec(line1 + seq!['\n'] + line2 + seq!['\n'] + extra + seq!['\n'] + rest)
            == wearable_spec(line1 + seq!['\n'] + line2 + seq!['\n'] + rest),
{
    let nl = seq!['\n'];
    let text1 = line1 + nl + line2 + nl + rest;
    let text2 = line1 + nl + line2 + nl + extra + nl + rest;
    crate::text::lemma_lines_cons(extra, rest);
    crate::text::lemma_lines_cons(line2, rest);
    crate::text::lemma_lines_cons(line2, extra + nl + rest);
    crate::text::lemma_lines_cons(line1, line2 + nl + rest);
    crate::text::lemma_lines_cons(line1, line2 + nl + extra + nl + rest);
    assert(text1 =~= line1 + nl + (line2 + nl + rest));
    assert(text2 =~= line1 + nl + (line2 + nl + extra + nl + rest));
    assert(line2 + nl + extra + nl + rest =~= line2 + nl + (extra + nl + rest));
    let r = crate::text::trimmed_lines(rest);
    let ls1 = crate::text::trimmed_lines(text1);
    let ls2 = crate::text::trimmed_lines(text2);
    assert(ls1 =~= seq![crate::text::trim(line1), crate::text::trim(line2)] + r);
    assert(ls2 =~= ls1.take(2) + seq![crate::text::trim(extra)] + ls1.skip(2));
    law_wearable_ignores_inserted_line(text1, text2, crate::text::trim(extra));
}

// ---------------------------------------------------------------------------
// Decimal numbers
// ---------------------------------------------------------------------------

proof fn lemma_dec_nat_reads_back(n: nat)
    ensures
        dec_nat(n).len() > 0,
        all_digits(dec_nat(n), 10),
        digits_value(dec_nat(n), 10) == n,
        forall|k: int| 0 <= k < dec_nat(n).len() ==> 48 <= (#[trigger] dec_nat(n)[k]) as u32 <= 57,
    decreases n,
{
    let d = (n % 10) as int;
    assert(digit_char(d) as u32 == 48 + d);
    assert(digit_value(digit_char(d)) == d);
    if n >= 10 {
        lemma_dec_nat_reads_back(n / 10);
        let s = dec_nat(n);
        let init = dec_nat(n / 10);
        assert(s.drop_last() =~= init);
        assert(s.last() == digit_char(d));
        assert forall|k: int| 0 <= k < s.len() implies 48 <= (#[trigger] s[k]) as u32 <= 57 by {
            if k < init.len() {
                assert(s[k] == init[k]);
            }
        }
        assert(n == (n / 10) * 10 + d);
        assert(digits_value(s, 10) == digits_value(init, 10) * 10 + digit_value(s.last()));
    } else {
        assert(dec_nat(n) =~= seq![digit_char(n as int)]);
        assert(seq![digit_char(n as int)].drop_last() =~= Seq::<char>::empty());
        assert(digits_value(Seq::<char>::empty(), 10) == 0);
        assert(digits_value(dec_nat(n), 10) == 0 * 10 + digit_value(digit_char(n as int)));
    }
}

/// The decimal text of an integer reads back as that integer, with Rust's integer
/// parsing, on any integer type whose range holds it.
pub proof fn law_decimal_text_reads_back(x: int, signed: bool, lo: int, hi: int)
    requires
        lo <= x <= hi,
        x < 0 ==> signed,
    ensures
        parse_int_spec(dec_int(x), 10, signed, lo, hi) == Some(x),
{
    if x < 0 {
        let m = (-x) as nat;
        lemma_dec_nat_reads_back(m);
        let s = dec_int(x);
        assert(s.drop_first() =~= dec_nat(m));
    } else {
        lemma_dec_nat_reads_back(x as nat);
        let s = dec_nat(x as nat);
        assert(s[0] as u32 >= 48);
    }
}

/// The count of a `parameters N` or `textures N` line is N read in decimal: the
/// decimal text of any count reads as that count.
pub proof fn law_count_is_decimal(n: nat)
    requires
        n <= usize::MAX,
    ensures
        count_spec(dec_nat(n)) == Some(n as int),
{
    law_decimal_text_reads_back(n as int, false, 0, usize::MAX as int);
}

/// A count written with leading zeros or a `+` reads as the decimal value of its
/// digits, as `str::parse::<usize>` reads it.
pub proof fn law_count_of_digits(word: Seq<char>)
    requires
        word.len() > 0,
        forall|k: int| 0 <= k < word.len() ==> 48 <= (#[trigger] word[k]) as u32 <= 57,
        digits_value(word, 10) <= usize::MAX,
    ensures
        count_spec(word) == Some(digits_value(word, 10)),
        count_spec(seq!['+'] + word) == Some(digits_value(word, 10)),
{
    assert(all_digits(word, 10));
    assert(word[0] != '+' && word[0] != '-');
    assert((seq!['+'] + word).drop_first() =~= word);
    lemma_digits_nonneg(word);
}

proof fn lemma_digits_nonneg(s: Seq<char>)
    requires
        all_digits(s, 10),
    ensures
        digits_value(s, 10) >= 0,
    decreases s.len(),
{
    if s.len() > 0 {
        assert(all_digits(s.drop_last(), 10));
        lemma_digits_nonneg(s.drop_last());
        assert(digit_value(s.last()) >= 0);
    }
}

proof fn lemma_escape_keeps_plain(s: Seq<char>)
    requires
        forall|k: int|
            0 <= k < s.len() ==> #[trigger] s[k] != '<' && s[k] != '>' && s[k] != '\'' && s[k]
                != '&' && s[k] != '"',
    ensures
        escape_spec(s) == s,
    decreases s.len(),
{
    if s.len() > 0 {
        lemma_escape_keeps_plain(s.drop_last());
        assert(s.last() == s[s.len() - 1]);
        assert(s.drop_last().push(s.last()) =~= s);
    }
}

proof fn lemma_dec_int_plain(x: int)
    ensures
        dec_int(x).len() > 0,
        escape_spec(dec_int(x)) == dec_int(x),
{
    let m = if x < 0 { (-x) as nat } else { x as nat };
    lemma_dec_nat_reads_back(m);
    let s = dec_int(x);
    assert forall|k: int| 0 <= k < s.len() implies #[trigger] s[k] != '<' && s[k] != '>' && s[k]
        != '\'' && s[k] != '&' && s[k] != '"' by {
        if x < 0 {
            if k > 0 {
                assert(s[k] == dec_nat(m)[k - 1]);
            }
        }
    }
    lemma_escape_keeps_plain(s);
}

/// An integer is written as a `<string>` element holding its decimal text, never as
/// an empty element, and that text reads back as the same integer.
pub proof fn law_integer_written_in_decimal(i: i32, spaces: nat, indent: nat)
    ensures
        value_text(SpecLLSD::Integer(i), spaces, indent, false) == "<string>"@ + dec_int(i as int)
            + "</string>"@,
        parse_i32_spec(dec_int(i as int)) == Some(i as int),
{
    lemma_dec_int_plain(i as int);
    law_decimal_text_reads_back(i as int, true, i32::MIN as int, i32::MAX as int);
    assert(value_text(SpecLLSD::Integer(i), spaces, indent, false) =~= "<string>"@ + dec_int(
        i as int,
    ) + "</string>"@);
}

/// A date is written as a `<string>` element holding its seconds in decimal, never as
/// an empty element, and that text reads back as the same seconds.
pub proof fn law_date_written_in_decimal(d: i64, spaces: nat, indent: nat)
    ensures
        value_text(SpecLLSD::Date(d), spaces, indent, false) == "<string>"@ + dec_int(d as int)
            + "</string>"@,
        parse_int_spec(dec_int(d as int), 10, true, i64::MIN as int, i64::MAX as int) == Some(
            d as int,
        ),
{
    lemma_dec_int_plain(d as int);
    law_decimal_text_reads_back(d as int, true, i64::MIN as int, i64::MAX as int);
    assert(value_text(SpecLLSD::Date(d), spaces, indent, false) =~= "<string>"@ + dec_int(d as int)
        + "</string>"@);
}

// ---------------------------------------------------------------------------
// Typed access
// ---------------------------------------------------------------------------

/// An integer converts to `u32` with all of its 32 bits kept: a non-negative integer
/// stays the same number, a negative one becomes it plus 2^32.
pub proof fn law_u32_keeps_all_bits(i: i32, r: u32)
    ensures
        <u32 as FromLLSDValue>::llsd_accepts(SpecLLSD::Integer(i)),
        <u32 as FromLLSDValue>::llsd_denotes(SpecLLSD::Integer(i), r) ==> r as int == (if i >= 0 {
            i as int
        } else {
            i as int + 0x1_0000_0000
        }),
{
    assert(i >= 0 ==> (i as u32) as int == i as int) by (bit_vector);
    assert(i < 0 ==> (i as u32) as int == i as int + 0x1_0000_0000) by (bit_vector);
}

/// An integer converts to `u16` as its low 16 bits: the number modulo 2^16.
pub proof fn law_u16_keeps_low_bits(i: i32, r: u16)
    ensures
        <u16 as FromLLSDValue>::llsd_accepts(SpecLLSD::Integer(i)),
        <u16 as FromLLSDValue>::llsd_denotes(SpecLLSD::Integer(i), r) ==> r as int == (i as int)
            % 0x1_0000,
{
    assert((i as u16) as int == (i as int) % 0x1_0000) by (bit_vector);
}

/// An integer converts to `i32` and to `i64` as the same number.
pub proof fn law_signed_keeps_value(i: i32, r32: i32, r64: i64)
    ensures
        <i32 as FromLLSDValue>::llsd_accepts(SpecLLSD::Integer(i)),
        <i64 as FromLLSDValue>::llsd_accepts(SpecLLSD::Integer(i)),
        <i32 as FromLLSDValue>::llsd_denotes(SpecLLSD::Integer(i), r32) ==> r32 == i,
        <i64 as FromLLSDValue>::llsd_denotes(SpecLLSD::Integer(i), r64) ==> r64 as int == i as int,
{
}

/// Only an integer converts to a number type: any other value converts to none.
pub proof fn law_only_integers_are_numbers(v: SpecLLSD)
    requires
        !(v is Integer),
    ensures
        !<u32 as FromLLSDValue>::llsd_accepts(v),
        !<u16 as FromLLSDValue>::llsd_accepts(v),
        !<i32 as FromLLSDValue>::llsd_accepts(v),
        !<i64 as FromLLSDValue>::llsd_accepts(v),
{
}

// ---------------------------------------------------------------------------
// Reading primitive elements
// ---------------------------------------------------------------------------

/// A `<string>` element reads as exactly its text, unless the text is `true` or
/// `false` in any ASCII case (then a boolean) or the text of a UUID (then that UUID);
/// in particular a text of digits stays a string.
pub proof fn law_string_element_keeps_its_text(text: Seq<char>)
    ensures
        eq_ignore_ascii_case(text, "true"@) ==> primitive_value("string"@, text) == Ok::<
            SpecLLSD,
            crate::de::xml_rpc::XmlRpcError,
        >(SpecLLSD::Boolean(true)),
        eq_ignore_ascii_case(text, "false"@) ==> primitive_value("string"@, text) == Ok::<
            SpecLLSD,
            crate::de::xml_rpc::XmlRpcError,
        >(SpecLLSD::Boolean(false)),
        !eq_ignore_ascii_case(text, "true"@) && !eq_ignore_ascii_case(text, "false"@) ==> match uuid_parsed(text) {
            Some(bits) => primitive_value("string"@, text) == Ok::<
                SpecLLSD,
                crate::de::xml_rpc::XmlRpcError,
            >(SpecLLSD::UUID(bits)),
            None => primitive_value("string"@, text) == Ok::<
                SpecLLSD,
                crate::de::xml_rpc::XmlRpcError,
            >(SpecLLSD::Str(text)),
        },
{
    reveal_strlit("true");
    reveal_strlit("false");
    reveal_strlit("string");
    reveal_strlit("undef");
    reveal_strlit("real");
    reveal_strlit("integer");
    reveal_strlit("i4");
    reveal_strlit("boolean");
    assert("string"@.len() == 6 && "undef"@.len() == 5 && "real"@.len() == 4);
    assert("integer"@.len() == 7 && "i4"@.len() == 2 && "boolean"@.len() == 7);
    assert("true"@.len() == 4 && "false"@.len() == 5);
}

/// The decimal text of an integer, in an `<integer>` or `<i4>` element, reads as that
/// integer.
pub proof fn law_integer_element_reads_decimal(i: i32)
    ensures
        primitive_value("integer"@, dec_int(i as int)) == Ok::<SpecLLSD, crate::de::xml_rpc::XmlRpcError>(
            SpecLLSD::Integer(i),
        ),
        primitive_value("i4"@, dec_int(i as int)) == Ok::<SpecLLSD, crate::de::xml_rpc::XmlRpcError>(
            SpecLLSD::Integer(i),
        ),
{
    reveal_strlit("undef");
    reveal_strlit("real");
    reveal_strlit("integer");
    reveal_strlit("i4");
    law_decimal_text_reads_back(i as int, true, i32::MIN as int, i32::MAX as int);
    assert("integer"@.len() == 7 && "undef"@.len() == 5 && "real"@.len() == 4);
    assert("i4"@.len() == 2);
}

// ---------------------------------------------------------------------------
// Merging arrays of maps
// ---------------------------------------------------------------------------

/// The value of the last entry with the key, among the entries in order.
pub open spec fn last_entry_value(pairs: Seq<(Seq<char>, SpecLLSD)>, key: Seq<char>) -> Option<SpecLLSD>
    decreases pairs.len(),
{
    if pairs.len() == 0 {
        None
    } else if pairs.last().0 == key {
        Some(pairs.last().1)
    } else {
        last_entry_value(pairs.drop_last(), key)
    }
}

/// The entries of the maps among the values, one map after the other.
pub open spec fn entries_in_order(vals: Seq<SpecLLSD>) -> Seq<(Seq<char>, SpecLLSD)>
    decreases vals.len(),
{
    if vals.len() == 0 {
        Seq::empty()
    } else {
        entries_in_order(vals.drop_last()) + match vals.last() {
            SpecLLSD::Dict(pairs) => pairs,
            _ => Seq::empty(),
        }
    }
}

proof fn lemma_last_entry_concat(
    a: Seq<(Seq<char>, SpecLLSD)>,
    b: Seq<(Seq<char>, SpecLLSD)>,
    key: Seq<char>,
)
    ensures
        last_entry_value(a + b, key) == match last_entry_value(b, key) {
            Some(v) => Some(v),
            None => last_entry_value(a, key),
        },
    decreases b.len(),
{
    if b.len() == 0 {
        assert(a + b =~= a);
    } else {
        assert((a + b).drop_last() =~= a + b.drop_last());
        assert((a + b).last() == b.last());
        lemma_last_entry_concat(a, b.drop_last(), key);
    }
}

proof fn lemma_insert_all_get(
    acc: Seq<(Seq<char>, SpecLLSD)>,
    pairs: Seq<(Seq<char>, SpecLLSD)>,
    key: Seq<char>,
)
    ensures
        dict_get(insert_all(acc, pairs), key) == match last_entry_value(pairs, key) {
            Some(v) => Some(v),
            None => dict_get(acc, key),
        },
        keys_distinct(acc) ==> keys_distinct(insert_all(acc, pairs)),
    decreases pairs.len(),
{
    if pairs.len() > 0 {
        let rest = insert_all(acc, pairs.drop_last());
        lemma_insert_all_get(acc, pairs.drop_last(), key);
        if pairs.last().0 == key {
            law_get_after_insert(rest, key, pairs.last().1);
        } else {
            law_insert_keeps_other_keys(rest, pairs.last().0, pairs.last().1, key);
        }
        if keys_distinct(acc) {
            law_insert_keeps_keys_distinct(rest, pairs.last().0, pairs.last().1);
        }
    }
}

proof fn lemma_merge_maps_get(vals: Seq<SpecLLSD>, key: Seq<char>)
    requires
        forall|t: int| 0 <= t < vals.len() ==> #[trigger] vals[t] is Dict,
    ensures
        dict_get(merge_maps(vals), key) == last_entry_value(entries_in_order(vals), key),
        keys_distinct(merge_maps(vals)),
    decreases vals.len(),
{
    if vals.len() > 0 {
        let init = vals.drop_last();
        assert forall|t: int| 0 <= t < init.len() implies #[trigger] init[t] is Dict by {
            assert(init[t] == vals[t]);
        }
        assert(vals.last() == vals[vals.len() - 1]);
        lemma_merge_maps_get(init, key);
        let e = entries_of(vals.last());
        lemma_insert_all_get(merge_maps(init), e, key);
        lemma_last_entry_concat(entries_in_order(init), e, key);
    }
}

/// An array of maps, merged as an item of a container, becomes one map with distinct
/// keys that holds every entry of every one of the maps: each key has the value of
/// the last map that has it, and keys that no map has are absent.
pub proof fn law_merged_maps_keep_every_entry(maps: Seq<SpecLLSD>, key: Seq<char>)
    requires
        forall|t: int| 0 <= t < maps.len() ==> #[trigger] maps[t] is Dict,
    ensures
        merge_item(SpecLLSD::Array(maps)) matches SpecLLSD::Dict(merged) && keys_distinct(merged)
            && dict_get(merged, key) == last_entry_value(entries_in_order(maps), key),
{
    lemma_merge_maps_get(maps, key);
}

/// A container with several items holds them all, in order: an item that is an array
/// of maps as the one map that merges them (see `law_merged_maps_keep_every_entry`),
/// any other item as it is.
pub proof fn law_container_keeps_its_items(items: Seq<SpecLLSD>, j: int, key: Seq<char>)
    requires
        items.len() >= 2,
        0 <= j < items.len(),
    ensures
        container_value(items) matches SpecLLSD::Array(out) && out.len() == items.len() && match items[j] {
            SpecLLSD::Array(maps) => if forall|t: int| 0 <= t < maps.len() ==> #[trigger] maps[t] is Dict {
                out[j] matches SpecLLSD::Dict(merged) && keys_distinct(merged) && dict_get(merged, key)
                    == last_entry_value(entries_in_order(maps), key)
            } else {
                out[j] == items[j]
            },
            _ => out[j] == items[j],
        },
{
    if let SpecLLSD::Array(maps) = items[j] {
        if forall|t: int| 0 <= t < maps.len() ==> #[trigger] maps[t] is Dict {
            lemma_merge_maps_get(maps, key);
        }
    }
}

// ---------------------------------------------------------------------------
// Leaves written and read back
// ---------------------------------------------------------------------------

/// A boolean is written as a `<string>` element whose text a `<string>` element
/// reads back as the same boolean.
pub proof fn law_boolean_written_reads_back(b: bool, spaces: nat, indent: nat)
    ensures
        value_text(SpecLLSD::Boolean(b), spaces, indent, false) == "<string>"@ + leaf_text(
            SpecLLSD::Boolean(b),
        ) + "</string>"@,
        primitive_value("string"@, leaf_text(SpecLLSD::Boolean(b))) == Ok::<
            SpecLLSD,
            crate::de::xml_rpc::XmlRpcError,
        >(SpecLLSD::Boolean(b)),
{
    reveal_strlit("true");
    reveal_strlit("false");
    let t = leaf_text(SpecLLSD::Boolean(b));
    assert(t.len() > 0);
    assert forall|k: int| 0 <= k < t.len() implies #[trigger] t[k] != '<' && t[k] != '>' && t[k]
        != '\'' && t[k] != '&' && t[k] != '"' by {}
    lemma_escape_keeps_plain(t);
    assert(value_text(SpecLLSD::Boolean(b), spaces, indent, false) =~= "<string>"@ + t
        + "</string>"@);
    if b {
        assert(eq_ignore_ascii_case(t, "true"@));
    } else {
        assert(eq_ignore_ascii_case(t, "false"@));
    }
    law_string_element_keeps_its_text(t);
}

/// A real is written with the text it holds, which a `<real>` element reads back as
/// the same real.
pub proof fn law_real_written_reads_back(text: Seq<char>)
    requires
        real_text_ok(text),
    ensures
        leaf_text(SpecLLSD::Real(text)) == text,
        primitive_value("real"@, leaf_text(SpecLLSD::Real(text))) == Ok::<
            SpecLLSD,
            crate::de::xml_rpc::XmlRpcError,
        >(SpecLLSD::Real(text)),
{
    reveal_strlit("undef");
    reveal_strlit("real");
    assert("undef"@.len() == 5 && "real"@.len() == 4);
}

/// A string converts to `String` as its text, a boolean to `bool` as itself, and
/// nothing else converts to either.
pub proof fn law_text_and_flag_conversions(v: SpecLLSD, s: String, b: bool)
    ensures
        <String as FromLLSDValue>::llsd_accepts(v) <==> v is Str,
        <String as FromLLSDValue>::llsd_denotes(v, s) ==> v == SpecLLSD::Str(s@),
        <bool as FromLLSDValue>::llsd_accepts(v) <==> v is Boolean,
        <bool as FromLLSDValue>::llsd_denotes(v, b) ==> v == SpecLLSD::Boolean(b),
{
}

/// A string without markup characters is written as a `<string>` element holding it
/// as it is, and an empty string as `<string />`.
pub proof fn law_plain_string_written_as_is(text: Seq<char>, spaces: nat, indent: nat)
    requires
        forall|k: int|
            0 <= k < text.len() ==> #[trigger] text[k] != '<' && text[k] != '>' && text[k] != '\''
                && text[k] != '&' && text[k] != '"',
    ensures
        value_text(SpecLLSD::Str(text), spaces, indent, false) == if text.len() == 0 {
            "<string />"@
        } else {
            "<string>"@ + text + "</string>"@
        },
{
    lemma_escape_keeps_plain(text);
    assert(value_text(SpecLLSD::Str(text), spaces, indent, false) =~= if text.len() == 0 {
        "<string />"@
    } else {
        "<string>"@ + text + "</string>"@
    });
}

/// A `<boolean>` element reads `1` and `true` as true, `0` and `false` as false, and
/// refuses any other text.
pub proof fn law_boolean_element(text: Seq<char>)
    ensures
        primitive_value("boolean"@, text) == if text == "1"@ || text == "true"@ {
            Ok::<SpecLLSD, crate::de::xml_rpc::XmlRpcError>(SpecLLSD::Boolean(true))
        } else if text == "0"@ || text == "false"@ {
            Ok::<SpecLLSD, crate::de::xml_rpc::XmlRpcError>(SpecLLSD::Boolean(false))
        } else {
            Err::<SpecLLSD, crate::de::xml_rpc::XmlRpcError>(crate::de::xml_rpc::XmlRpcError::InvalidValue)
        },
{
    reveal_strlit("undef");
    reveal_strlit("real");
    reveal_strlit("integer");
    reveal_strlit("i4");
    reveal_strlit("boolean");
    assert("boolean"@.len() == 7 && "undef"@.len() == 5 && "real"@.len() == 4 && "i4"@.len() == 2);
    assert("integer"@.len() == 7 && "integer"@[0] == 'i' && "boolean"@[0] == 'b');
}

} // verus!

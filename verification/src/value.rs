//! The LLSD value tree, its mathematical model, and the operations on its maps.
use vstd::prelude::*;

verus! {

/// An LLSD value.
///
/// A map (`Dict`) holds its entries in a `Vec` whose keys are distinct (see
/// `well_formed`): inserting a key that is present replaces its value in place.
/// The entries are kept in a `Vec` rather than a `HashMap<String, _>`: vstd relates
/// a `HashMap` to its contents only for key types that obey its key model, and
/// `String` is not among them; and the writer walks a map's entries, in an order
/// that a `HashMap` leaves unspecified, so its output could not be stated. Over a
/// `Vec` the contracts state what every lookup, insertion and written text is.
/// A real number is held as the text it was read from, once that text has been
/// checked to be a decimal number in the syntax that Rust's `f64` parser accepts
/// (so "1.50" stays "1.50"); the writers put that text out as it stands. A UUID
/// is held as its 128 bits (`Uuid::as_u128`).
#[derive(Debug, PartialEq)]
pub enum LLSDValue {
    Undefined,
    Boolean(bool),
    Real(String),
    Integer(i32),
    UUID(u128),
    String(String),
    Date(i64),
    URI(String),
    Binary(Vec<u8>),
    Dict(Vec<(String, LLSDValue)>),
    Array(Vec<LLSDValue>),
}

/// The mathematical model of an LLSD value.
pub enum SpecLLSD {
    Undefined,
    Boolean(bool),
    Real(Seq<char>),
    Integer(i32),
    UUID(u128),
    Str(Seq<char>),
    Date(i64),
    URI(Seq<char>),
    Binary(Seq<u8>),
    Dict(Seq<(Seq<char>, SpecLLSD)>),
    Array(Seq<SpecLLSD>),
}

/// The model of a value: its strings as character sequences, its vectors as sequences.
pub open spec fn view_value(v: LLSDValue) -> SpecLLSD
    decreases v,
{
    match v {
        LLSDValue::Undefined => SpecLLSD::Undefined,
        LLSDValue::Boolean(b) => SpecLLSD::Boolean(b),
        LLSDValue::Real(s) => SpecLLSD::Real(s@),
        LLSDValue::Integer(i) => SpecLLSD::Integer(i),
        LLSDValue::UUID(u) => SpecLLSD::UUID(u),
        LLSDValue::String(s) => SpecLLSD::Str(s@),
        LLSDValue::Date(d) => SpecLLSD::Date(d),
        LLSDValue::URI(s) => SpecLLSD::URI(s@),
        LLSDValue::Binary(b) => SpecLLSD::Binary(b@),
        LLSDValue::Dict(pairs) => SpecLLSD::Dict(view_pairs(pairs@)),
        LLSDValue::Array(items) => SpecLLSD::Array(view_items(items@)),
    }
}

/// The model of a map's entries.
pub open spec fn view_pairs(pairs: Seq<(String, LLSDValue)>) -> Seq<(Seq<char>, SpecLLSD)>
    decreases pairs,
{
    Seq::new(
        pairs.len(),
        |i: int|
            if 0 <= i < pairs.len() {
                (pairs[i].0@, view_value(pairs[i].1))
            } else {
                (Seq::empty(), SpecLLSD::Undefined)
            },
    )
}

/// The model of an array's items.
pub open spec fn view_items(items: Seq<LLSDValue>) -> Seq<SpecLLSD>
    decreases items,
{
    Seq::new(
        items.len(),
        |i: int|
            if 0 <= i < items.len() {
                view_value(items[i])
            } else {
                SpecLLSD::Undefined
            },
    )
}

impl View for LLSDValue {
    type V = SpecLLSD;

    open spec fn view(&self) -> SpecLLSD {
        view_value(*self)
    }
}

/// How deeply maps and arrays nest in `v` (0 for a value that is neither).
pub open spec fn depth(v: SpecLLSD) -> nat
    decreases v,
{
    match v {
        SpecLLSD::Dict(pairs) => 1 + depth_pairs(pairs),
        SpecLLSD::Array(items) => 1 + depth_items(items),
        _ => 0,
    }
}

pub open spec fn depth_pairs(pairs: Seq<(Seq<char>, SpecLLSD)>) -> nat
    decreases pairs,
{
    if pairs.len() == 0 {
        0
    } else {
        let a = depth(pairs.last().1);
        let b = depth_pairs(pairs.drop_last());
        if a >= b {
            a
        } else {
            b
        }
    }
}

pub open spec fn depth_items(items: Seq<SpecLLSD>) -> nat
    decreases items,
{
    if items.len() == 0 {
        0
    } else {
        let a = depth(items.last());
        let b = depth_items(items.drop_last());
        if a >= b {
            a
        } else {
            b
        }
    }
}

/// No key occurs twice among the entries.
pub open spec fn keys_distinct(pairs: Seq<(Seq<char>, SpecLLSD)>) -> bool {
    forall|i: int, j: int|
        0 <= i < j < pairs.len() ==> #[trigger] pairs[i].0 != #[trigger] pairs[j].0
}

/// Every map in `v`, at any depth, has distinct keys.
pub open spec fn well_formed(v: SpecLLSD) -> bool
    decreases v,
{
    match v {
        SpecLLSD::Dict(pairs) => keys_distinct(pairs) && forall|i: int|
            0 <= i < pairs.len() ==> well_formed(#[trigger] pairs[i].1),
        SpecLLSD::Array(items) => forall|i: int| 0 <= i < items.len() ==> well_formed(#[trigger] items[i]),
        _ => true,
    }
}

/// The index of the first entry with the key, or -1 where there is none.
pub open spec fn dict_find(pairs: Seq<(Seq<char>, SpecLLSD)>, key: Seq<char>) -> int
    decreases pairs.len(),
{
    if pairs.len() == 0 {
        -1
    } else if pairs[0].0 == key {
        0
    } else {
        let r = dict_find(pairs.drop_first(), key);
        if r < 0 {
            -1
        } else {
            r + 1
        }
    }
}

/// The value of the key in the map (`HashMap::get`).
pub open spec fn dict_get(pairs: Seq<(Seq<char>, SpecLLSD)>, key: Seq<char>) -> Option<SpecLLSD> {
    let i = dict_find(pairs, key);
    if 0 <= i < pairs.len() {
        Some(pairs[i].1)
    } else {
        None
    }
}

/// The map after inserting the entry (`HashMap::insert`): a present key gets the new
/// value in place, a new key is added at the end.
pub open spec fn dict_insert(pairs: Seq<(Seq<char>, SpecLLSD)>, key: Seq<char>, val: SpecLLSD) -> Seq<
    (Seq<char>, SpecLLSD),
> {
    let i = dict_find(pairs, key);
    if 0 <= i < pairs.len() {
        pairs.update(i, (key, val))
    } else {
        pairs.push((key, val))
    }
}

/// `dict_find` is the first index whose key matches.
pub proof fn lemma_dict_find(pairs: Seq<(Seq<char>, SpecLLSD)>, key: Seq<char>, k: int)
    requires
        0 <= k <= pairs.len(),
        forall|j: int| 0 <= j < k ==> #[trigger] pairs[j].0 != key,
        k == pairs.len() || pairs[k].0 == key,
    ensures
        dict_find(pairs, key) == (if k == pairs.len() {
            -1
        } else {
            k
        }),
    decreases k,
{
    if k > 0 {
        lemma_dict_find(pairs.drop_first(), key, k - 1);
    }
}

/// The result of `dict_find` is -1 or an index with the key, before which no key matches.
pub proof fn lemma_dict_find_range(pairs: Seq<(Seq<char>, SpecLLSD)>, key: Seq<char>)
    ensures
        -1 <= dict_find(pairs, key) < pairs.len(),
        dict_find(pairs, key) >= 0 ==> pairs[dict_find(pairs, key)].0 == key,
        forall|j: int|
            0 <= j < pairs.len() && (dict_find(pairs, key) < 0 || j < dict_find(pairs, key))
                ==> #[trigger] pairs[j].0 != key,
    decreases pairs.len(),
{
    if pairs.len() > 0 && pairs[0].0 != key {
        lemma_dict_find_range(pairs.drop_first(), key);
        assert forall|j: int|
            0 <= j < pairs.len() && (dict_find(pairs, key) < 0 || j < dict_find(pairs, key))
                implies #[trigger] pairs[j].0 != key by {
            if j > 0 {
                assert(pairs[j] == pairs.drop_first()[j - 1]);
            }
        }
    }
}

/// The value of `key` in the map, found by a linear search.
pub fn dict_lookup<'a>(pairs: &'a Vec<(String, LLSDValue)>, key: &str) -> (r: Option<
    &'a LLSDValue,
>)
    ensures
        r matches Some(v) ==> dict_get(view_pairs(pairs@), key@) == Some(v@),
        r is None ==> dict_get(view_pairs(pairs@), key@) is None,
{
    let ghost vp = view_pairs(pairs@);
    let key_s = String::from_str(key);
    let mut i: usize = 0;
    while i < pairs.len()
        invariant
            i <= pairs@.len() == vp.len(),
            vp == view_pairs(pairs@),
            key_s@ == key@,
            forall|j: int| 0 <= j < i ==> #[trigger] vp[j].0 != key@,
        decreases pairs@.len() - i,
    {
        if pairs[i].0 == key_s {
            proof {
                lemma_dict_find(vp, key@, i as int);
            }
            return Some(&pairs[i].1);
        }
        i = i + 1;
    }
    proof {
        lemma_dict_find(vp, key@, i as int);
    }
    None
}

/// Inserts the entry into the map, as `HashMap::insert` does.
pub fn dict_insert_exec(pairs: &mut Vec<(String, LLSDValue)>, key: String, val: LLSDValue)
    ensures
        view_pairs(final(pairs)@) == dict_insert(view_pairs(old(pairs)@), key@, val@),
{
    let ghost vp = view_pairs(pairs@);
    let mut i: usize = 0;
    while i < pairs.len()
        invariant
            i <= pairs@.len() == vp.len(),
            vp == view_pairs(pairs@),
            *pairs == *old(pairs),
            forall|j: int| 0 <= j < i ==> #[trigger] vp[j].0 != key@,
        decreases pairs@.len() - i,
    {
        if pairs[i].0 == key {
            proof {
                lemma_dict_find(vp, key@, i as int);
            }
            let ghost kv = key@;
            pairs.set(i, (key, val));
            assert(view_pairs(pairs@) =~= vp.update(i as int, (kv, val@)));
            return;
        }
        i = i + 1;
    }
    proof {
        lemma_dict_find(vp, key@, i as int);
    }
    let ghost kv = key@;
    pairs.push((key, val));
    assert(view_pairs(pairs@) =~= vp.push((kv, val@)));
}

} // verus!

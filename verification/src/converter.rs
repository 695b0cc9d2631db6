//! Typed access to the entries of an LLSD map.
use vstd::prelude::*;
use crate::value::{LLSDValue, SpecLLSD, dict_get, view_pairs, view_items, dict_lookup};
use crate::outside::{uuid_from_bits, uuid_of_bits};
use crate::numbers::{parse_int, parse_int_spec};
use crate::text::chars_of;

verus! {

/// A type that an LLSD value may convert to.
pub trait FromLLSDValue: Sized {
    /// Whether the value converts to this type.
    spec fn llsd_accepts(value: SpecLLSD) -> bool;

    /// Whether `r` is what the value converts to.
    spec fn llsd_denotes(value: SpecLLSD, r: Self) -> bool;

    /// The value converted to this type; `None` where it does not convert.
    fn from_llsd(value: &LLSDValue) -> (r: Option<Self>)
        ensures
            r is Some <==> Self::llsd_accepts(value@),
            r matches Some(x) ==> Self::llsd_denotes(value@, x),
    ;
}

/// `out` holds, in order, what the items that convert to `T` convert to; the other
/// items are left out (`filter_map(T::from_llsd)`).
pub open spec fn converted_items<T: FromLLSDValue>(items: Seq<SpecLLSD>, out: Seq<T>) -> bool
    decreases items.len(),
{
    if items.len() == 0 {
        out.len() == 0
    } else if T::llsd_accepts(items.last()) {
        out.len() > 0 && T::llsd_denotes(items.last(), out.last()) && converted_items::<T>(
            items.drop_last(),
            out.drop_last(),
        )
    } else {
        converted_items::<T>(items.drop_last(), out)
    }
}

/// The items of the arrays among `items`, one array after the other; items that are
/// not arrays add nothing.
pub open spec fn flatten_arrays(items: Seq<SpecLLSD>) -> Seq<SpecLLSD>
    decreases items.len(),
{
    if items.len() == 0 {
        Seq::empty()
    } else {
        flatten_arrays(items.drop_last()) + match items.last() {
            SpecLLSD::Array(inner) => inner,
            _ => Seq::empty(),
        }
    }
}

/// `out` holds, in the map's order, the entries whose values convert to `V`, with
/// those values converted.
pub open spec fn converted_entries<V: FromLLSDValue>(
    pairs: Seq<(Seq<char>, SpecLLSD)>,
    out: Seq<(String, V)>,
) -> bool
    decreases pairs.len(),
{
    if pairs.len() == 0 {
        out.len() == 0
    } else if V::llsd_accepts(pairs.last().1) {
        out.len() > 0 && out.last().0@ == pairs.last().0 && V::llsd_denotes(
            pairs.last().1,
            out.last().1,
        ) && converted_entries::<V>(pairs.drop_last(), out.drop_last())
    } else {
        converted_entries::<V>(pairs.drop_last(), out)
    }
}

impl FromLLSDValue for String {
    open spec fn llsd_accepts(value: SpecLLSD) -> bool {
        value is Str
    }

    open spec fn llsd_denotes(value: SpecLLSD, r: String) -> bool {
        value == SpecLLSD::Str(r@)
    }

    fn from_llsd(value: &LLSDValue) -> (r: Option<String>) {
        if let LLSDValue::String(s) = value {
            Some(s.clone())
        } else {
            None
        }
    }
}

impl FromLLSDValue for uuid::Uuid {
    open spec fn llsd_accepts(value: SpecLLSD) -> bool {
        value is UUID
    }

    open spec fn llsd_denotes(value: SpecLLSD, r: uuid::Uuid) -> bool {
        value matches SpecLLSD::UUID(bits) && r == uuid_from_bits(bits)
    }

    fn from_llsd(value: &LLSDValue) -> (r: Option<uuid::Uuid>) {
        if let LLSDValue::UUID(bits) = value {
            Some(uuid_of_bits(*bits))
        } else {
            None
        }
    }
}

impl FromLLSDValue for u16 {
    open spec fn llsd_accepts(value: SpecLLSD) -> bool {
        value is Integer
    }

    /// The integer's low 16 bits, as `as u16` takes them.
    open spec fn llsd_denotes(value: SpecLLSD, r: u16) -> bool {
        value matches SpecLLSD::Integer(i) && r == i as u16
    }

    fn from_llsd(value: &LLSDValue) -> (r: Option<u16>) {
        if let LLSDValue::Integer(i) = value {
            Some(*i as u16)
        } else {
            None
        }
    }
}

impl FromLLSDValue for bool {
    open spec fn llsd_accepts(value: SpecLLSD) -> bool {
        value is Boolean
    }

    open spec fn llsd_denotes(value: SpecLLSD, r: bool) -> bool {
        value == SpecLLSD::Boolean(r)
    }

    fn from_llsd(value: &LLSDValue) -> (r: Option<bool>) {
        if let LLSDValue::Boolean(b) = value {
            Some(*b)
        } else {
            None
        }
    }
}

impl FromLLSDValue for i32 {
    open spec fn llsd_accepts(value: SpecLLSD) -> bool {
        value is Integer
    }

    open spec fn llsd_denotes(value: SpecLLSD, r: i32) -> bool {
        value == SpecLLSD::Integer(r)
    }

    fn from_llsd(value: &LLSDValue) -> (r: Option<i32>) {
        if let LLSDValue::Integer(i) = value {
            Some(*i)
        } else {
            None
        }
    }
}

impl FromLLSDValue for u32 {
    open spec fn llsd_accepts(value: SpecLLSD) -> bool {
        value is Integer
    }

    /// The integer's 32 bits read as unsigned, as `as u32` reads them.
    open spec fn llsd_denotes(value: SpecLLSD, r: u32) -> bool {
        value matches SpecLLSD::Integer(i) && r == i as u32
    }

    fn from_llsd(value: &LLSDValue) -> (r: Option<u32>) {
        if let LLSDValue::Integer(i) = value {
            Some(*i as u32)
        } else {
            None
        }
    }
}

impl FromLLSDValue for i64 {
    open spec fn llsd_accepts(value: SpecLLSD) -> bool {
        value is Integer
    }

    open spec fn llsd_denotes(value: SpecLLSD, r: i64) -> bool {
        value matches SpecLLSD::Integer(i) && r == i as i64
    }

    fn from_llsd(value: &LLSDValue) -> (r: Option<i64>) {
        if let LLSDValue::Integer(i) = value {
            Some(*i as i64)
        } else {
            None
        }
    }
}

/// A map whose values convert to `V`, keyed by text: the entries whose values do not
/// convert are left out.
impl<V: FromLLSDValue> FromLLSDValue for Vec<(String, V)> {
    open spec fn llsd_accepts(value: SpecLLSD) -> bool {
        value is Dict
    }

    open spec fn llsd_denotes(value: SpecLLSD, r: Vec<(String, V)>) -> bool {
        value matches SpecLLSD::Dict(pairs) && converted_entries::<V>(pairs, r@)
    }

    fn from_llsd(value: &LLSDValue) -> (r: Option<Vec<(String, V)>>) {
        if let LLSDValue::Dict(map) = value {
            let ghost vp = view_pairs(map@);
            let mut result: Vec<(String, V)> = Vec::new();
            let mut i: usize = 0;
            while i < map.len()
                invariant
                    i <= map@.len() == vp.len(),
                    vp == view_pairs(map@),
                    converted_entries::<V>(vp.take(i as int), result@),
                decreases map@.len() - i,
            {
                let ghost before = result@;
                assert(vp.take(i + 1).drop_last() =~= vp.take(i as int));
                assert(vp.take(i + 1).last() == vp[i as int]);
                if let Some(parsed) = V::from_llsd(&map[i].1) {
                    result.push((map[i].0.clone(), parsed));
                    assert(result@.drop_last() =~= before);
                }
                i = i + 1;
            }
            assert(vp.take(vp.len() as int) =~= vp);
            Some(result)
        } else {
            None
        }
    }
}

/// An integer type that map keys may be read as, with `str::parse` (decimal digits
/// after an optional `+`, or `-` where the type is signed, within the type's range).
pub trait IntegerKey: Sized {
    /// The least value of the type.
    spec fn key_lo() -> int;

    /// The greatest value of the type.
    spec fn key_hi() -> int;

    /// The key as an integer.
    spec fn key_int(self) -> int;

    /// The type's range, `(key_lo, key_hi)`.
    fn key_range() -> (r: (i128, i128))
        ensures
            r.0 == Self::key_lo(),
            r.1 == Self::key_hi(),
            -0x1_0000_0000_0000_0000 <= r.0 <= 0 < r.1 <= 0x1_0000_0000_0000_0000,
    ;

    /// The key whose integer is `x`.
    fn key_from(x: i128) -> (r: Self)
        requires
            Self::key_lo() <= x <= Self::key_hi(),
        ensures
            r.key_int() == x,
    ;
}

impl IntegerKey for u16 {
    open spec fn key_lo() -> int {
        0
    }

    open spec fn key_hi() -> int {
        u16::MAX as int
    }

    open spec fn key_int(self) -> int {
        self as int
    }

    fn key_range() -> (r: (i128, i128)) {
        (0, 0xffff)
    }

    fn key_from(x: i128) -> (r: u16) {
        x as u16
    }
}

impl IntegerKey for u32 {
    open spec fn key_lo() -> int {
        0
    }

    open spec fn key_hi() -> int {
        u32::MAX as int
    }

    open spec fn key_int(self) -> int {
        self as int
    }

    fn key_range() -> (r: (i128, i128)) {
        (0, 0xffff_ffff)
    }

    fn key_from(x: i128) -> (r: u32) {
        x as u32
    }
}

impl IntegerKey for u64 {
    open spec fn key_lo() -> int {
        0
    }

    open spec fn key_hi() -> int {
        u64::MAX as int
    }

    open spec fn key_int(self) -> int {
        self as int
    }

    fn key_range() -> (r: (i128, i128)) {
        (0, 0xffff_ffff_ffff_ffff)
    }

    fn key_from(x: i128) -> (r: u64) {
        x as u64
    }
}

impl IntegerKey for i32 {
    open spec fn key_lo() -> int {
        i32::MIN as int
    }

    open spec fn key_hi() -> int {
        i32::MAX as int
    }

    open spec fn key_int(self) -> int {
        self as int
    }

    fn key_range() -> (r: (i128, i128)) {
        (-0x8000_0000, 0x7fff_ffff)
    }

    fn key_from(x: i128) -> (r: i32) {
        x as i32
    }
}

impl IntegerKey for i64 {
    open spec fn key_lo() -> int {
        i64::MIN as int
    }

    open spec fn key_hi() -> int {
        i64::MAX as int
    }

    open spec fn key_int(self) -> int {
        self as int
    }

    fn key_range() -> (r: (i128, i128)) {
        (-0x8000_0000_0000_0000, 0x7fff_ffff_ffff_ffff)
    }

    fn key_from(x: i128) -> (r: i64) {
        x as i64
    }
}

/// What `str::parse` gives for a key on an integer type whose range is `lo..=hi`.
pub open spec fn parse_key(text: Seq<char>, lo: int, hi: int) -> Option<int> {
    parse_int_spec(text, 10, lo < 0, lo, hi)
}

/// The entries with their keys taken as integers.
pub open spec fn keyed_view<K: IntegerKey, V>(entries: Seq<(K, V)>) -> Seq<(int, V)> {
    entries.map_values(|e: (K, V)| (e.0.key_int(), e.1))
}

/// No key occurs twice.
pub open spec fn int_keys_distinct<V>(m: Seq<(int, V)>) -> bool {
    forall|i: int, j: int| 0 <= i < j < m.len() ==> #[trigger] m[i].0 != #[trigger] m[j].0
}

/// What `HashMap::insert` does to a map held as its entries in order, keys distinct:
/// where the key is present its value is replaced in place, else the entry is added
/// at the end.
pub open spec fn keyed_insert<V>(m: Seq<(int, V)>, k: int, v: V) -> Seq<(int, V)> {
    if exists|i: int| 0 <= i < m.len() && m[i].0 == k {
        m.update(choose|i: int| 0 <= i < m.len() && m[i].0 == k, (k, v))
    } else {
        m.push((k, v))
    }
}

/// `out` is the map that inserting, one entry after the other, each entry of `pairs`
/// whose key reads as an integer in `lo..=hi` and whose value converts to `V` gives,
/// starting from the empty map; the other entries are left out.
pub open spec fn keyed_entries<V: FromLLSDValue>(
    pairs: Seq<(Seq<char>, SpecLLSD)>,
    lo: int,
    hi: int,
    out: Seq<(int, V)>,
) -> bool
    decreases pairs.len(),
{
    if pairs.len() == 0 {
        out.len() == 0
    } else {
        let key = parse_key(pairs.last().0, lo, hi);
        if key is Some && V::llsd_accepts(pairs.last().1) {
            exists|prev: Seq<(int, V)>, x: V|
                #![trigger keyed_insert(prev, key->0, x)]
                keyed_entries::<V>(pairs.drop_last(), lo, hi, prev) && V::llsd_denotes(
                    pairs.last().1,
                    x,
                ) && out == keyed_insert(prev, key->0, x)
        } else {
            keyed_entries::<V>(pairs.drop_last(), lo, hi, out)
        }
    }
}

/// The entries of the map whose keys read as `K` and whose values convert to `V`,
/// as `HashMap<K, V>` collects them; a key read twice keeps its first place and its
/// last value.
fn integer_keyed_entries<K: IntegerKey, V: FromLLSDValue>(map: &Vec<(String, LLSDValue)>) -> (r:
    Vec<(K, V)>)
    ensures
        keyed_entries::<V>(view_pairs(map@), K::key_lo(), K::key_hi(), keyed_view(r@)),
        int_keys_distinct(keyed_view(r@)),
{
    let ghost vp = view_pairs(map@);
    let (lo, hi) = K::key_range();
    let mut keys: Vec<i128> = Vec::new();
    let mut result: Vec<(K, V)> = Vec::new();
    let mut i: usize = 0;
    while i < map.len()
        invariant
            i <= map@.len() == vp.len(),
            vp == view_pairs(map@),
            lo == K::key_lo(),
            hi == K::key_hi(),
            -0x1_0000_0000_0000_0000 <= lo <= 0 < hi <= 0x1_0000_0000_0000_0000,
            keys@.len() == result@.len(),
            forall|j: int| 0 <= j < keys@.len() ==> keys@[j] == #[trigger] result@[j].0.key_int(),
            int_keys_distinct(keyed_view(result@)),
            keyed_entries::<V>(vp.take(i as int), lo as int, hi as int, keyed_view(result@)),
        decreases map@.len() - i,
    {
        assert(vp.take(i + 1).drop_last() =~= vp.take(i as int));
        assert(vp.take(i + 1).last() == vp[i as int]);
        let text = chars_of(map[i].0.as_str());
        let ghost prev_out = keyed_view(result@);
        let ghost entry = vp[i as int];
        assert(entry.0 == text@ && entry.1 == map@[i as int].1@);
        if let Some(k) = parse_int(text.as_slice(), 10, lo < 0, lo, hi) {
            if let Some(x) = V::from_llsd(&map[i].1) {
                let ghost before = keyed_view(result@);
                let ghost xv = x;
                let mut j: usize = 0;
                while j < keys.len() && keys[j] != k
                    invariant
                        j <= keys@.len(),
                        forall|t: int| 0 <= t < j ==> keys@[t] != k,
                    decreases keys@.len() - j,
                {
                    j = j + 1;
                }
                let key = K::key_from(k);
                if j < keys.len() {
                    result.set(j, (key, x));
                    proof {
                        assert(before[j as int].0 == k);
                        let c = choose|t: int| 0 <= t < before.len() && before[t].0 == k;
                        assert(c == j as int);
                        assert(keyed_view(result@) =~= before.update(j as int, (k as int, xv)));
                    }
                } else {
                    keys.push(k);
                    result.push((key, x));
                    proof {
                        assert(forall|t: int| 0 <= t < before.len() ==> before[t].0 != k);
                        assert(keyed_view(result@) =~= before.push((k as int, xv)));
                    }
                }
                proof {
                    assert(keyed_view(result@) == keyed_insert(before, k as int, xv));
                    assert(vp.take(i + 1).last() == entry);
                    let pairs = vp.take(i + 1);
                    assert(keyed_entries::<V>(pairs.drop_last(), lo as int, hi as int, before)
                        && V::llsd_denotes(pairs.last().1, xv) && keyed_view(result@)
                        == keyed_insert(before, parse_key(pairs.last().0, lo as int, hi as int)->0, xv));
                    assert(keyed_entries::<V>(vp.take(i + 1), lo as int, hi as int, keyed_view(result@)));
                }
            } else {
                assert(keyed_entries::<V>(vp.take(i + 1), lo as int, hi as int, prev_out));
            }
        } else {
            assert(parse_key(entry.0, lo as int, hi as int) is None);
            assert(keyed_entries::<V>(vp.take(i + 1), lo as int, hi as int, prev_out));
        }
        i = i + 1;
    }
    assert(vp.take(vp.len() as int) =~= vp);
    result
}

/// A map whose keys read as integers of type `K` and whose values convert to `V`,
/// as `HashMap<K, V>` holds it: entries whose keys do not read as `K` or whose
/// values do not convert are left out.
impl<K: IntegerKey, V: FromLLSDValue> FromLLSDValue for Vec<(K, V)> {
    open spec fn llsd_accepts(value: SpecLLSD) -> bool {
        value is Dict
    }

    open spec fn llsd_denotes(value: SpecLLSD, r: Vec<(K, V)>) -> bool {
        &&& value matches SpecLLSD::Dict(pairs)
        &&& keyed_entries::<V>(pairs, K::key_lo(), K::key_hi(), keyed_view(r@))
        &&& int_keys_distinct(keyed_view(r@))
    }

    fn from_llsd(value: &LLSDValue) -> (r: Option<Vec<(K, V)>>) {
        if let LLSDValue::Dict(map) = value {
            Some(integer_keyed_entries::<K, V>(map))
        } else {
            None
        }
    }
}

/// The value of `key` converted to `T`, or `T::default()` where the key is missing
/// or its value does not convert.
pub fn get<T: FromLLSDValue + Default>(key: &str, map: &Vec<(String, LLSDValue)>) -> (r: T)
    ensures
        match dict_get(view_pairs(map@), key@) {
            Some(v) => if T::llsd_accepts(v) {
                T::llsd_denotes(v, r)
            } else {
                call_ensures(T::default, (), r)
            },
            None => call_ensures(T::default, (), r),
        },
{
    get_opt::<T>(key, map).unwrap_or_default()
}

/// The value of `key` converted to `T`; `None` where the key is missing or its value
/// does not convert.
pub fn get_opt<T: FromLLSDValue>(key: &str, map: &Vec<(String, LLSDValue)>) -> (r: Option<T>)
    ensures
        r is Some <==> (dict_get(view_pairs(map@), key@) matches Some(v) && T::llsd_accepts(v)),
        r matches Some(x) ==> T::llsd_denotes(dict_get(view_pairs(map@), key@)->0, x),
{
    match dict_lookup(map, key) {
        Some(v) => T::from_llsd(v),
        None => None,
    }
}

/// The items of the array at `key` that convert to `T`, converted; `None` where the
/// key is missing or its value is not an array.
pub fn get_vec<T: FromLLSDValue>(key: &str, map: &Vec<(String, LLSDValue)>) -> (r: Option<Vec<T>>)
    ensures
        r is Some <==> (dict_get(view_pairs(map@), key@) matches Some(v) && v is Array),
        r matches Some(out) ==> (dict_get(view_pairs(map@), key@) matches Some(
            SpecLLSD::Array(items),
        ) && converted_items::<T>(items, out@)),
{
    match dict_lookup(map, key) {
        Some(LLSDValue::Array(arr)) => {
            let ghost vi = view_items(arr@);
            let mut result: Vec<T> = Vec::new();
            let mut i: usize = 0;
            while i < arr.len()
                invariant
                    i <= arr@.len() == vi.len(),
                    vi == view_items(arr@),
                    converted_items::<T>(vi.take(i as int), result@),
                decreases arr@.len() - i,
            {
                let ghost before = result@;
                assert(vi.take(i + 1).drop_last() =~= vi.take(i as int));
                assert(vi.take(i + 1).last() == vi[i as int]);
                if let Some(parsed) = T::from_llsd(&arr[i]) {
                    result.push(parsed);
                    assert(result@.drop_last() =~= before);
                }
                i = i + 1;
            }
            assert(vi.take(vi.len() as int) =~= vi);
            Some(result)
        },
        _ => None,
    }
}

/// The items of the arrays inside the array at `key` that convert to `T`, converted,
/// one inner array after the other; items of the outer array that are not arrays are
/// passed over. `None` where the key is missing or its value is not an array.
pub fn get_nested_vec<T: FromLLSDValue>(key: &str, map: &Vec<(String, LLSDValue)>) -> (r: Option<
    Vec<T>,
>)
    ensures
        r is Some <==> (dict_get(view_pairs(map@), key@) matches Some(v) && v is Array),
        r matches Some(out) ==> (dict_get(view_pairs(map@), key@) matches Some(
            SpecLLSD::Array(items),
        ) && converted_items::<T>(flatten_arrays(items), out@)),
{
    match dict_lookup(map, key) {
        Some(LLSDValue::Array(arr)) => {
            let ghost vi = view_items(arr@);
            let mut result: Vec<T> = Vec::new();
            let mut i: usize = 0;
            while i < arr.len()
                invariant
                    i <= arr@.len() == vi.len(),
                    vi == view_items(arr@),
                    converted_items::<T>(flatten_arrays(vi.take(i as int)), result@),
                decreases arr@.len() - i,
            {
                assert(vi.take(i + 1).drop_last() =~= vi.take(i as int));
                assert(vi.take(i + 1).last() == vi[i as int]);
                let ghost prefix = flatten_arrays(vi.take(i as int));
                if let LLSDValue::Array(inner) = &arr[i] {
                    let ghost ii = view_items(inner@);
                    let mut k: usize = 0;
                    assert(prefix + ii.take(0) =~= prefix);
                    while k < inner.len()
                        invariant
                            k <= inner@.len() == ii.len(),
                            ii == view_items(inner@),
                            converted_items::<T>(prefix + ii.take(k as int), result@),
                        decreases inner@.len() - k,
                    {
                        let ghost before = result@;
                        assert((prefix + ii.take(k + 1)).drop_last() =~= prefix + ii.take(k as int));
                        assert((prefix + ii.take(k + 1)).last() == ii[k as int]);
                        if let Some(parsed) = T::from_llsd(&inner[k]) {
                            result.push(parsed);
                            assert(result@.drop_last() =~= before);
                        }
                        k = k + 1;
                    }
                    assert(ii.take(ii.len() as int) =~= ii);
                    assert(flatten_arrays(vi.take(i + 1)) =~= prefix + ii);
                } else {
                    assert(flatten_arrays(vi.take(i + 1)) =~= prefix);
                }
                i = i + 1;
            }
            assert(vi.take(vi.len() as int) =~= vi);
            Some(result)
        },
        _ => None,
    }
}

} // verus!

//! How the indented XML-RPC text relates to the compact one: indenting puts each tag
//! on a line of its own, after spaces, and adds nothing else.
use vstd::prelude::*;
use crate::text::{
    is_ws, trim_start, trim_end, first_newline, trimmed_lines, lemma_first_newline, lemma_lines_cons,
};
use crate::ser::xml_rpc::{
    pad, indentation, tag_text, string_element, name_line, leaf_text, value_text,
    member_text, item_text, members_text, items_text, document_text,
};
use crate::ser::xml::{escape_char, escape_spec};
use crate::numbers::{dec_nat, dec_int};
use crate::outside::{hex_digit_lower, nibble, uuid_hyphenated, base64_char, base64_encoded};
use crate::value::SpecLLSD;

verus! {

/// A text without a line break.
pub open spec fn single_line(s: Seq<char>) -> bool {
    forall|i: int| 0 <= i < s.len() ==> s[i] != '\n'
}

/// The lines, one after the other, with nothing between them.
pub open spec fn concat_lines(ls: Seq<Seq<char>>) -> Seq<char>
    decreases ls.len(),
{
    if ls.len() == 0 {
        Seq::empty()
    } else {
        concat_lines(ls.drop_last()) + ls.last()
    }
}

/// A text that is empty or ends with a line break.
pub open spec fn line_ended(s: Seq<char>) -> bool {
    s.len() == 0 || s.last() == '\n'
}

/// `t` ends its last line, and its lines, trimmed and put together, give `f`.
pub open spec fn flattens_to(t: Seq<char>, f: Seq<char>) -> bool {
    line_ended(t) && concat_lines(trimmed_lines(t)) == f
}

pub proof fn lemma_concat_add(a: Seq<Seq<char>>, b: Seq<Seq<char>>)
    ensures
        concat_lines(a + b) == concat_lines(a) + concat_lines(b),
    decreases b.len(),
{
    if b.len() == 0 {
        assert(a + b =~= a);
        assert(concat_lines(a) + concat_lines(b) =~= concat_lines(a));
    } else {
        lemma_concat_add(a, b.drop_last());
        assert((a + b).drop_last() =~= a + b.drop_last());
        assert((a + b).last() == b.last());
        assert(concat_lines(a) + concat_lines(b) =~= concat_lines(a) + concat_lines(b.drop_last())
            + b.last());
    }
}

proof fn lemma_first_newline_at_most(s: Seq<char>, j: int)
    requires
        0 <= j < s.len(),
        s[j] == '\n',
    ensures
        first_newline(s) <= j,
        s[first_newline(s) as int] == '\n',
        forall|t: int| 0 <= t < first_newline(s) ==> s[t] != '\n',
    decreases j,
{
    if s[0] != '\n' {
        lemma_first_newline_at_most(s.drop_first(), j - 1);
        assert forall|t: int| 0 <= t < first_newline(s) implies s[t] != '\n' by {
            if t > 0 {
                assert(s[t] == s.drop_first()[t - 1]);
            }
        }
    }
}

/// A text that ends its last line splits its lines from those of what follows it.
pub proof fn lemma_lines_append(a: Seq<char>, b: Seq<char>)
    requires
        line_ended(a),
    ensures
        trimmed_lines(a + b) == trimmed_lines(a) + trimmed_lines(b),
    decreases a.len(),
{
    if a.len() == 0 {
        assert(a + b =~= b);
        assert(trimmed_lines(a) + trimmed_lines(b) =~= trimmed_lines(b));
    } else {
        lemma_first_newline_at_most(a, a.len() - 1);
        let k = first_newline(a) as int;
        let s = a + b;
        assert forall|t: int| 0 <= t < k implies #[trigger] s[t] != '\n' by {
            assert(s[t] == a[t]);
        }
        assert(s[k] == a[k]);
        lemma_first_newline(s, k);
        let rest = a.skip(k + 1);
        assert(s.take(k) =~= a.take(k));
        assert(s.skip(k + 1) =~= rest + b);
        if rest.len() > 0 {
            assert(rest.last() == a.last());
        }
        lemma_lines_append(rest, b);
        assert(trimmed_lines(a + b) =~= trimmed_lines(a) + trimmed_lines(b));
    }
}

/// Texts that flatten join into a text that flattens to the join.
pub proof fn lemma_flatten_join(a: Seq<char>, af: Seq<char>, b: Seq<char>, bf: Seq<char>)
    requires
        flattens_to(a, af),
        flattens_to(b, bf),
    ensures
        flattens_to(a + b, af + bf),
{
    lemma_lines_append(a, b);
    lemma_concat_add(trimmed_lines(a), trimmed_lines(b));
    if b.len() == 0 {
        assert(a + b =~= a);
    } else {
        assert((a + b).last() == b.last());
    }
}

proof fn lemma_trim_start_pad(n: nat, x: Seq<char>)
    requires
        x.len() > 0,
        !is_ws(x[0]),
    ensures
        trim_start(pad(n) + x) == x,
    decreases n,
{
    if n == 0 {
        assert(pad(n) + x =~= x);
    } else {
        let s = pad(n) + x;
        assert(s[0] == ' ');
        assert(s.drop_first() =~= pad((n - 1) as nat) + x);
        lemma_trim_start_pad((n - 1) as nat, x);
    }
}

/// A line of spaces, then `x` (a tag or an element on one line), then a line break:
/// it flattens to `x`.
pub proof fn lemma_flatten_line(n: nat, x: Seq<char>)
    requires
        x.len() > 0,
        x[0] == '<',
        x.last() == '>',
        single_line(x),
    ensures
        flattens_to(pad(n) + x + seq!['\n'], x),
{
    let line = pad(n) + x;
    assert forall|i: int| 0 <= i < line.len() implies line[i] != '\n' by {
        if i >= n {
            assert(line[i] == x[i - n]);
        }
    }
    assert(!line.contains('\n'));
    lemma_lines_cons(line, Seq::empty());
    assert(line + seq!['\n'] + Seq::<char>::empty() =~= line + seq!['\n']);
    lemma_trim_start_pad(n, x);
    assert(trim_end(x) == x);
    assert(trimmed_lines(Seq::<char>::empty()) =~= Seq::<Seq<char>>::empty());
    assert(seq![x].drop_last() =~= Seq::<Seq<char>>::empty());
    assert(seq![x].last() == x);
    assert(concat_lines(Seq::<Seq<char>>::empty()) =~= Seq::<char>::empty());
    assert(concat_lines(seq![x]) =~= Seq::<char>::empty() + x);
}

proof fn lemma_byte_char(x: int)
    requires
        0 <= x < 256,
        x != 10,
    ensures
        ((x as u8) as char) != '\n',
{
}

proof fn lemma_dec_nat_single_line(n: nat)
    ensures
        single_line(dec_nat(n)),
    decreases n,
{
    lemma_byte_char(48 + (n % 10) as int);
    if n >= 10 {
        lemma_dec_nat_single_line(n / 10);
    }
}

proof fn lemma_dec_int_single_line(i: int)
    ensures
        single_line(dec_int(i)),
{
    if i < 0 {
        lemma_dec_nat_single_line((-i) as nat);
        let d = dec_nat((-i) as nat);
        assert forall|k: int| 0 <= k < dec_int(i).len() implies dec_int(i)[k] != '\n' by {
            if k > 0 {
                assert(dec_int(i)[k] == d[k - 1]);
            }
        }
    } else {
        lemma_dec_nat_single_line(i as nat);
    }
}

proof fn lemma_uuid_single_line(bits: u128)
    ensures
        single_line(uuid_hyphenated(bits)),
{
    assert forall|i: int| 0 <= i < 36 implies uuid_hyphenated(bits)[i] != '\n' by {
        assert forall|k: int| 0 <= k < 32 implies hex_digit_lower(#[trigger] nibble(bits, k)) != '\n' by {
            let d = nibble(bits, k);
            assert(0 <= d < 16);
            if d < 10 {
                lemma_byte_char(48 + d);
            } else {
                lemma_byte_char(87 + d);
            }
        }
    }
}

proof fn lemma_base64_char(d: int)
    requires
        0 <= d < 64,
    ensures
        base64_char(d) != '\n',
{
    if d < 26 {
        lemma_byte_char(65 + d);
    } else if d < 52 {
        lemma_byte_char(71 + d);
    } else if d < 62 {
        lemma_byte_char(d - 4);
    }
}

proof fn lemma_base64_single_line(bytes: Seq<u8>)
    ensures
        single_line(base64_encoded(bytes)),
    decreases bytes.len(),
{
    if bytes.len() == 0 {
    } else if bytes.len() == 1 {
        let b0 = bytes[0] as int;
        lemma_base64_char(b0 / 4);
        lemma_base64_char((b0 % 4) * 16);
    } else if bytes.len() == 2 {
        let b0 = bytes[0] as int;
        let b1 = bytes[1] as int;
        lemma_base64_char(b0 / 4);
        lemma_base64_char((b0 % 4) * 16 + b1 / 16);
        lemma_base64_char((b1 % 16) * 4);
    } else {
        let b0 = bytes[0] as int;
        let b1 = bytes[1] as int;
        let b2 = bytes[2] as int;
        lemma_base64_char(b0 / 4);
        lemma_base64_char((b0 % 4) * 16 + b1 / 16);
        lemma_base64_char((b1 % 16) * 4 + b2 / 64);
        lemma_base64_char(b2 % 64);
        lemma_base64_single_line(bytes.skip(3));
        let head = seq![
            base64_char(b0 / 4),
            base64_char((b0 % 4) * 16 + b1 / 16),
            base64_char((b1 % 16) * 4 + b2 / 64),
            base64_char(b2 % 64),
        ];
        let tail = base64_encoded(bytes.skip(3));
        assert forall|k: int| 0 <= k < base64_encoded(bytes).len() implies base64_encoded(bytes)[k]
            != '\n' by {
            if k >= 4 {
                assert(base64_encoded(bytes)[k] == tail[k - 4]);
            }
        }
    }
}

/// The texts that the writers copy into the output hold no line break: the strings,
/// the reals and the map keys, at any depth.
pub open spec fn texts_single_line(v: SpecLLSD) -> bool
    decreases v, 1nat,
{
    match v {
        SpecLLSD::Str(s) => single_line(s),
        SpecLLSD::Real(t) => single_line(t),
        SpecLLSD::Dict(pairs) => pairs_single_line(pairs),
        SpecLLSD::Array(items) => items_single_line(items),
        _ => true,
    }
}

/// The keys and the texts of the values of the entries hold no line break.
pub open spec fn pairs_single_line(pairs: Seq<(Seq<char>, SpecLLSD)>) -> bool
    decreases pairs, 0nat,
{
    if pairs.len() == 0 {
        true
    } else {
        pairs_single_line(pairs.drop_last()) && single_line(pairs.last().0) && texts_single_line(
            pairs.last().1,
        )
    }
}

/// The texts of the items hold no line break.
pub open spec fn items_single_line(items: Seq<SpecLLSD>) -> bool
    decreases items, 0nat,
{
    if items.len() == 0 {
        true
    } else {
        items_single_line(items.drop_last()) && texts_single_line(items.last())
    }
}

proof fn lemma_escape_single_line(s: Seq<char>)
    requires
        single_line(s),
    ensures
        single_line(escape_spec(s)),
    decreases s.len(),
{
    if s.len() > 0 {
        lemma_escape_single_line(s.drop_last());
        let a = escape_spec(s.drop_last());
        let b = escape_char(s.last());
        assert(s.last() == s[s.len() - 1]);
        assert forall|k: int| 0 <= k < escape_spec(s).len() implies escape_spec(s)[k] != '\n' by {
            if k >= a.len() {
                assert(escape_spec(s)[k] == b[k - a.len()]);
            }
        }
    }
}

proof fn lemma_leaf_single_line(v: SpecLLSD)
    requires
        texts_single_line(v),
    ensures
        single_line(leaf_text(v)),
{
    reveal_strlit("true");
    reveal_strlit("false");
    match v {
        SpecLLSD::Integer(i) => lemma_dec_int_single_line(i as int),
        SpecLLSD::Date(d) => lemma_dec_int_single_line(d as int),
        SpecLLSD::UUID(bits) => lemma_uuid_single_line(bits),
        SpecLLSD::Binary(bytes) => lemma_base64_single_line(bytes),
        _ => {},
    }
}

/// A start or end tag flattens to its compact form.
proof fn lemma_flatten_tag(name: Seq<char>, close: bool, indent: nat, indent2: nat)
    requires
        single_line(name),
    ensures
        flattens_to(tag_text(name, close, indent, true), tag_text(name, close, indent2, false)),
{
    let c: Seq<char> = if close { seq!['/'] } else { Seq::empty() };
    let x = seq!['<'] + c + name + seq!['>'];
    assert(indentation(indent, true) =~= pad(indent));
    assert(tag_text(name, close, indent, true) =~= pad(indent) + x + seq!['\n']);
    assert(tag_text(name, close, indent2, false) =~= x);
    assert forall|k: int| 0 <= k < x.len() implies x[k] != '\n' by {
        if 1 + c.len() <= k < 1 + c.len() + name.len() {
            assert(x[k] == name[k - 1 - c.len()]);
        }
    }
    lemma_flatten_line(indent, x);
}

/// A `<string>` element flattens to its compact form.
proof fn lemma_flatten_string(text: Seq<char>, indent: nat, indent2: nat)
    requires
        single_line(text),
    ensures
        flattens_to(string_element(text, indent, true), string_element(text, indent2, false)),
{
    reveal_strlit("<string />");
    reveal_strlit("<string>");
    reveal_strlit("</string>");
    let x = if text.len() == 0 {
        "<string />"@
    } else {
        "<string>"@ + escape_spec(text) + "</string>"@
    };
    assert(indentation(indent, true) =~= pad(indent));
    assert(string_element(text, indent, true) =~= pad(indent) + x + seq!['\n']);
    assert(string_element(text, indent2, false) =~= x);
    if text.len() > 0 {
        lemma_escape_single_line(text);
        let e = escape_spec(text);
        assert forall|k: int| 0 <= k < x.len() implies x[k] != '\n' by {
            if 8 <= k < 8 + e.len() {
                assert(x[k] == e[k - 8]);
            } else if k >= 8 + e.len() {
                assert(x[k] == "</string>"@[k - 8 - e.len()]);
            }
        }
    }
    lemma_flatten_line(indent, x);
}

/// The `<name>` line of a member flattens to its compact form.
proof fn lemma_flatten_name(key: Seq<char>, indent: nat, indent2: nat)
    requires
        single_line(key),
    ensures
        flattens_to(name_line(key, indent, true), name_line(key, indent2, false)),
{
    reveal_strlit("<name>");
    reveal_strlit("</name>");
    lemma_escape_single_line(key);
    let e = escape_spec(key);
    let x = "<name>"@ + e + "</name>"@;
    assert(name_line(key, indent, true) =~= pad(indent) + x + seq!['\n']);
    assert forall|k: int| 0 <= k < x.len() implies x[k] != '\n' by {
        if 6 <= k < 6 + e.len() {
            assert(x[k] == e[k - 6]);
        } else if k >= 6 + e.len() {
            assert(x[k] == "</name>"@[k - 6 - e.len()]);
        }
    }
    lemma_flatten_line(indent, x);
}

proof fn lemma_tag_names()
    ensures
        single_line("struct"@),
        single_line("array"@),
        single_line("data"@),
        single_line("member"@),
        single_line("value"@),
{
    reveal_strlit("struct");
    reveal_strlit("array");
    reveal_strlit("data");
    reveal_strlit("member");
    reveal_strlit("value");
}

proof fn lemma_flatten_empty()
    ensures
        flattens_to(Seq::empty(), Seq::empty()),
{
    assert(trimmed_lines(Seq::<char>::empty()) =~= Seq::<Seq<char>>::empty());
}

/// A value written indented flattens to the value written compactly, whatever the
/// indentation of either.
proof fn lemma_flatten_value(v: SpecLLSD, spaces: nat, indent: nat, spaces2: nat, indent2: nat)
    requires
        texts_single_line(v),
    ensures
        flattens_to(value_text(v, spaces, indent, true), value_text(v, spaces2, indent2, false)),
    decreases v, 1nat,
{
    lemma_tag_names();
    match v {
        SpecLLSD::Dict(pairs) => {
            let open_t = tag_text("struct"@, false, indent, true);
            let open_f = tag_text("struct"@, false, indent2, false);
            let body_t = members_text(pairs, spaces, indent, true);
            let body_f = members_text(pairs, spaces2, indent2, false);
            let close_t = tag_text("struct"@, true, indent, true);
            let close_f = tag_text("struct"@, true, indent2, false);
            lemma_flatten_tag("struct"@, false, indent, indent2);
            lemma_flatten_members(pairs, spaces, indent, spaces2, indent2);
            lemma_flatten_tag("struct"@, true, indent, indent2);
            lemma_flatten_join(open_t, open_f, body_t, body_f);
            lemma_flatten_join(open_t + body_t, open_f + body_f, close_t, close_f);
        },
        SpecLLSD::Array(items) => {
            let a_t = tag_text("array"@, false, indent, true);
            let a_f = tag_text("array"@, false, indent2, false);
            let d_t = tag_text("data"@, false, indent + spaces, true);
            let d_f = tag_text("data"@, false, indent2 + spaces2, false);
            let body_t = items_text(items, spaces, indent, true);
            let body_f = items_text(items, spaces2, indent2, false);
            let dc_t = tag_text("data"@, true, indent + spaces, true);
            let dc_f = tag_text("data"@, true, indent2 + spaces2, false);
            let ac_t = tag_text("array"@, true, indent, true);
            let ac_f = tag_text("array"@, true, indent2, false);
            lemma_flatten_tag("array"@, false, indent, indent2);
            lemma_flatten_tag("data"@, false, indent + spaces, indent2 + spaces2);
            lemma_flatten_items(items, spaces, indent, spaces2, indent2);
            lemma_flatten_tag("data"@, true, indent + spaces, indent2 + spaces2);
            lemma_flatten_tag("array"@, true, indent, indent2);
            lemma_flatten_join(a_t, a_f, d_t, d_f);
            lemma_flatten_join(a_t + d_t, a_f + d_f, body_t, body_f);
            lemma_flatten_join(a_t + d_t + body_t, a_f + d_f + body_f, dc_t, dc_f);
            lemma_flatten_join(a_t + d_t + body_t + dc_t, a_f + d_f + body_f + dc_f, ac_t, ac_f);
        },
        _ => {
            lemma_leaf_single_line(v);
            lemma_flatten_string(leaf_text(v), indent, indent2);
        },
    }
}

proof fn lemma_flatten_member(
    key: Seq<char>,
    v: SpecLLSD,
    spaces: nat,
    indent: nat,
    spaces2: nat,
    indent2: nat,
)
    requires
        single_line(key),
        texts_single_line(v),
    ensures
        flattens_to(
            member_text(key, v, spaces, indent, true),
            member_text(key, v, spaces2, indent2, false),
        ),
    decreases v, 2nat,
{
    lemma_tag_names();
    let m_t = tag_text("member"@, false, indent + spaces, true);
    let m_f = tag_text("member"@, false, indent2 + spaces2, false);
    let n_t = name_line(key, indent + spaces * 2, true);
    let n_f = name_line(key, indent2 + spaces2 * 2, false);
    let o_t = tag_text("value"@, false, indent + spaces * 2, true);
    let o_f = tag_text("value"@, false, indent2 + spaces2 * 2, false);
    let v_t = value_text(v, spaces, indent + spaces * 3, true);
    let v_f = value_text(v, spaces2, indent2 + spaces2 * 3, false);
    let c_t = tag_text("value"@, true, indent + spaces * 2, true);
    let c_f = tag_text("value"@, true, indent2 + spaces2 * 2, false);
    let e_t = tag_text("member"@, true, indent + spaces, true);
    let e_f = tag_text("member"@, true, indent2 + spaces2, false);
    lemma_flatten_tag("member"@, false, indent + spaces, indent2 + spaces2);
    lemma_flatten_name(key, indent + spaces * 2, indent2 + spaces2 * 2);
    lemma_flatten_tag("value"@, false, indent + spaces * 2, indent2 + spaces2 * 2);
    lemma_flatten_value(v, spaces, indent + spaces * 3, spaces2, indent2 + spaces2 * 3);
    lemma_flatten_tag("value"@, true, indent + spaces * 2, indent2 + spaces2 * 2);
    lemma_flatten_tag("member"@, true, indent + spaces, indent2 + spaces2);
    lemma_flatten_join(m_t, m_f, n_t, n_f);
    lemma_flatten_join(m_t + n_t, m_f + n_f, o_t, o_f);
    lemma_flatten_join(m_t + n_t + o_t, m_f + n_f + o_f, v_t, v_f);
    lemma_flatten_join(m_t + n_t + o_t + v_t, m_f + n_f + o_f + v_f, c_t, c_f);
    lemma_flatten_join(m_t + n_t + o_t + v_t + c_t, m_f + n_f + o_f + v_f + c_f, e_t, e_f);
}

proof fn lemma_flatten_item(v: SpecLLSD, spaces: nat, indent: nat, spaces2: nat, indent2: nat)
    requires
        texts_single_line(v),
    ensures
        flattens_to(item_text(v, spaces, indent, true), item_text(v, spaces2, indent2, false)),
    decreases v, 2nat,
{
    lemma_tag_names();
    let o_t = tag_text("value"@, false, indent + spaces * 2, true);
    let o_f = tag_text("value"@, false, indent2 + spaces2 * 2, false);
    let v_t = value_text(v, spaces, indent + spaces * 3, true);
    let v_f = value_text(v, spaces2, indent2 + spaces2 * 3, false);
    let c_t = tag_text("value"@, true, indent + spaces * 2, true);
    let c_f = tag_text("value"@, true, indent2 + spaces2 * 2, false);
    lemma_flatten_tag("value"@, false, indent + spaces * 2, indent2 + spaces2 * 2);
    lemma_flatten_value(v, spaces, indent + spaces * 3, spaces2, indent2 + spaces2 * 3);
    lemma_flatten_tag("value"@, true, indent + spaces * 2, indent2 + spaces2 * 2);
    lemma_flatten_join(o_t, o_f, v_t, v_f);
    lemma_flatten_join(o_t + v_t, o_f + v_f, c_t, c_f);
}

proof fn lemma_flatten_members(
    pairs: Seq<(Seq<char>, SpecLLSD)>,
    spaces: nat,
    indent: nat,
    spaces2: nat,
    indent2: nat,
)
    requires
        pairs_single_line(pairs),
    ensures
        flattens_to(
            members_text(pairs, spaces, indent, true),
            members_text(pairs, spaces2, indent2, false),
        ),
    decreases pairs, 0nat,
{
    if pairs.len() == 0 {
        lemma_flatten_empty();
    } else {
        let init = pairs.drop_last();
        lemma_flatten_members(init, spaces, indent, spaces2, indent2);
        lemma_flatten_member(pairs.last().0, pairs.last().1, spaces, indent, spaces2, indent2);
        lemma_flatten_join(
            members_text(init, spaces, indent, true),
            members_text(init, spaces2, indent2, false),
            member_text(pairs.last().0, pairs.last().1, spaces, indent, true),
            member_text(pairs.last().0, pairs.last().1, spaces2, indent2, false),
        );
    }
}

proof fn lemma_flatten_items(
    items: Seq<SpecLLSD>,
    spaces: nat,
    indent: nat,
    spaces2: nat,
    indent2: nat,
)
    requires
        items_single_line(items),
    ensures
        flattens_to(
            items_text(items, spaces, indent, true),
            items_text(items, spaces2, indent2, false),
        ),
    decreases items, 0nat,
{
    if items.len() == 0 {
        lemma_flatten_empty();
    } else {
        let init = items.drop_last();
        lemma_flatten_items(init, spaces, indent, spaces2, indent2);
        lemma_flatten_item(items.last(), spaces, indent, spaces2, indent2);
        lemma_flatten_join(
            items_text(init, spaces, indent, true),
            items_text(init, spaces2, indent2, false),
            item_text(items.last(), spaces, indent, true),
            item_text(items.last(), spaces2, indent2, false),
        );
    }
}

#[verifier::spinoff_prover]
#[verifier::rlimit(50)]
proof fn lemma_doc_head(method_name: Seq<char>)
    requires
        single_line(method_name),
    ensures
        flattens_to(
            "<?xml version=\"1.0\"?>"@ + ("\n<methodCall>\n"@ + "    <methodName>"@ + escape_spec(
                method_name,
            ) + "</methodName>\n"@ + "    <params>\n"@ + "        <param>\n"@
                + "            <value>\n"@),
            "<?xml version=\"1.0\"?>"@ + ("<methodCall><methodName>"@ + escape_spec(method_name)
                + "</methodName><params><param><value>"@),
        ),
{
    reveal_strlit("<methodName>");
    reveal_strlit("</methodName>");
    let nl = seq!['\n'];
    let decl = "<?xml version=\"1.0\"?>"@;
    lemma_escape_single_line(method_name);
    let e = escape_spec(method_name);
    let name_x = "<methodName>"@ + e + "</methodName>"@;
    assert forall|k: int| 0 <= k < name_x.len() implies name_x[k] != '\n' by {
        if 12 <= k < 12 + e.len() {
            assert(name_x[k] == e[k - 12]);
        } else if k >= 12 + e.len() {
            assert(name_x[k] == "</methodName>"@[k - 12 - e.len()]);
        }
    }
    let l1 = pad(0) + decl + nl;
    let l2 = pad(0) + "<methodCall>"@ + nl;
    let l3 = pad(4) + name_x + nl;
    let l4 = pad(4) + "<params>"@ + nl;
    let l5 = pad(8) + "<param>"@ + nl;
    let l6 = pad(12) + "<value>"@ + nl;
    assert(flattens_to(l1, decl) && flattens_to(l2, "<methodCall>"@)) by {
        reveal_strlit("<?xml version=\"1.0\"?>");
        reveal_strlit("<methodCall>");
        lemma_flatten_line(0, decl);
        lemma_flatten_line(0, "<methodCall>"@);
    }
    lemma_flatten_line(4, name_x);
    assert(flattens_to(l4, "<params>"@) && flattens_to(l5, "<param>"@) && flattens_to(
        l6,
        "<value>"@,
    )) by {
        reveal_strlit("<params>");
        reveal_strlit("<param>");
        reveal_strlit("<value>");
        lemma_flatten_line(4, "<params>"@);
        lemma_flatten_line(8, "<param>"@);
        lemma_flatten_line(12, "<value>"@);
    }
    let f1 = decl;
    let f2 = f1 + "<methodCall>"@;
    let f3 = f2 + name_x;
    let f4 = f3 + "<params>"@;
    let f5 = f4 + "<param>"@;
    let f6 = f5 + "<value>"@;
    lemma_flatten_join(l1, f1, l2, "<methodCall>"@);
    lemma_flatten_join(l1 + l2, f2, l3, name_x);
    lemma_flatten_join(l1 + l2 + l3, f3, l4, "<params>"@);
    lemma_flatten_join(l1 + l2 + l3 + l4, f4, l5, "<param>"@);
    lemma_flatten_join(l1 + l2 + l3 + l4 + l5, f5, l6, "<value>"@);
    let pre_t = decl + "\n<methodCall>\n"@ + "    <methodName>"@;
    let post_t = "</methodName>\n"@ + "    <params>\n"@ + "        <param>\n"@
        + "            <value>\n"@;
    assert(pre_t =~= l1 + l2 + pad(4) + "<methodName>"@) by {
        reveal_strlit("<?xml version=\"1.0\"?>");
        reveal_strlit("\n<methodCall>\n");
        reveal_strlit("    <methodName>");
        reveal_strlit("<methodCall>");
    }
    assert(post_t =~= "</methodName>"@ + nl + l4 + l5 + l6) by {
        reveal_strlit("</methodName>\n");
        reveal_strlit("    <params>\n");
        reveal_strlit("        <param>\n");
        reveal_strlit("            <value>\n");
        reveal_strlit("<params>");
        reveal_strlit("<param>");
        reveal_strlit("<value>");
    }
    assert(decl + ("\n<methodCall>\n"@ + "    <methodName>"@ + e + "</methodName>\n"@
        + "    <params>\n"@ + "        <param>\n"@ + "            <value>\n"@) =~= pre_t + e
        + post_t);
    assert(pre_t + e + post_t =~= l1 + l2 + l3 + l4 + l5 + l6);
    assert("<methodCall><methodName>"@ =~= "<methodCall>"@ + "<methodName>"@) by {
        reveal_strlit("<methodCall><methodName>");
        reveal_strlit("<methodCall>");
    }
    assert("</methodName><params><param><value>"@ =~= "</methodName>"@ + "<params>"@ + "<param>"@
        + "<value>"@) by {
        reveal_strlit("</methodName><params><param><value>");
        reveal_strlit("<params>");
        reveal_strlit("<param>");
        reveal_strlit("<value>");
    }
    assert(decl + ("<methodCall><methodName>"@ + e + "</methodName><params><param><value>"@) =~= f6);
}

proof fn lemma_doc_foot()
    ensures
        flattens_to(
            "            </value>\n"@ + "        </param>\n"@ + "    </params>\n"@ + "</methodCall>\n"@,
            "</value></param></params></methodCall>"@,
        ),
{
    reveal_strlit("            </value>\n");
    reveal_strlit("        </param>\n");
    reveal_strlit("    </params>\n");
    reveal_strlit("</methodCall>\n");
    reveal_strlit("</value></param></params></methodCall>");
    reveal_strlit("</value>");
    reveal_strlit("</param>");
    reveal_strlit("</params>");
    reveal_strlit("</methodCall>");
    let nl = seq!['\n'];
    let f1 = pad(12) + "</value>"@ + nl;
    let f2 = pad(8) + "</param>"@ + nl;
    let f3 = pad(4) + "</params>"@ + nl;
    let f4 = pad(0) + "</methodCall>"@ + nl;
    lemma_flatten_line(12, "</value>"@);
    lemma_flatten_line(8, "</param>"@);
    lemma_flatten_line(4, "</params>"@);
    lemma_flatten_line(0, "</methodCall>"@);
    lemma_flatten_join(f1, "</value>"@, f2, "</param>"@);
    lemma_flatten_join(f1 + f2, "</value>"@ + "</param>"@, f3, "</params>"@);
    lemma_flatten_join(
        f1 + f2 + f3,
        "</value>"@ + "</param>"@ + "</params>"@,
        f4,
        "</methodCall>"@,
    );
    assert("            </value>\n"@ + "        </param>\n"@ + "    </params>\n"@
        + "</methodCall>\n"@ =~= f1 + f2 + f3 + f4);
    assert("</value></param></params></methodCall>"@ =~= "</value>"@ + "</param>"@ + "</params>"@
        + "</methodCall>"@);
}

/// The indented method call flattens to the compact one.
pub proof fn lemma_flatten_document(v: SpecLLSD, method_name: Seq<char>)
    requires
        single_line(method_name),
        texts_single_line(v),
    ensures
        flattens_to(document_text(v, true, method_name), document_text(v, false, method_name)),
{
    let e = escape_spec(method_name);
    let head_t = "<?xml version=\"1.0\"?>"@ + ("\n<methodCall>\n"@ + "    <methodName>"@ + e
        + "</methodName>\n"@ + "    <params>\n"@ + "        <param>\n"@ + "            <value>\n"@);
    let head_f = "<?xml version=\"1.0\"?>"@ + ("<methodCall><methodName>"@ + e
        + "</methodName><params><param><value>"@);
    let foot_t = "            </value>\n"@ + "        </param>\n"@ + "    </params>\n"@
        + "</methodCall>\n"@;
    let foot_f = "</value></param></params></methodCall>"@;
    let body_t = value_text(v, 4, 12, true);
    let body_f = value_text(v, 0, 12, false);
    lemma_doc_head(method_name);
    lemma_doc_foot();
    lemma_flatten_value(v, 4, 12, 0, 12);
    lemma_flatten_join(head_t, head_f, body_t, body_f);
    lemma_flatten_join(head_t + body_t, head_f + body_f, foot_t, foot_f);
}

} // verus!
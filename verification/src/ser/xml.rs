//! Escaping text for XML.
use vstd::prelude::*;
use crate::text::push_char;

verus! {

/// The escaped form of one character: `<`, `>`, `'`, `&` and `"` become their
/// entities, any other character stands for itself.
pub open spec fn escape_char(c: char) -> Seq<char> {
    if c == '<' {
        seq!['&', 'l', 't', ';']
    } else if c == '>' {
        seq!['&', 'g', 't', ';']
    } else if c == '\'' {
        seq!['&', 'a', 'p', 'o', 's', ';']
    } else if c == '&' {
        seq!['&', 'a', 'm', 'p', ';']
    } else if c == '"' {
        seq!['&', 'q', 'u', 'o', 't', ';']
    } else {
        seq![c]
    }
}

/// The text with each character escaped.
pub open spec fn escape_spec(s: Seq<char>) -> Seq<char>
    decreases s.len(),
{
    if s.len() == 0 {
        Seq::empty()
    } else {
        escape_spec(s.drop_last()) + escape_char(s.last())
    }
}

/// Whether `c` is one of the characters that XML text and attributes must not hold raw.
pub open spec fn is_markup_char(c: char) -> bool {
    c == '<' || c == '>' || c == '\'' || c == '"'
}

proof fn lemma_escape_no_markup(s: Seq<char>)
    ensures
        forall|i: int| 0 <= i < escape_spec(s).len() ==> !is_markup_char(#[trigger] escape_spec(s)[i]),
    decreases s.len(),
{
    if s.len() > 0 {
        lemma_escape_no_markup(s.drop_last());
        let a = escape_spec(s.drop_last());
        let b = escape_char(s.last());
        assert forall|i: int| 0 <= i < escape_spec(s).len() implies !is_markup_char(
            #[trigger] escape_spec(s)[i],
        ) by {
            if i < a.len() {
                assert(escape_spec(s)[i] == a[i]);
            } else {
                assert(escape_spec(s)[i] == b[i - a.len()]);
            }
        }
    }
}

fn push_escaped_char(out: &mut String, c: char)
    ensures
        final(out)@ == old(out)@ + escape_char(c),
{
    if c == '<' {
        push_char(out, '&');
        push_char(out, 'l');
        push_char(out, 't');
        push_char(out, ';');
    } else if c == '>' {
        push_char(out, '&');
        push_char(out, 'g');
        push_char(out, 't');
        push_char(out, ';');
    } else if c == '\'' {
        push_char(out, '&');
        push_char(out, 'a');
        push_char(out, 'p');
        push_char(out, 'o');
        push_char(out, 's');
        push_char(out, ';');
    } else if c == '&' {
        push_char(out, '&');
        push_char(out, 'a');
        push_char(out, 'm');
        push_char(out, 'p');
        push_char(out, ';');
    } else if c == '"' {
        push_char(out, '&');
        push_char(out, 'q');
        push_char(out, 'u');
        push_char(out, 'o');
        push_char(out, 't');
        push_char(out, ';');
    } else {
        push_char(out, c);
    }
    assert(final(out)@ =~= old(out)@ + escape_char(c));
}

/// Appends the escaped form of `text`.
pub fn push_escaped(out: &mut String, text: &str)
    ensures
        final(out)@ == old(out)@ + escape_spec(text@),
{
    let ghost start = out@;
    assert(text@.take(0) =~= Seq::<char>::empty());
    for c in it: text.chars()
        invariant
            it.seq() == text@,
            out@ == start + escape_spec(text@.take(it.index() as int)),
    {
        let ghost i = it.index() as int;
        push_escaped_char(out, c);
        assert(text@.take(i + 1).drop_last() =~= text@.take(i));
        assert(out@ =~= start + escape_spec(text@.take(i + 1)));
    }
    assert(text@.take(text@.len() as int) =~= text@);
}

/// The text with `<`, `>`, `'`, `&` and `"` replaced by their XML entities.
/// The result holds none of `<`, `>`, `'` and `"`.
pub fn xml_escape(unescaped: &str) -> (r: String)
    ensures
        r@ == escape_spec(unescaped@),
        forall|i: int| 0 <= i < r@.len() ==> !is_markup_char(#[trigger] r@[i]),
{
    let mut s = String::new();
    push_escaped(&mut s, unescaped);
    proof {
        lemma_escape_no_markup(unescaped@);
        assert(s@ =~= escape_spec(unescaped@));
    }
    s
}

} // verus!

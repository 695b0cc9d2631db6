//! Character-level helpers shared by the parsers and the serializer.
use vstd::prelude::*;

verus! {

broadcast use vstd::string::axiom_spec_iter;

/// Rust's `char::is_whitespace`: the characters with the Unicode `White_Space` property.
pub open spec fn is_ws(c: char) -> bool {
    let u = c as u32;
    ||| 0x09 <= u <= 0x0D
    ||| u == 0x20
    ||| u == 0x85
    ||| u == 0xA0
    ||| u == 0x1680
    ||| 0x2000 <= u <= 0x200A
    ||| u == 0x2028
    ||| u == 0x2029
    ||| u == 0x202F
    ||| u == 0x205F
    ||| u == 0x3000
}

/// `s` without its leading whitespace (`str::trim_start`).
pub open spec fn trim_start(s: Seq<char>) -> Seq<char>
    decreases s.len(),
{
    if s.len() > 0 && is_ws(s[0]) {
        trim_start(s.drop_first())
    } else {
        s
    }
}

/// `s` without its trailing whitespace (`str::trim_end`).
pub open spec fn trim_end(s: Seq<char>) -> Seq<char>
    decreases s.len(),
{
    if s.len() > 0 && is_ws(s.last()) {
        trim_end(s.drop_last())
    } else {
        s
    }
}

/// `s` without leading and trailing whitespace (`str::trim`).
pub open spec fn trim(s: Seq<char>) -> Seq<char> {
    trim_end(trim_start(s))
}

pub open spec fn starts_with(s: Seq<char>, prefix: Seq<char>) -> bool {
    prefix.len() <= s.len() && s.take(prefix.len() as int) == prefix
}

/// The index of the first whitespace character of `s`, or its length if it has none.
pub open spec fn first_ws(s: Seq<char>) -> nat
    decreases s.len(),
{
    if s.len() == 0 {
        0
    } else if is_ws(s[0]) {
        0
    } else {
        1 + first_ws(s.drop_first())
    }
}

/// Trimming never lengthens a text.
pub proof fn lemma_trim_start_len(s: Seq<char>)
    ensures
        trim_start(s).len() <= s.len(),
    decreases s.len(),
{
    if s.len() > 0 && is_ws(s[0]) {
        lemma_trim_start_len(s.drop_first());
    }
}

/// The whitespace-separated words of `s` (`str::split_whitespace`).
pub open spec fn words(s: Seq<char>) -> Seq<Seq<char>>
    decreases s.len(),
{
    let t = trim_start(s);
    if t.len() == 0 {
        Seq::empty()
    } else {
        let k = first_ws(t);
        if 0 < k <= t.len() {
            proof {
                lemma_trim_start_len(s);
            }
            seq![t.take(k as int)] + words(t.skip(k as int))
        } else {
            Seq::empty()
        }
    }
}

/// The index of the first `'\n'` of `s`, or its length if it has none.
pub open spec fn first_newline(s: Seq<char>) -> nat
    decreases s.len(),
{
    if s.len() == 0 {
        0
    } else if s[0] == '\n' {
        0
    } else {
        1 + first_newline(s.drop_first())
    }
}

/// The lines of `s`, each trimmed: `s.lines().map(str::trim)`.
/// A line ends at `'\n'`; a last line without one still counts, and the `'\r'` of a
/// `"\r\n"` ending is whitespace that `trim` removes.
pub open spec fn trimmed_lines(s: Seq<char>) -> Seq<Seq<char>>
    decreases s.len(),
{
    if s.len() == 0 {
        Seq::empty()
    } else {
        let k = first_newline(s);
        if k < s.len() {
            seq![trim(s.take(k as int))] + trimmed_lines(s.skip(k + 1 as int))
        } else {
            seq![trim(s)]
        }
    }
}

/// The texts joined with single spaces between them (`texts.join(" ")`).
pub open spec fn join_space(texts: Seq<Seq<char>>) -> Seq<char>
    decreases texts.len(),
{
    if texts.len() == 0 {
        Seq::empty()
    } else if texts.len() == 1 {
        texts[0]
    } else {
        join_space(texts.drop_last()) + seq![' '] + texts.last()
    }
}

/// Appends one character to a string.
#[verifier::external_body]
pub fn push_char(s: &mut String, c: char)
    ensures
        final(s)@ == old(s)@.push(c),
{
    s.push(c);
}

/// The characters of a string slice, in order.
pub fn chars_of(s: &str) -> (r: Vec<char>)
    ensures
        r@ == s@,
{
    let mut r: Vec<char> = Vec::new();
    for c in it: s.chars()
        invariant
            it.seq() == s@,
            r@ == s@.take(it.index() as int),
    {
        r.push(c);
    }
    assert(r@ =~= s@);
    r
}

/// The string made of the given characters.
pub fn string_of(cs: &[char]) -> (r: String)
    ensures
        r@ == cs@,
{
    let mut r = String::new();
    for i in 0..cs.len()
        invariant
            r@ == cs@.take(i as int),
    {
        push_char(&mut r, cs[i]);
        assert(cs@.take(i + 1) =~= cs@.take(i as int).push(cs@[i as int]));
    }
    assert(cs@.take(cs@.len() as int) =~= cs@);
    r
}

/// Whether `c` is whitespace (`char::is_whitespace`).
pub fn is_ws_char(c: char) -> (b: bool)
    ensures
        b == is_ws(c),
{
    let u = c as u32;
    (0x09 <= u && u <= 0x0D) || u == 0x20 || u == 0x85 || u == 0xA0 || u == 0x1680 || (0x2000
        <= u && u <= 0x200A) || u == 0x2028 || u == 0x2029 || u == 0x202F || u == 0x205F || u
        == 0x3000
}

pub proof fn lemma_trim_start_skip(s: Seq<char>, i: int)
    requires
        0 <= i <= s.len(),
        forall|j: int| 0 <= j < i ==> is_ws(#[trigger] s[j]),
    ensures
        trim_start(s) == trim_start(s.skip(i)),
    decreases i,
{
    if i > 0 {
        assert(s.skip(1) =~= s.drop_first());
        lemma_trim_start_skip(s.drop_first(), i - 1);
        assert(s.drop_first().skip(i - 1) =~= s.skip(i));
    } else {
        assert(s.skip(0) =~= s);
    }
}

pub proof fn lemma_trim_end_take(s: Seq<char>, k: int)
    requires
        0 <= k <= s.len(),
        forall|j: int| k <= j < s.len() ==> is_ws(#[trigger] s[j]),
    ensures
        trim_end(s) == trim_end(s.take(k)),
    decreases s.len() - k,
{
    if k < s.len() {
        assert(s.take(s.len() - 1) =~= s.drop_last());
        lemma_trim_end_take(s.drop_last(), k);
        assert(s.drop_last().take(k) =~= s.take(k));
    } else {
        assert(s.take(k) =~= s);
    }
}

/// The characters of `s` without leading and trailing whitespace.
pub fn trim_chars(s: &[char]) -> (r: Vec<char>)
    ensures
        r@ == trim(s@),
{
    let n = s.len();
    let mut i: usize = 0;
    while i < n && is_ws_char(s[i])
        invariant
            i <= n,
            n == s@.len(),
            forall|j: int| 0 <= j < i ==> is_ws(#[trigger] s@[j]),
        decreases n - i,
    {
        i = i + 1;
    }
    proof {
        lemma_trim_start_skip(s@, i as int);
    }
    let ghost t = s@.skip(i as int);
    assert(i == n || !is_ws(t[0]));
    assert(trim_start(t) == t);
    let mut k: usize = n;
    while k > i && is_ws_char(s[k - 1])
        invariant
            i <= k <= n,
            n == s@.len(),
            t == s@.skip(i as int),
            forall|j: int| k - i <= j < t.len() ==> is_ws(#[trigger] t[j]),
        decreases k,
    {
        k = k - 1;
    }
    proof {
        lemma_trim_end_take(t, k - i);
    }
    let mut r: Vec<char> = Vec::new();
    let mut m: usize = i;
    while m < k
        invariant
            i <= m <= k <= n,
            n == s@.len(),
            r@ == s@.subrange(i as int, m as int),
        decreases k - m,
    {
        r.push(s[m]);
        assert(s@.subrange(i as int, m + 1) =~= s@.subrange(i as int, m as int).push(s@[m as int]));
        m = m + 1;
    }
    assert(r@ =~= t.take(k - i));
    r
}

/// The character sequences of the vectors.
pub open spec fn views(vs: Seq<Vec<char>>) -> Seq<Seq<char>> {
    vs.map_values(|v: Vec<char>| v@)
}

proof fn lemma_first_ws(t: Seq<char>, k: int)
    requires
        0 <= k <= t.len(),
        forall|j: int| 0 <= j < k ==> !is_ws(#[trigger] t[j]),
        k == t.len() || is_ws(t[k]),
    ensures
        first_ws(t) == k,
    decreases k,
{
    if k > 0 {
        lemma_first_ws(t.drop_first(), k - 1);
    }
}

pub proof fn lemma_first_newline(t: Seq<char>, k: int)
    requires
        0 <= k <= t.len(),
        forall|j: int| 0 <= j < k ==> #[trigger] t[j] != '\n',
        k == t.len() || t[k] == '\n',
    ensures
        first_newline(t) == k,
    decreases k,
{
    if k > 0 {
        lemma_first_newline(t.drop_first(), k - 1);
    }
}

/// The characters `s[from..to]`.
pub fn slice_chars(s: &[char], from: usize, to: usize) -> (r: Vec<char>)
    requires
        from <= to <= s@.len(),
    ensures
        r@ == s@.subrange(from as int, to as int),
{
    let mut r: Vec<char> = Vec::new();
    let mut m: usize = from;
    while m < to
        invariant
            from <= m <= to <= s@.len(),
            r@ == s@.subrange(from as int, m as int),
        decreases to - m,
    {
        r.push(s[m]);
        assert(s@.subrange(from as int, m + 1) =~= s@.subrange(from as int, m as int).push(
            s@[m as int],
        ));
        m = m + 1;
    }
    r
}

/// The whitespace-separated words of `s`.
pub fn words_of(s: &[char]) -> (r: Vec<Vec<char>>)
    ensures
        views(r@) == words(s@),
{
    let n = s.len();
    let mut r: Vec<Vec<char>> = Vec::new();
    let mut i: usize = 0;
    assert(s@.skip(0) =~= s@);
    assert(views(r@) + words(s@) =~= words(s@));
    while i < n
        invariant
            i <= n == s@.len(),
            words(s@) == views(r@) + words(s@.skip(i as int)),
        decreases n - i,
    {
        let ghost rest = s@.skip(i as int);
        let start = i;
        while i < n && is_ws_char(s[i])
            invariant
                start <= i <= n == s@.len(),
                rest == s@.skip(start as int),
                forall|j: int| 0 <= j < i - start ==> is_ws(#[trigger] rest[j]),
            decreases n - i,
        {
            i = i + 1;
        }
        proof {
            lemma_trim_start_skip(rest, i - start);
            assert(rest.skip(i - start) =~= s@.skip(i as int));
        }
        let ghost t = s@.skip(i as int);
        assert(t.len() == 0 || !is_ws(t[0]));
        assert(trim_start(t) == t);
        if i == n {
            assert(t.len() == 0);
            assert(views(r@) + words(rest) =~= views(r@));
            assert(words(s@.skip(i as int)) =~= Seq::<Seq<char>>::empty());
        } else {
            let wstart = i;
            while i < n && !is_ws_char(s[i])
                invariant
                    wstart <= i <= n == s@.len(),
                    t == s@.skip(wstart as int),
                    forall|j: int| 0 <= j < i - wstart ==> !is_ws(#[trigger] t[j]),
                decreases n - i,
            {
                i = i + 1;
            }
            proof {
                lemma_first_ws(t, i - wstart);
                assert(t.skip(i - wstart) =~= s@.skip(i as int));
            }
            let w = slice_chars(s, wstart, i);
            assert(w@ =~= t.take(i - wstart));
            let ghost old_r = r@;
            r.push(w);
            assert(views(r@) =~= views(old_r).push(w@));
            assert(words(rest) =~= seq![w@] + words(s@.skip(i as int)));
            assert(views(r@) + words(s@.skip(i as int)) =~= views(old_r) + words(rest));
        }
    }
    assert(s@.skip(n as int) =~= Seq::<char>::empty());
    assert(words(s@.skip(n as int)) =~= Seq::<Seq<char>>::empty());
    assert(views(r@) + words(s@.skip(n as int)) =~= views(r@));
    r
}

/// The lines of `s`, each trimmed.
pub fn trimmed_lines_of(s: &[char]) -> (r: Vec<Vec<char>>)
    ensures
        views(r@) == trimmed_lines(s@),
{
    let n = s.len();
    let mut r: Vec<Vec<char>> = Vec::new();
    let mut i: usize = 0;
    assert(s@.skip(0) =~= s@);
    assert(views(r@) + trimmed_lines(s@) =~= trimmed_lines(s@));
    while i < n
        invariant
            i <= n == s@.len(),
            trimmed_lines(s@) == views(r@) + trimmed_lines(s@.skip(i as int)),
        decreases n - i,
    {
        let ghost t = s@.skip(i as int);
        let start = i;
        while i < n && s[i] != '\n'
            invariant
                start <= i <= n == s@.len(),
                t == s@.skip(start as int),
                forall|j: int| 0 <= j < i - start ==> #[trigger] t[j] != '\n',
            decreases n - i,
        {
            i = i + 1;
        }
        proof {
            lemma_first_newline(t, i - start);
        }
        let raw = slice_chars(s, start, i);
        assert(raw@ =~= t.take(i - start));
        let line = trim_chars(&raw);
        let ghost old_r = r@;
        r.push(line);
        assert(views(r@) =~= views(old_r).push(line@));
        if i < n {
            i = i + 1;
            assert(t.skip(i - start) =~= s@.skip(i as int));
            assert(trimmed_lines(t) =~= seq![line@] + trimmed_lines(s@.skip(i as int)));
        } else {
            assert(t.take(i - start) =~= t);
            assert(trimmed_lines(t) =~= seq![line@]);
            assert(s@.skip(i as int) =~= Seq::<char>::empty());
            assert(trimmed_lines(s@.skip(i as int)) =~= Seq::<Seq<char>>::empty());
        }
        assert(views(r@) + trimmed_lines(s@.skip(i as int)) =~= views(old_r) + trimmed_lines(t));
    }
    assert(s@.skip(n as int) =~= Seq::<char>::empty());
    assert(trimmed_lines(s@.skip(n as int)) =~= Seq::<Seq<char>>::empty());
    assert(views(r@) + trimmed_lines(s@.skip(n as int)) =~= views(r@));
    r
}

/// Whether `s` begins with `prefix`.
pub fn starts_with_chars(s: &[char], prefix: &[char]) -> (b: bool)
    ensures
        b == starts_with(s@, prefix@),
{
    if prefix.len() > s.len() {
        return false;
    }
    let mut i: usize = 0;
    while i < prefix.len()
        invariant
            i <= prefix@.len() <= s@.len(),
            forall|j: int| 0 <= j < i ==> #[trigger] s@[j] == prefix@[j],
        decreases prefix@.len() - i,
    {
        if s[i] != prefix[i] {
            assert(s@.take(prefix@.len() as int)[i as int] != prefix@[i as int]);
            return false;
        }
        i = i + 1;
    }
    assert(s@.take(prefix@.len() as int) =~= prefix@);
    true
}

/// Whether the two character sequences are equal.
pub fn eq_chars(a: &[char], b: &[char]) -> (r: bool)
    ensures
        r == (a@ == b@),
{
    if a.len() != b.len() {
        return false;
    }
    let r = starts_with_chars(a, b);
    assert(a@.take(b@.len() as int) =~= a@);
    r
}

/// Whether `s` holds the character `c`.
pub fn contains_char(s: &[char], c: char) -> (r: bool)
    ensures
        r == s@.contains(c),
{
    let mut i: usize = 0;
    while i < s.len()
        invariant
            i <= s@.len(),
            forall|j: int| 0 <= j < i ==> #[trigger] s@[j] != c,
        decreases s@.len() - i,
    {
        if s[i] == c {
            return true;
        }
        i = i + 1;
    }
    false
}

/// The texts joined with single spaces and trimmed: `texts.join(" ").trim()`.
pub fn join_space_trimmed(texts: &Vec<String>) -> (r: Vec<char>)
    ensures
        r@ == trim(join_space(texts@.map_values(|t: String| t@))),
{
    let ghost tv = texts@.map_values(|t: String| t@);
    let mut joined: Vec<char> = Vec::new();
    let mut i: usize = 0;
    while i < texts.len()
        invariant
            i <= texts@.len(),
            tv == texts@.map_values(|t: String| t@),
            joined@ == join_space(tv.take(i as int)),
        decreases texts@.len() - i,
    {
        let cs = chars_of(texts[i].as_str());
        let ghost before = joined@;
        if i > 0 {
            joined.push(' ');
        }
        let mut k: usize = 0;
        let ghost mid = joined@;
        while k < cs.len()
            invariant
                k <= cs@.len(),
                joined@ == mid + cs@.take(k as int),
            decreases cs@.len() - k,
        {
            joined.push(cs[k]);
            assert(cs@.take(k + 1) =~= cs@.take(k as int).push(cs@[k as int]));
            k = k + 1;
        }
        assert(cs@.take(cs@.len() as int) =~= cs@);
        assert(tv.take(i + 1).drop_last() =~= tv.take(i as int));
        assert(tv.take(i + 1).last() == cs@);
        if i == 0 {
            assert(tv.take(1) =~= seq![cs@]);
            assert(joined@ =~= cs@);
        } else {
            assert(joined@ =~= before + seq![' '] + cs@);
        }
        i = i + 1;
    }
    assert(tv.take(texts@.len() as int) =~= tv);
    trim_chars(&joined)
}

/// A line without a line break, then a line break, then more text: the first
/// trimmed line is that line, trimmed, and the others are those of the rest.
pub proof fn lemma_lines_cons(x: Seq<char>, y: Seq<char>)
    requires
        !x.contains('\n'),
    ensures
        trimmed_lines(x + seq!['\n'] + y) == seq![trim(x)] + trimmed_lines(y),
{
    let s = x + seq!['\n'] + y;
    assert forall|j: int| 0 <= j < x.len() implies #[trigger] s[j] != '\n' by {
        assert(s[j] == x[j]);
    }
    lemma_first_newline(s, x.len() as int);
    assert(s.take(x.len() as int) =~= x);
    assert(s.skip(x.len() + 1 as int) =~= y);
}

} // verus!

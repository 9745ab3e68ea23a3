//! Character-level text model: the `str` operations that the library relies
//! on (`lines`, `contains`, `split_once`, `trim`), each as a spec function
//! over `Seq<char>` with an executable counterpart over a `Vec<char>` range.

use vstd::prelude::*;

verus! {

/// Trusted: std's `String::push` appends `ch` to the end of the string, as its
/// documentation states. Verus takes this contract without checking it.
pub assume_specification[ String::push ](string: &mut String, ch: char)
    ensures
        final(string)@ == old(string)@.push(ch),
;

/// The characters of `s`, in order.
pub fn chars_of(s: &str) -> (v: Vec<char>)
    ensures
        v@ == s@,
{
    let mut v: Vec<char> = Vec::new();
    for c in it: s.chars()
        invariant
            v@ == it.seq().take(it.index() as int),
    {
        v.push(c);
    }
    v
}

/// A new `String` holding the characters `cs[lo..hi]`.
pub fn string_from(cs: &Vec<char>, lo: usize, hi: usize) -> (r: String)
    requires
        lo <= hi <= cs.len(),
    ensures
        r@ == cs@.subrange(lo as int, hi as int),
{
    let mut r = String::new();
    let mut i = lo;
    while i < hi
        invariant
            lo <= i <= hi <= cs.len(),
            r@ == cs@.subrange(lo as int, i as int),
        decreases hi - i,
    {
        r.push(cs[i]);
        assert(cs@.subrange(lo as int, i + 1) =~= cs@.subrange(lo as int, i as int).push(cs@[i as int]));
        i = i + 1;
    }
    r
}

/// `char::is_whitespace`: the characters with the Unicode `White_Space` property.
pub open spec fn is_whitespace(c: char) -> bool {
    ||| '\u{9}' <= c <= '\u{d}'
    ||| c == ' '
    ||| c == '\u{85}'
    ||| c == '\u{a0}'
    ||| c == '\u{1680}'
    ||| '\u{2000}' <= c <= '\u{200a}'
    ||| c == '\u{2028}'
    ||| c == '\u{2029}'
    ||| c == '\u{202f}'
    ||| c == '\u{205f}'
    ||| c == '\u{3000}'
}

/// Executable test of [`is_whitespace`].
pub fn char_is_whitespace(c: char) -> (r: bool)
    ensures
        r == is_whitespace(c),
{
    ('\u{9}' <= c && c <= '\u{d}') || c == ' ' || c == '\u{85}' || c == '\u{a0}' || c == '\u{1680}'
        || ('\u{2000}' <= c && c <= '\u{200a}') || c == '\u{2028}' || c == '\u{2029}' || c
        == '\u{202f}' || c == '\u{205f}' || c == '\u{3000}'
}


/// Index of the first `c` in `s`, or `-1` where `s` holds none.
pub open spec fn first_index_of(s: Seq<char>, c: char) -> int
    decreases s.len(),
{
    if s.len() == 0 {
        -1
    } else if s[0] == c {
        0
    } else {
        let r = first_index_of(s.drop_first(), c);
        if r < 0 {
            -1
        } else {
            r + 1
        }
    }
}

/// What [`first_index_of`] is: the least index holding `c`.
pub proof fn lemma_first_index_of(s: Seq<char>, c: char)
    ensures
        -1 <= first_index_of(s, c) < s.len(),
        first_index_of(s, c) == -1 <==> (forall|j: int| 0 <= j < s.len() ==> s[j] != c),
        first_index_of(s, c) >= 0 ==> s[first_index_of(s, c)] == c,
        forall|j: int| 0 <= j < first_index_of(s, c) ==> s[j] != c,
    decreases s.len(),
{
    if s.len() > 0 && s[0] != c {
        lemma_first_index_of(s.drop_first(), c);
        assert forall|j: int| 1 <= j < s.len() implies s[j] == s.drop_first()[j - 1] by {}
        if first_index_of(s, c) == -1 {
            assert forall|j: int| 0 <= j < s.len() implies s[j] != c by {
                if j > 0 {
                    assert(s[j] == s.drop_first()[j - 1]);
                }
            }
        }
    }
}

/// The index of the first `c` at or after `from` is `at` when `s[from..at]`
/// holds no `c` and `s[at] == c`.
pub proof fn lemma_first_index_at(s: Seq<char>, c: char, from: int, at: int)
    requires
        0 <= from <= at < s.len(),
        s[at] == c,
        forall|j: int| from <= j < at ==> s[j] != c,
    ensures
        first_index_of(s.skip(from), c) == at - from,
{
    lemma_first_index_of(s.skip(from), c);
    let r = first_index_of(s.skip(from), c);
    assert(s.skip(from)[at - from] == c);
    if r < at - from {
        assert(s.skip(from)[r] == s[from + r]);
    }
}

/// `t` without one trailing carriage return.
pub open spec fn strip_cr(t: Seq<char>) -> Seq<char> {
    if t.len() > 0 && t.last() == '\r' {
        t.drop_last()
    } else {
        t
    }
}

/// `str::lines`: the pieces of `s` between line feeds; a piece that a line
/// feed ends loses one carriage return before it, and no empty piece
/// follows a final line feed.
pub open spec fn lines(s: Seq<char>) -> Seq<Seq<char>>
    decreases s.len(),
{
    if s.len() == 0 {
        Seq::empty()
    } else {
        let i = first_index_of(s, '\n');
        if i < 0 {
            seq![s]
        } else {
            proof {
                lemma_first_index_of(s, '\n');
            }
            seq![strip_cr(s.take(i))] + lines(s.skip(i + 1))
        }
    }
}

/// Finds the line of `cs` that starts at `from`: its characters are
/// `cs[start..end]`, and the next line starts at `next`.
pub fn next_line(cs: &Vec<char>, from: usize) -> (r: (usize, usize, usize))
    requires
        from < cs.len(),
    ensures
        from <= r.0 <= r.1 <= r.2 <= cs.len(),
        from < r.2,
        lines(cs@.skip(from as int)) == seq![cs@.subrange(r.0 as int, r.1 as int)] + lines(
            cs@.skip(r.2 as int),
        ),
{
    let len = cs.len();
    let mut j = from;
    while j < len && cs[j] != '\n'
        invariant
            from <= j <= len == cs.len(),
            forall|k: int| from <= k < j ==> cs@[k] != '\n',
        decreases len - j,
    {
        j = j + 1;
    }
    let ghost s = cs@.skip(from as int);
    if j == len {
        proof {
            lemma_first_index_of(s, '\n');
            assert forall|k: int| 0 <= k < s.len() implies s[k] != '\n' by {
                assert(s[k] == cs@[from + k]);
            }
            assert(cs@.subrange(from as int, len as int) =~= s);
            assert(cs@.skip(len as int) =~= Seq::<char>::empty());
        }
        (from, len, len)
    } else {
        proof {
            lemma_first_index_at(cs@, '\n', from as int, j as int);
            assert(s.take(j - from) =~= cs@.subrange(from as int, j as int));
            assert(s.skip(j - from + 1) =~= cs@.skip(j + 1));
        }
        if j > from && cs[j - 1] == '\r' {
            assert(cs@.subrange(from as int, j as int).drop_last() =~= cs@.subrange(
                from as int,
                j - 1,
            ));
            (from, j - 1, j + 1)
        } else {
            (from, j, j + 1)
        }
    }
}

/// The texts of `cs` that the character ranges `spans` cover, in order.
pub open spec fn span_texts(cs: Seq<char>, spans: Seq<(usize, usize)>) -> Seq<Seq<char>> {
    Seq::new(spans.len(), |k: int| cs.subrange(spans[k].0 as int, spans[k].1 as int))
}

/// Whether every range in `spans` lies within `cs`.
pub open spec fn spans_within(cs: Seq<char>, spans: Seq<(usize, usize)>) -> bool {
    forall|k: int| 0 <= k < spans.len() ==> #[trigger] spans[k].0 <= spans[k].1 <= cs.len()
}

/// The ranges of the lines of `cs`: `cs[spans[k].0..spans[k].1]` is line `k`.
pub fn line_spans(cs: &Vec<char>) -> (spans: Vec<(usize, usize)>)
    ensures
        spans_within(cs@, spans@),
        span_texts(cs@, spans@) == lines(cs@),
{
    let mut spans: Vec<(usize, usize)> = Vec::new();
    let mut from: usize = 0;
    assert(cs@.skip(0) =~= cs@);
    while from < cs.len()
        invariant
            from <= cs.len(),
            spans_within(cs@, spans@),
            lines(cs@) == span_texts(cs@, spans@) + lines(cs@.skip(from as int)),
        decreases cs.len() - from,
    {
        let (a, b, next) = next_line(cs, from);
        let ghost old_spans = spans@;
        spans.push((a, b));
        assert(span_texts(cs@, spans@) =~= span_texts(cs@, old_spans) + seq![
            cs@.subrange(a as int, b as int),
        ]);
        from = next;
    }
    assert(cs@.skip(from as int) =~= Seq::<char>::empty());
    assert(span_texts(cs@, spans@) + Seq::<Seq<char>>::empty() =~= span_texts(cs@, spans@));
    spans
}


/// Whether `pat` occurs in `s` starting at index `i`.
pub open spec fn matches_at(s: Seq<char>, pat: Seq<char>, i: int) -> bool {
    0 <= i && i + pat.len() <= s.len() && s.subrange(i, i + pat.len()) == pat
}

/// `str::contains` with a string pattern: `pat` occurs somewhere in `s`.
pub open spec fn contains_pat(s: Seq<char>, pat: Seq<char>) -> bool {
    exists|i: int| matches_at(s, pat, i)
}

/// The first index at or after `i` where `pat` occurs in `s`, or `-1`.
pub open spec fn first_match_from(s: Seq<char>, pat: Seq<char>, i: int) -> int
    decreases s.len() + 1 - i,
{
    if i < 0 || i + pat.len() > s.len() {
        -1
    } else if matches_at(s, pat, i) {
        i
    } else {
        first_match_from(s, pat, i + 1)
    }
}

/// The first index where `pat` occurs in `s`, or `-1`.
pub open spec fn first_match(s: Seq<char>, pat: Seq<char>) -> int {
    first_match_from(s, pat, 0)
}

/// Whether `pat` occurs in `cs[lo..hi]` at `cs[at..]`.
fn matches_here(cs: &Vec<char>, lo: usize, hi: usize, pat: &Vec<char>, at: usize) -> (r: bool)
    requires
        lo <= at <= hi <= cs.len(),
    ensures
        r == matches_at(cs@.subrange(lo as int, hi as int), pat@, at - lo),
{
    let ghost s = cs@.subrange(lo as int, hi as int);
    if pat.len() > hi - at {
        return false;
    }
    let mut k: usize = 0;
    while k < pat.len()
        invariant
            lo <= at <= hi <= cs.len(),
            s == cs@.subrange(lo as int, hi as int),
            pat.len() <= hi - at,
            k <= pat.len(),
            forall|m: int| 0 <= m < k ==> cs@[at + m] == pat@[m],
        decreases pat.len() - k,
    {
        if cs[at + k] != pat[k] {
            proof {
                let sub = s.subrange(at - lo, at - lo + pat.len());
                assert(sub[k as int] == cs@[at + k]);
            }
            return false;
        }
        k = k + 1;
    }
    proof {
        let sub = s.subrange(at - lo, at - lo + pat.len());
        assert forall|m: int| 0 <= m < pat.len() implies sub[m] == pat@[m] by {
            assert(sub[m] == cs@[at + m]);
        }
        assert(sub =~= pat@);
    }
    true
}

/// The first index in `cs[lo..hi]` where `pat` occurs, counted from `lo`.
pub fn find_in(cs: &Vec<char>, lo: usize, hi: usize, pat: &Vec<char>) -> (r: Option<usize>)
    requires
        lo <= hi <= cs.len(),
    ensures
        match r {
            Some(i) => i == first_match(cs@.subrange(lo as int, hi as int), pat@),
            None => first_match(cs@.subrange(lo as int, hi as int), pat@) == -1,
        },
{
    let ghost s = cs@.subrange(lo as int, hi as int);
    let mut i: usize = 0;
    while i < hi - lo
        invariant
            lo <= hi <= cs.len(),
            i <= hi - lo,
            s == cs@.subrange(lo as int, hi as int),
            first_match(s, pat@) == first_match_from(s, pat@, i as int),
        decreases hi - lo - i,
    {
        if pat.len() > hi - lo - i {
            return None;
        }
        if matches_here(cs, lo, hi, pat, lo + i) {
            return Some(i);
        }
        i = i + 1;
    }
    if pat.len() == 0 {
        assert(s.subrange(i as int, i as int) =~= pat@);
        return Some(i);
    }
    None
}

/// The first match, where there is one, is the least index at which `pat` occurs.
pub proof fn lemma_first_match(s: Seq<char>, pat: Seq<char>, i: int)
    requires
        0 <= i,
    ensures
        first_match_from(s, pat, i) == -1 ==> forall|j: int| i <= j ==> !matches_at(s, pat, j),
        first_match_from(s, pat, i) != -1 ==> {
            &&& i <= first_match_from(s, pat, i)
            &&& matches_at(s, pat, first_match_from(s, pat, i))
            &&& forall|j: int| i <= j < first_match_from(s, pat, i) ==> !matches_at(s, pat, j)
        },
    decreases s.len() + 1 - i,
{
    if i + pat.len() <= s.len() && !matches_at(s, pat, i) {
        lemma_first_match(s, pat, i + 1);
    }
}

/// Whether `pat` occurs in `cs[lo..hi]`.
pub fn contains_in(cs: &Vec<char>, lo: usize, hi: usize, pat: &Vec<char>) -> (r: bool)
    requires
        lo <= hi <= cs.len(),
    ensures
        r == contains_pat(cs@.subrange(lo as int, hi as int), pat@),
{
    let r = find_in(cs, lo, hi, pat);
    proof {
        let s = cs@.subrange(lo as int, hi as int);
        lemma_first_match(s, pat@, 0);
        if r.is_some() {
            assert(matches_at(s, pat@, first_match(s, pat@)));
        }
    }
    r.is_some()
}

/// `str::trim_start`: `s` without its leading whitespace.
pub open spec fn trim_start(s: Seq<char>) -> Seq<char>
    decreases s.len(),
{
    if s.len() > 0 && is_whitespace(s[0]) {
        trim_start(s.drop_first())
    } else {
        s
    }
}

/// `str::trim_end`: `s` without its trailing whitespace.
pub open spec fn trim_end(s: Seq<char>) -> Seq<char>
    decreases s.len(),
{
    if s.len() > 0 && is_whitespace(s.last()) {
        trim_end(s.drop_last())
    } else {
        s
    }
}

/// `str::trim`: `s` without leading or trailing whitespace.
pub open spec fn trim(s: Seq<char>) -> Seq<char> {
    trim_end(trim_start(s))
}

/// The start of `cs[lo..hi]` once its leading whitespace is skipped.
pub fn trim_start_in(cs: &Vec<char>, lo: usize, hi: usize) -> (a: usize)
    requires
        lo <= hi <= cs.len(),
    ensures
        lo <= a <= hi,
        cs@.subrange(a as int, hi as int) == trim_start(cs@.subrange(lo as int, hi as int)),
{
    let mut a = lo;
    while a < hi && char_is_whitespace(cs[a])
        invariant
            lo <= a <= hi <= cs.len(),
            trim_start(cs@.subrange(lo as int, hi as int)) == trim_start(
                cs@.subrange(a as int, hi as int),
            ),
        decreases hi - a,
    {
        assert(cs@.subrange(a as int, hi as int).drop_first() =~= cs@.subrange(a + 1, hi as int));
        a = a + 1;
    }
    a
}

/// The range of `cs[lo..hi]` once its leading and trailing whitespace is dropped.
pub fn trim_in(cs: &Vec<char>, lo: usize, hi: usize) -> (r: (usize, usize))
    requires
        lo <= hi <= cs.len(),
    ensures
        lo <= r.0 <= r.1 <= hi,
        cs@.subrange(r.0 as int, r.1 as int) == trim(cs@.subrange(lo as int, hi as int)),
{
    let a = trim_start_in(cs, lo, hi);
    let mut b = hi;
    while b > a && char_is_whitespace(cs[b - 1])
        invariant
            lo <= a <= b <= hi <= cs.len(),
            trim(cs@.subrange(lo as int, hi as int)) == trim_end(cs@.subrange(a as int, b as int)),
        decreases b - a,
    {
        assert(cs@.subrange(a as int, b as int).drop_last() =~= cs@.subrange(a as int, b - 1));
        b = b - 1;
    }
    (a, b)
}


/// Whether `a` and `b` hold the same characters.
pub fn str_equal(a: &str, b: &str) -> (r: bool)
    ensures
        r == (a@ == b@),
{
    let x = chars_of(a);
    let y = chars_of(b);
    if x.len() != y.len() {
        return false;
    }
    let mut i: usize = 0;
    while i < x.len()
        invariant
            i <= x.len() == y.len(),
            x@ == a@,
            y@ == b@,
            forall|j: int| 0 <= j < i ==> x@[j] == y@[j],
        decreases x.len() - i,
    {
        if x[i] != y[i] {
            assert(x@[i as int] != y@[i as int]);
            return false;
        }
        i = i + 1;
    }
    assert(x@ =~= y@);
    true
}

/// Appends the characters of `t` to `s`.
pub fn push_str(s: &mut String, t: &str)
    ensures
        final(s)@ == old(s)@ + t@,
{
    let cs = chars_of(t);
    let mut i: usize = 0;
    while i < cs.len()
        invariant
            i <= cs.len(),
            s@ == old(s)@ + cs@.take(i as int),
        decreases cs.len() - i,
    {
        s.push(cs[i]);
        assert(cs@.take(i + 1) =~= cs@.take(i as int).push(cs@[i as int]));
        i = i + 1;
    }
    assert(cs@.take(i as int) =~= cs@);
}


/// Whether `s` starts with `p`.
pub fn starts_with_chars(s: &Vec<char>, p: &Vec<char>) -> (r: bool)
    ensures
        r == matches_at(s@, p@, 0),
{
    if p.len() > s.len() {
        return false;
    }
    let mut i: usize = 0;
    while i < p.len()
        invariant
            i <= p.len() <= s.len(),
            forall|j: int| 0 <= j < i ==> s@[j] == p@[j],
        decreases p.len() - i,
    {
        if s[i] != p[i] {
            assert(s@.subrange(0, p@.len() as int)[i as int] == s@[i as int]);
            return false;
        }
        i = i + 1;
    }
    assert(s@.subrange(0, p@.len() as int) =~= p@);
    true
}

} // verus!

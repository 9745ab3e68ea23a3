//! Reading the ZSBC dumper format: the last `[ZSBC DUMPER START]` ...
//! `[ZSBC DUMPER END]` block of a CraftTweaker log gives `<entry> = <info>`
//! lines, and an additional list merges more entries in.

use vstd::prelude::*;

use crate::string_map::StringMap;
use crate::text::{
    chars_of, contains_in, contains_pat, find_in, first_index_of, first_match, first_match_from,
    is_whitespace,
    lemma_first_index_at, lemma_first_index_of, lemma_first_match, line_spans, lines, matches_at,
    span_texts, spans_within, string_from, strip_cr, trim, trim_end, trim_in, trim_start,
    trim_start_in,
};

verus! {

/// The line that opens a dump block.
pub const MARKER_START: &'static str = "[ZSBC DUMPER START]";

/// The line that closes a dump block.
pub const MARKER_END: &'static str = "[ZSBC DUMPER END]";

/// What stands between an entry and its info.
pub const ENTRY_SEPARATOR: &'static str = " = ";

/// The entry a line gives: split at the first separator, the key and the
/// value trimmed, and no entry where there is no separator or the key is empty.
pub open spec fn parse_entry(line: Seq<char>) -> Option<(Seq<char>, Seq<char>)> {
    let i = first_match(line, ENTRY_SEPARATOR@);
    if i < 0 {
        None
    } else {
        let key = trim(line.take(i));
        let value = trim(line.skip(i + ENTRY_SEPARATOR@.len()));
        if key.len() == 0 {
            None
        } else {
            Some((key, value))
        }
    }
}

/// The entries of the lines of a dump block; a later line with the same key wins.
pub open spec fn dump_entries(ls: Seq<Seq<char>>) -> Map<Seq<char>, Seq<char>>
    decreases ls.len(),
{
    if ls.len() == 0 {
        Map::empty()
    } else {
        let m = dump_entries(ls.drop_last());
        match parse_entry(ls.last()) {
            Some((k, v)) => m.insert(k, v),
            None => m,
        }
    }
}

/// The index of the last of `ls[0..upto]` that contains `pat`, or `-1`.
pub open spec fn last_line_containing(ls: Seq<Seq<char>>, pat: Seq<char>, upto: int) -> int
    decreases upto,
{
    if upto <= 0 {
        -1
    } else if contains_pat(ls[upto - 1], pat) {
        upto - 1
    } else {
        last_line_containing(ls, pat, upto - 1)
    }
}

/// The entries of the last complete dump block of a log: the lines strictly
/// between the last line holding the end marker and the last line before it
/// holding the start marker. `None` where there is no such block or it gives
/// no entry.
pub open spec fn ct_log_dump(contents: Seq<char>) -> Option<Map<Seq<char>, Seq<char>>> {
    let ls = lines(contents);
    let end = last_line_containing(ls, MARKER_END@, ls.len() as int);
    let start = last_line_containing(ls, MARKER_START@, end);
    if end < 0 || start < 0 {
        None
    } else {
        let m = dump_entries(ls.subrange(start + 1, end));
        if m == Map::<Seq<char>, Seq<char>>::empty() {
            None
        } else {
            Some(m)
        }
    }
}

/// The entry a line of an additional list gives: only a line that starts
/// with `<` once leading whitespace is skipped gives one.
pub open spec fn additional_entry(line: Seq<char>) -> Option<(Seq<char>, Seq<char>)> {
    let t = trim_start(line);
    if t.len() > 0 && t[0] == '<' {
        parse_entry(line)
    } else {
        None
    }
}

/// `m` with the entries of the additional-list lines `ls` merged in: an
/// entry is added only where its key is not already present.
pub open spec fn merge_lines(m: Map<Seq<char>, Seq<char>>, ls: Seq<Seq<char>>) -> Map<
    Seq<char>,
    Seq<char>,
>
    decreases ls.len(),
{
    if ls.len() == 0 {
        m
    } else {
        let prev = merge_lines(m, ls.drop_last());
        match additional_entry(ls.last()) {
            Some((k, v)) => if prev.contains_key(k) {
                prev
            } else {
                prev.insert(k, v)
            },
            None => prev,
        }
    }
}

/// The entry that `cs[lo..hi]` gives, by [`parse_entry`].
fn split_entry(cs: &Vec<char>, lo: usize, hi: usize, sep: &Vec<char>) -> (r: Option<
    (String, String),
>)
    requires
        lo <= hi <= cs.len(),
        sep@ == ENTRY_SEPARATOR@,
    ensures
        match parse_entry(cs@.subrange(lo as int, hi as int)) {
            Some((k, v)) => r matches Some((rk, rv)) && rk@ == k && rv@ == v,
            None => r is None,
        },
{
    let ghost line = cs@.subrange(lo as int, hi as int);
    match find_in(cs, lo, hi, sep) {
        None => None,
        Some(i) => {
            proof {
                lemma_first_match(line, sep@, 0);
            }
            let (ka, kb) = trim_in(cs, lo, lo + i);
            let (va, vb) = trim_in(cs, lo + i + sep.len(), hi);
            proof {
                assert(line.take(i as int) =~= cs@.subrange(lo as int, lo + i));
                assert(line.skip(i + sep@.len()) =~= cs@.subrange(lo + i + sep@.len(), hi as int));
            }
            if ka == kb {
                None
            } else {
                Some((string_from(cs, ka, kb), string_from(cs, va, vb)))
            }
        },
    }
}

/// The index of the last of the first `upto` lines that contains `pat`.
fn last_containing(
    cs: &Vec<char>,
    spans: &Vec<(usize, usize)>,
    pat: &Vec<char>,
    upto: usize,
) -> (r: Option<usize>)
    requires
        spans_within(cs@, spans@),
        upto <= spans.len(),
    ensures
        match r {
            Some(k) => k < upto && k == last_line_containing(span_texts(cs@, spans@), pat@, upto as int),
            None => last_line_containing(span_texts(cs@, spans@), pat@, upto as int) == -1,
        },
{
    let ghost ls = span_texts(cs@, spans@);
    let mut k = upto;
    while k > 0
        invariant
            k <= upto <= spans.len(),
            spans_within(cs@, spans@),
            ls == span_texts(cs@, spans@),
            last_line_containing(ls, pat@, upto as int) == last_line_containing(ls, pat@, k as int),
        decreases k,
    {
        let (a, b) = spans[k - 1];
        assert(spans@[k - 1].0 <= spans@[k - 1].1 <= cs.len());
        if contains_in(cs, a, b, pat) {
            return Some(k - 1);
        }
        k = k - 1;
    }
    None
}

/// The entries of lines `lo..hi` of `cs`, by [`dump_entries`].
fn dump_block(
    cs: &Vec<char>,
    spans: &Vec<(usize, usize)>,
    lo: usize,
    hi: usize,
    sep: &Vec<char>,
) -> (map: StringMap)
    requires
        lo <= hi <= spans.len(),
        spans_within(cs@, spans@),
        sep@ == ENTRY_SEPARATOR@,
    ensures
        map.wf(),
        map@ == dump_entries(span_texts(cs@, spans@).subrange(lo as int, hi as int)),
{
    let ghost ls = span_texts(cs@, spans@);
    let mut map = StringMap::new();
    let mut t = lo;
    assert(ls.subrange(lo as int, t as int) =~= Seq::<Seq<char>>::empty());
    while t < hi
        invariant
            lo <= t <= hi <= spans.len(),
            spans_within(cs@, spans@),
            sep@ == ENTRY_SEPARATOR@,
            ls == span_texts(cs@, spans@),
            map.wf(),
            map@ == dump_entries(ls.subrange(lo as int, t as int)),
        decreases hi - t,
    {
        let (a, b) = spans[t];
        assert(spans@[t as int].0 <= spans@[t as int].1 <= cs.len());
        let entry = split_entry(cs, a, b, sep);
        assert(ls.subrange(lo as int, t + 1).drop_last() =~= ls.subrange(lo as int, t as int));
        match entry {
            Some((k, v)) => {
                map.insert(k, v);
            },
            None => {},
        }
        t = t + 1;
    }
    map
}

/// Parses a CraftTweaker log's contents and returns the most recent dump
/// block as a map from `<entry>` to its info string.
///
/// Returns `None` if the log does not contain a complete dump block, or the
/// block holds no entry.
pub fn parse_ct_log(contents: &str) -> (r: Option<StringMap>)
    ensures
        match r {
            Some(m) => m.wf() && ct_log_dump(contents@) == Some(m@),
            None => ct_log_dump(contents@) is None,
        },
{
    let cs = chars_of(contents);
    let spans = line_spans(&cs);
    let ghost ls = lines(contents@);
    let start_marker = chars_of(MARKER_START);
    let end_marker = chars_of(MARKER_END);
    let sep = chars_of(ENTRY_SEPARATOR);
    let end = match last_containing(&cs, &spans, &end_marker, spans.len()) {
        Some(e) => e,
        None => return None,
    };
    let start = match last_containing(&cs, &spans, &start_marker, end) {
        Some(s) => s,
        None => return None,
    };
    let map = dump_block(&cs, &spans, start + 1, end, &sep);
    if map.is_empty() {
        None
    } else {
        Some(map)
    }
}

/// Merges the entries of an additional list into `into`.
///
/// Each line that starts with `<` (after leading whitespace) and contains
/// ` = ` is an entry; it is added only if its key is not already present.
pub fn merge_additional(into: &mut StringMap, contents: &str)
    requires
        old(into).wf(),
    ensures
        final(into).wf(),
        final(into)@ == merge_lines(old(into)@, lines(contents@)),
{
    let cs = chars_of(contents);
    let spans = line_spans(&cs);
    let ghost ls = lines(contents@);
    let sep = chars_of(ENTRY_SEPARATOR);
    let mut t: usize = 0;
    assert(ls.take(0) =~= Seq::<Seq<char>>::empty());
    while t < spans.len()
        invariant
            t <= spans.len(),
            spans_within(cs@, spans@),
            sep@ == ENTRY_SEPARATOR@,
            ls == span_texts(cs@, spans@),
            into.wf(),
            into@ == merge_lines(old(into)@, ls.take(t as int)),
        decreases spans.len() - t,
    {
        let (a, b) = spans[t];
        assert(spans@[t as int].0 <= spans@[t as int].1 <= cs.len());
        assert(ls.take(t + 1).drop_last() =~= ls.take(t as int));
        let first = trim_start_in(&cs, a, b);
        if first < b && cs[first] == '<' {
            match split_entry(&cs, a, b, &sep) {
                Some((k, v)) => {
                    if !into.contains_key(k.as_str()) {
                        into.insert(k, v);
                    }
                },
                None => {},
            }
        }
        t = t + 1;
    }
    assert(ls.take(t as int) =~= ls);
}


/// Lines of text that ends a line (or is empty) come before those of what follows.
pub proof fn lemma_lines_concat(a: Seq<char>, b: Seq<char>)
    requires
        a.len() == 0 || a.last() == '\n',
    ensures
        lines(a + b) == lines(a) + lines(b),
    decreases a.len(),
{
    if a.len() == 0 {
        assert(a + b =~= b);
        assert(lines(a) + lines(b) =~= lines(b));
    } else {
        lemma_first_index_of(a, '\n');
        let i = first_index_of(a, '\n');
        assert(a[a.len() - 1] == '\n');
        assert forall|j: int| 0 <= j < i implies (a + b)[j] != '\n' by {
            assert((a + b)[j] == a[j]);
        }
        lemma_first_index_at(a + b, '\n', 0, i);
        assert((a + b).skip(0) =~= a + b);
        assert((a + b).take(i) =~= a.take(i));
        assert((a + b).skip(i + 1) =~= a.skip(i + 1) + b);
        let rest = a.skip(i + 1);
        if rest.len() > 0 {
            assert(rest.last() == a.last());
        }
        lemma_lines_concat(rest, b);
        assert(lines(a + b) =~= lines(a) + lines(b));
    }
}

/// The line found searching back lies below where the search started.
pub proof fn lemma_last_line_bounds(ls: Seq<Seq<char>>, pat: Seq<char>, u: int)
    ensures
        -1 <= last_line_containing(ls, pat, u),
        u > 0 ==> last_line_containing(ls, pat, u) < u,
    decreases u,
{
    if u > 0 && !contains_pat(ls[u - 1], pat) {
        lemma_last_line_bounds(ls, pat, u - 1);
    }
}

/// Searching back from past a match in the later lines finds it at its
/// shifted place.
pub proof fn lemma_last_line_concat(l1: Seq<Seq<char>>, l2: Seq<Seq<char>>, pat: Seq<char>, u: int)
    requires
        0 <= u <= l2.len(),
        last_line_containing(l2, pat, u) >= 0,
    ensures
        last_line_containing(l1 + l2, pat, l1.len() + u) == l1.len() + last_line_containing(
            l2,
            pat,
            u,
        ),
    decreases u,
{
    assert((l1 + l2)[l1.len() + u - 1] == l2[u - 1]);
    if !contains_pat(l2[u - 1], pat) {
        lemma_last_line_concat(l1, l2, pat, u - 1);
    }
}

/// Law: only the last complete dump block counts. Text before a log that
/// holds a complete, non-empty dump block (ending where a line ends) does
/// not change what the log parses to.
pub proof fn law_earlier_text_ignored(before: Seq<char>, log: Seq<char>)
    requires
        before.len() == 0 || before.last() == '\n',
        ct_log_dump(log) is Some,
    ensures
        ct_log_dump(before + log) == ct_log_dump(log),
{
    lemma_lines_concat(before, log);
    let l1 = lines(before);
    let l2 = lines(log);
    let ls = lines(before + log);
    let end2 = last_line_containing(l2, MARKER_END@, l2.len() as int);
    let start2 = last_line_containing(l2, MARKER_START@, end2);
    lemma_last_line_concat(l1, l2, MARKER_END@, l2.len() as int);
    lemma_last_line_bounds(l2, MARKER_END@, l2.len() as int);
    lemma_last_line_bounds(l2, MARKER_START@, end2);
    assert(ls.len() == l1.len() + l2.len());
    lemma_last_line_concat(l1, l2, MARKER_START@, end2);
    assert(ls.subrange(l1.len() + start2 + 1, l1.len() + end2) =~= l2.subrange(start2 + 1, end2));
}

/// `trim_start` leaves nothing, or text that starts with a non-whitespace character.
pub proof fn lemma_trim_start(s: Seq<char>)
    ensures
        trim_start(s).len() == 0 || !is_whitespace(trim_start(s)[0]),
    decreases s.len(),
{
    if s.len() > 0 && is_whitespace(s[0]) {
        lemma_trim_start(s.drop_first());
    }
}

/// `trim_end` keeps a prefix, which is empty or ends with a non-whitespace character.
pub proof fn lemma_trim_end(s: Seq<char>)
    ensures
        trim_end(s).len() <= s.len(),
        trim_end(s) == s.take(trim_end(s).len() as int),
        trim_end(s).len() == 0 || !is_whitespace(trim_end(s).last()),
    decreases s.len(),
{
    if s.len() > 0 && is_whitespace(s.last()) {
        lemma_trim_end(s.drop_last());
        assert(s.drop_last().take(trim_end(s).len() as int) =~= s.take(trim_end(s).len() as int));
    } else {
        assert(s.take(s.len() as int) =~= s);
    }
}

/// The key of a parsed line is non-empty and has no whitespace at either end.
pub proof fn lemma_parse_entry_key(line: Seq<char>)
    ensures
        parse_entry(line) matches Some((k, v)) ==> k.len() > 0 && !is_whitespace(k[0])
            && !is_whitespace(k.last()),
{
    let i = first_match(line, ENTRY_SEPARATOR@);
    if i >= 0 {
        let t = trim_start(line.take(i));
        lemma_trim_start(line.take(i));
        lemma_trim_end(t);
        if trim_end(t).len() > 0 {
            assert(trim_end(t)[0] == t[0]);
        }
    }
}

/// Every key of `dump_entries(ls)` is the key of a parsed line.
pub proof fn lemma_dump_keys(ls: Seq<Seq<char>>, k: Seq<char>)
    requires
        dump_entries(ls).contains_key(k),
    ensures
        k.len() > 0 && !is_whitespace(k[0]) && !is_whitespace(k.last()),
    decreases ls.len(),
{
    lemma_parse_entry_key(ls.last());
    match parse_entry(ls.last()) {
        Some((k2, v2)) => {
            if k != k2 {
                lemma_dump_keys(ls.drop_last(), k);
            }
        },
        None => {
            lemma_dump_keys(ls.drop_last(), k);
        },
    }
}

/// Law: a parsed dump is non-empty, and every key in it is non-empty and has
/// no whitespace at either end.
pub proof fn law_dump_keys_trimmed(contents: Seq<char>)
    requires
        ct_log_dump(contents) is Some,
    ensures
        ct_log_dump(contents)->0 != Map::<Seq<char>, Seq<char>>::empty(),
        forall|k: Seq<char>| #[trigger] ct_log_dump(contents)->0.contains_key(k) ==> k.len() > 0
            && !is_whitespace(k[0]) && !is_whitespace(k.last()),
{
    let ls = lines(contents);
    let end = last_line_containing(ls, MARKER_END@, ls.len() as int);
    let start = last_line_containing(ls, MARKER_START@, end);
    assert forall|k: Seq<char>| #[trigger] ct_log_dump(contents)->0.contains_key(k) implies k.len()
        > 0 && !is_whitespace(k[0]) && !is_whitespace(k.last()) by {
        lemma_dump_keys(ls.subrange(start + 1, end), k);
    }
}

/// Merging lines one after another is merging them all at once.
pub proof fn lemma_merge_split(m: Map<Seq<char>, Seq<char>>, x: Seq<Seq<char>>, y: Seq<Seq<char>>)
    ensures
        merge_lines(m, x + y) == merge_lines(merge_lines(m, x), y),
    decreases y.len(),
{
    if y.len() == 0 {
        assert(x + y =~= x);
    } else {
        assert((x + y).drop_last() =~= x + y.drop_last());
        lemma_merge_split(m, x, y.drop_last());
    }
}

/// Law: merging never drops a key nor changes the value of one already present.
pub proof fn law_merge_keeps_existing(m: Map<Seq<char>, Seq<char>>, ls: Seq<Seq<char>>)
    ensures
        forall|k: Seq<char>| #[trigger] m.contains_key(k) ==> merge_lines(m, ls).contains_key(k)
            && merge_lines(m, ls)[k] == m[k],
    decreases ls.len(),
{
    if ls.len() > 0 {
        law_merge_keeps_existing(m, ls.drop_last());
    }
}

/// Law: every key that merging adds comes from a line of the list.
pub proof fn law_merge_adds_listed(m: Map<Seq<char>, Seq<char>>, ls: Seq<Seq<char>>, k: Seq<char>)
    requires
        merge_lines(m, ls).contains_key(k),
        !m.contains_key(k),
    ensures
        exists|t: int|
            0 <= t < ls.len() && #[trigger] additional_entry(ls[t]) == Some(
                (k, merge_lines(m, ls)[k]),
            ),
    decreases ls.len(),
{
    let prev = merge_lines(m, ls.drop_last());
    if prev.contains_key(k) {
        law_merge_adds_listed(m, ls.drop_last(), k);
        law_merge_keeps_existing(prev, seq![ls.last()]);
        assert(merge_lines(prev, seq![ls.last()]) == merge_lines(m, ls)) by {
            lemma_merge_split(m, ls.drop_last(), seq![ls.last()]);
            assert(ls.drop_last() + seq![ls.last()] =~= ls);
        }
        let t = choose|t: int|
            0 <= t < ls.drop_last().len() && #[trigger] additional_entry(ls.drop_last()[t]) == Some(
                (k, prev[k]),
            );
        assert(ls[t] == ls.drop_last()[t]);
    } else {
        assert(additional_entry(ls[ls.len() - 1]) == additional_entry(ls.last()));
    }
}

/// The key of each listed entry is present once all lines are merged.
pub proof fn lemma_merge_has_listed(m: Map<Seq<char>, Seq<char>>, ls: Seq<Seq<char>>, t: int)
    requires
        0 <= t < ls.len(),
        additional_entry(ls[t]) is Some,
    ensures
        merge_lines(m, ls).contains_key((additional_entry(ls[t])->0).0),
{
    let k = (additional_entry(ls[t])->0).0;
    let x = ls.take(t + 1);
    assert(x.last() == ls[t]);
    assert(x.drop_last() =~= ls.take(t));
    assert(merge_lines(m, x).contains_key(k));
    lemma_merge_split(m, x, ls.skip(t + 1));
    assert(x + ls.skip(t + 1) =~= ls);
    law_merge_keeps_existing(merge_lines(m, x), ls.skip(t + 1));
}

/// Law: merging the same list a second time changes nothing.
pub proof fn law_merge_idempotent(m: Map<Seq<char>, Seq<char>>, contents: Seq<char>)
    ensures
        merge_lines(merge_lines(m, lines(contents)), lines(contents)) == merge_lines(
            m,
            lines(contents),
        ),
{
    let ls = lines(contents);
    let big = merge_lines(m, ls);
    assert forall|t: int| 0 <= t <= ls.len() implies #[trigger] merge_lines(big, ls.take(t)) == big by {
        lemma_merge_prefix_stable(m, ls, t);
    }
    assert(ls.take(ls.len() as int) =~= ls);
    assert(merge_lines(big, ls.take(ls.len() as int)) == big);
}

/// Merging a prefix of the list into the fully merged map changes nothing.
proof fn lemma_merge_prefix_stable(m: Map<Seq<char>, Seq<char>>, ls: Seq<Seq<char>>, t: int)
    requires
        0 <= t <= ls.len(),
    ensures
        merge_lines(merge_lines(m, ls), ls.take(t)) == merge_lines(m, ls),
    decreases t,
{
    if t > 0 {
        lemma_merge_prefix_stable(m, ls, t - 1);
        assert(ls.take(t).drop_last() =~= ls.take(t - 1));
        assert(ls.take(t).last() == ls[t - 1]);
        if additional_entry(ls[t - 1]) is Some {
            lemma_merge_has_listed(m, ls, t - 1);
        }
    }
}


/// A line feed after text ends its last line: that line loses one trailing
/// carriage return, and one empty line follows where the text was empty or
/// already ended with a line feed.
pub proof fn lemma_lines_newline(c: Seq<char>)
    ensures
        c.len() > 0 ==> lines(c).len() > 0,
        lines(c + seq!['\n']) == (if c.len() == 0 || c.last() == '\n' {
            lines(c) + seq![Seq::<char>::empty()]
        } else {
            lines(c).drop_last().push(strip_cr(lines(c).last()))
        }),
    decreases c.len(),
{
    let nl = seq!['\n'];
    if c.len() > 0 {
        lemma_first_index_of(c, '\n');
    }
    if c.len() == 0 || c.last() == '\n' {
        lemma_lines_concat(c, nl);
        assert(nl.take(0) =~= Seq::<char>::empty());
        assert(nl.skip(1) =~= Seq::<char>::empty());
        assert(nl[0] == '\n');
        assert(first_index_of(nl, '\n') == 0);
        assert(strip_cr(nl.take(0)) =~= Seq::<char>::empty());
        assert(lines(nl.skip(1)) == Seq::<Seq<char>>::empty());
        assert(lines(nl) =~= seq![Seq::<char>::empty()]);
    } else {
        let i = first_index_of(c, '\n');
        let y = c + nl;
        assert(y[c.len() as int] == '\n');
        assert(y.skip(0) =~= y);
        if i < 0 {
            assert forall|j: int| 0 <= j < c.len() implies y[j] != '\n' by {
                assert(y[j] == c[j]);
            }
            lemma_first_index_at(y, '\n', 0, c.len() as int);
            assert(y.take(c.len() as int) =~= c);
            assert(y.skip(c.len() as int + 1) =~= Seq::<char>::empty());
            assert(first_index_of(y.skip(0), '\n') == c.len());
            assert(first_index_of(y, '\n') == c.len());
            assert(lines(y.skip(c.len() as int + 1)) == Seq::<Seq<char>>::empty());
            assert(lines(y) =~= seq![strip_cr(c)]);
            assert(lines(c) == seq![c]);
            assert(lines(c).drop_last().push(strip_cr(lines(c).last())) =~= seq![strip_cr(c)]);
        } else {
            assert(i < c.len() - 1) by {
                assert(c[c.len() - 1] == c.last());
            }
            assert forall|j: int| 0 <= j < i implies y[j] != '\n' by {
                assert(y[j] == c[j]);
            }
            lemma_first_index_at(y, '\n', 0, i);
            assert(y.take(i) =~= c.take(i));
            let rest = c.skip(i + 1);
            assert(y.skip(i + 1) =~= rest + nl);
            assert(rest.last() == c.last());
            lemma_lines_newline(rest);
            let head = seq![strip_cr(c.take(i))];
            assert(lines(c) =~= head + lines(rest));
            assert(lines(y) =~= head + lines(rest + nl));
            assert(lines(c).last() == lines(rest).last());
            assert(lines(y) =~= lines(c).drop_last().push(strip_cr(lines(c).last())));
        }
    }
}

/// A carriage return after `z` adds no occurrence of a pattern that does
/// not end with one.
proof fn lemma_matches_cr(z: Seq<char>, pat: Seq<char>, k: int)
    requires
        pat.len() > 0,
        pat.last() != '\r',
    ensures
        matches_at(z.push('\r'), pat, k) == matches_at(z, pat, k),
{
    let w = z.push('\r');
    if matches_at(w, pat, k) {
        if k + pat.len() == w.len() {
            assert(w.subrange(k, k + pat.len())[pat.len() - 1] == w[w.len() - 1]);
            assert(pat[pat.len() - 1] == pat.last());
        }
        assert(w.subrange(k, k + pat.len()) =~= z.subrange(k, k + pat.len()));
    }
    if matches_at(z, pat, k) {
        assert(w.subrange(k, k + pat.len()) =~= z.subrange(k, k + pat.len()));
    }
}

/// Whether a line contains a pattern that does not end with a carriage
/// return does not depend on one trailing carriage return.
pub proof fn lemma_contains_cr(t: Seq<char>, pat: Seq<char>)
    requires
        pat.len() > 0,
        pat.last() != '\r',
    ensures
        contains_pat(strip_cr(t), pat) == contains_pat(t, pat),
{
    if t.len() > 0 && t.last() == '\r' {
        let z = t.drop_last();
        assert(z.push('\r') =~= t);
        if contains_pat(t, pat) {
            let k = choose|k: int| matches_at(t, pat, k);
            lemma_matches_cr(z, pat, k);
        }
        if contains_pat(z, pat) {
            let k = choose|k: int| matches_at(z, pat, k);
            lemma_matches_cr(z, pat, k);
        }
    }
}

/// The first occurrence of such a pattern does not move either.
proof fn lemma_first_match_cr(z: Seq<char>, pat: Seq<char>, i: int)
    requires
        pat.len() > 0,
        pat.last() != '\r',
    ensures
        first_match_from(z.push('\r'), pat, i) == first_match_from(z, pat, i),
    decreases z.len() + 1 - i,
{
    lemma_matches_cr(z, pat, i);
    if i >= 0 && i + pat.len() <= z.len() + 1 && !matches_at(z, pat, i) {
        lemma_first_match_cr(z, pat, i + 1);
    }
}

/// Leading whitespace of `z + w` is skipped in `z` first, then in `w`.
proof fn lemma_trim_start_concat(z: Seq<char>, w: Seq<char>)
    ensures
        trim_start(z + w) == (if trim_start(z).len() == 0 {
            trim_start(w)
        } else {
            trim_start(z) + w
        }),
    decreases z.len(),
{
    if z.len() == 0 {
        assert(z + w =~= w);
    } else if is_whitespace(z[0]) {
        assert((z + w)[0] == z[0]);
        assert((z + w).drop_first() =~= z.drop_first() + w);
        lemma_trim_start_concat(z.drop_first(), w);
    } else {
        assert((z + w)[0] == z[0]);
    }
}

/// A lone carriage return trims to nothing.
proof fn lemma_trim_start_cr()
    ensures
        trim_start(seq!['\r']) == Seq::<char>::empty(),
{
    let cr = seq!['\r'];
    assert(is_whitespace(cr[0]));
    assert(cr.drop_first() =~= Seq::<char>::empty());
    assert(trim_start(Seq::<char>::empty()) == Seq::<char>::empty());
    assert(trim_start(cr) == trim_start(cr.drop_first()));
}

/// Trimming ignores one trailing carriage return.
proof fn lemma_trim_cr(z: Seq<char>)
    ensures
        trim(z.push('\r')) == trim(z),
{
    assert(z.push('\r') =~= z + seq!['\r']);
    lemma_trim_start_concat(z, seq!['\r']);
    lemma_trim_start_cr();
    let t = trim_start(z);
    if t.len() > 0 {
        assert((t + seq!['\r']).drop_last() =~= t);
        assert((t + seq!['\r']).last() == '\r');
    }
}

/// A line gives the same entry with or without one trailing carriage return.
proof fn lemma_parse_entry_cr(z: Seq<char>)
    ensures
        parse_entry(z.push('\r')) == parse_entry(z),
{
    reveal_strlit(" = ");
    let sep = ENTRY_SEPARATOR@;
    assert(sep.len() == 3 && sep.last() == ' ');
    let w = z.push('\r');
    lemma_first_match_cr(z, sep, 0);
    let i = first_match(z, sep);
    lemma_first_match(z, sep, 0);
    if i >= 0 {
        assert(w.take(i) =~= z.take(i));
        assert(w.skip(i + 3) =~= z.skip(i + 3).push('\r'));
        lemma_trim_cr(z.skip(i + 3));
    }
}

/// A line of an additional list gives the same entry without one trailing
/// carriage return.
pub proof fn lemma_additional_entry_cr(t: Seq<char>)
    ensures
        additional_entry(strip_cr(t)) == additional_entry(t),
{
    if t.len() > 0 && t.last() == '\r' {
        let z = t.drop_last();
        assert(z.push('\r') =~= t);
        assert(z.push('\r') =~= z + seq!['\r']);
        lemma_trim_start_concat(z, seq!['\r']);
        lemma_trim_start_cr();
        lemma_parse_entry_cr(z);
        if trim_start(z).len() > 0 {
            assert((trim_start(z) + seq!['\r'])[0] == trim_start(z)[0]);
        }
    }
}

/// Searching back gives the same line in two lists whose lines below where
/// the search starts agree on containing `pat`.
pub proof fn lemma_last_line_agree(ls: Seq<Seq<char>>, ms: Seq<Seq<char>>, pat: Seq<char>, u: int)
    requires
        u <= ls.len(),
        u <= ms.len(),
        forall|i: int| 0 <= i < u ==> contains_pat(#[trigger] ls[i], pat) == contains_pat(ms[i], pat),
    ensures
        last_line_containing(ls, pat, u) == last_line_containing(ms, pat, u),
    decreases u,
{
    if u > 0 {
        assert(contains_pat(ls[u - 1], pat) == contains_pat(ms[u - 1], pat));
        lemma_last_line_agree(ls, ms, pat, u - 1);
    }
}

/// Searching back over lines that do not contain `pat` finds nothing among them.
pub proof fn lemma_last_line_skip(ls: Seq<Seq<char>>, pat: Seq<char>, k: int, n: int)
    requires
        0 <= k <= n <= ls.len(),
        forall|i: int| k <= i < n ==> !contains_pat(#[trigger] ls[i], pat),
    ensures
        last_line_containing(ls, pat, n) == last_line_containing(ls, pat, k),
    decreases n - k,
{
    if n > k {
        assert(!contains_pat(ls[n - 1], pat));
        lemma_last_line_skip(ls, pat, k, n - 1);
    }
}

/// Law: only the last complete dump block counts. Text before a log, and
/// text after it in which no line holds the end marker, change nothing,
/// whether or not the block holds entries. The log must hold a line with the
/// end marker and, before it, one with the start marker; it is joined to the
/// text around it by line feeds.
pub proof fn law_surrounding_text_ignored(before: Seq<char>, log: Seq<char>, after: Seq<char>)
    requires
        last_line_containing(lines(log), MARKER_START@, last_line_containing(lines(log), MARKER_END@, lines(log).len() as int)) >= 0,
        last_line_containing(lines(log), MARKER_END@, lines(log).len() as int) >= 0,
        forall|i: int| 0 <= i < lines(after).len() ==> !contains_pat(#[trigger] lines(after)[i], MARKER_END@),
    ensures
        ct_log_dump(before + seq!['\n'] + log + seq!['\n'] + after) == ct_log_dump(log),
{
    let nl = seq!['\n'];
    let x = before + nl;
    let y = log + nl;
    let full = before + nl + log + nl + after;
    assert(full =~= x + (y + after));
    assert(x.last() == '\n');
    assert(y.last() == '\n');
    lemma_lines_concat(x, y + after);
    lemma_lines_concat(y, after);
    lemma_lines_newline(log);
    let l1 = lines(x);
    let l2 = lines(log);
    let l2x = lines(y);
    let l3 = lines(after);
    let ls = lines(full);
    assert(ls =~= l1 + (l2x + l3));
    reveal_strlit("[ZSBC DUMPER END]");
    reveal_strlit("[ZSBC DUMPER START]");
    let end_pat = MARKER_END@;
    let start_pat = MARKER_START@;
    assert(end_pat.len() > 0 && end_pat.last() != '\r');
    assert(start_pat.len() > 0 && start_pat.last() != '\r');
    let e2 = last_line_containing(l2, end_pat, l2.len() as int);
    lemma_last_line_bounds(l2, end_pat, l2.len() as int);
    let n1: int = l1.len() as int;
    let n12: int = n1 + l2.len();
    let ends_line = log.len() == 0 || log.last() == '\n';
    // the log's lines stand unchanged in the whole text, save that its last
    // line may lose a carriage return and an empty line may follow it
    assert(l2x.len() == l2.len() + (if ends_line { 1int } else { 0int }));
    assert forall|j: int| 0 <= j < l2.len() - 1 implies #[trigger] l2x[j] == l2[j] by {}
    assert forall|j: int| l2.len() <= j < l2x.len() implies #[trigger] l2x[j] =~= Seq::<char>::empty() by {}
    assert(l2x[l2.len() - 1] == l2.last() || l2x[l2.len() - 1] == strip_cr(l2.last()));
    assert forall|i: int| n12 <= i < ls.len() implies !contains_pat(#[trigger] ls[i], end_pat) by {
        if i < n1 + l2x.len() {
            assert(ls[i] == l2x[i - n1]);
            assert(l2x[i - n1] =~= Seq::<char>::empty());
            if contains_pat(ls[i], end_pat) {
                let k = choose|k: int| matches_at(ls[i], end_pat, k);
            }
        } else {
            assert(ls[i] == l3[i - n1 - l2x.len()]);
        }
    }
    lemma_last_line_skip(ls, end_pat, n12, ls.len() as int);
    let ms = l1 + l2;
    lemma_contains_cr(l2.last(), end_pat);
    assert forall|i: int| 0 <= i < n12 implies contains_pat(#[trigger] ls[i], end_pat)
        == contains_pat(ms[i], end_pat) by {
        if i >= n1 {
            assert(ls[i] == l2x[i - n1]);
            assert(ms[i] == l2[i - n1]);
            if i == n12 - 1 {
                assert(l2[i - n1] == l2.last());
            }
        }
    }
    lemma_last_line_agree(ls, ms, end_pat, n12);
    lemma_last_line_concat(l1, l2, end_pat, l2.len() as int);
    let s2 = last_line_containing(l2, start_pat, e2);
    assert forall|i: int| 0 <= i < n1 + e2 implies contains_pat(#[trigger] ls[i], start_pat)
        == contains_pat(ms[i], start_pat) by {
        if i >= n1 {
            assert(ls[i] == l2x[i - n1]);
        }
    }
    lemma_last_line_agree(ls, ms, start_pat, n1 + e2);
    lemma_last_line_concat(l1, l2, start_pat, e2);
    lemma_last_line_bounds(l2, start_pat, e2);
    assert(ls.subrange(n1 + s2 + 1, n1 + e2) =~= l2.subrange(s2 + 1, e2)) by {
        assert forall|j: int| n1 + s2 + 1 <= j < n1 + e2 implies #[trigger] ls[j] == l2[j - n1] by {
            assert(ls[j] == l2x[j - n1]);
        }
    }
}

/// Law: merging two lists one after the other is merging them joined by a
/// line feed.
pub proof fn law_merge_concat(m: Map<Seq<char>, Seq<char>>, first: Seq<char>, second: Seq<char>)
    ensures
        merge_lines(m, lines(first + seq!['\n'] + second)) == merge_lines(
            merge_lines(m, lines(first)),
            lines(second),
        ),
{
    let nl = seq!['\n'];
    let y = first + nl;
    assert(y.last() == '\n');
    lemma_lines_concat(y, second);
    lemma_lines_newline(first);
    let l1 = lines(first);
    let ly = lines(y);
    lemma_merge_split(m, ly, lines(second));
    let mid = merge_lines(m, l1);
    if first.len() == 0 || first.last() == '\n' {
        let extra = seq![Seq::<char>::empty()];
        lemma_merge_split(m, l1, extra);
        assert(extra.drop_last() =~= Seq::<Seq<char>>::empty());
        assert(extra.last() == Seq::<char>::empty());
        assert(trim_start(Seq::<char>::empty()) == Seq::<char>::empty());
        assert(additional_entry(extra.last()) is None);
        assert(merge_lines(mid, extra.drop_last()) == mid);
        assert(merge_lines(mid, extra) == mid);
    } else {
        lemma_additional_entry_cr(l1.last());
        assert(ly.drop_last() =~= l1.drop_last());
        assert(ly.last() == strip_cr(l1.last()));
        assert(merge_lines(m, ly) == mid);
    }
}

/// Law: merging an additional list adds exactly the listed entries whose key
/// is new. A key is in the merged map when it was already there, or when
/// some line of the list starts with `<` once leading whitespace is skipped
/// and splits at ` = ` with that key (whatever characters the key holds). A
/// key already present keeps its value; a new key takes the value of the
/// first such line.
pub proof fn law_merge_adds_listed_lines(m: Map<Seq<char>, Seq<char>>, ls: Seq<Seq<char>>, k: Seq<char>)
    ensures
        merge_lines(m, ls).contains_key(k) <==> (m.contains_key(k) || exists|t: int|
            0 <= t < ls.len() && trim_start(#[trigger] ls[t]).len() > 0 && trim_start(ls[t])[0] == '<'
                && parse_entry(ls[t]) is Some && (parse_entry(ls[t])->0).0 == k),
        m.contains_key(k) ==> merge_lines(m, ls)[k] == m[k],
        forall|t: int|
            0 <= t < ls.len() && !m.contains_key(k) && trim_start(#[trigger] ls[t]).len() > 0
                && trim_start(ls[t])[0] == '<' && parse_entry(ls[t]) is Some && (parse_entry(
                ls[t],
            )->0).0 == k && (forall|u: int|
                0 <= u < t ==> !(trim_start(#[trigger] ls[u]).len() > 0 && trim_start(ls[u])[0] == '<'
                    && parse_entry(ls[u]) is Some && (parse_entry(ls[u])->0).0 == k)) ==> merge_lines(
                m,
                ls,
            )[k] == (parse_entry(ls[t])->0).1,
    decreases ls.len(),
{
    if ls.len() > 0 {
        let q = ls.drop_last();
        let x = ls.last();
        let prev = merge_lines(m, q);
        law_merge_adds_listed_lines(m, q, k);
        law_merge_keeps_existing(m, q);
        assert forall|t: int| 0 <= t < q.len() implies #[trigger] q[t] == ls[t] by {}
        assert(ls[ls.len() - 1] == x);
        let listed_x = trim_start(x).len() > 0 && trim_start(x)[0] == '<' && parse_entry(x) is Some
            && (parse_entry(x)->0).0 == k;
        if merge_lines(m, ls).contains_key(k) && !m.contains_key(k) && !prev.contains_key(k) {
            assert(listed_x);
        }
        if exists|t: int|
            0 <= t < ls.len() && trim_start(#[trigger] ls[t]).len() > 0 && trim_start(ls[t])[0] == '<'
                && parse_entry(ls[t]) is Some && (parse_entry(ls[t])->0).0 == k {
            let t = choose|t: int|
                0 <= t < ls.len() && trim_start(#[trigger] ls[t]).len() > 0 && trim_start(ls[t])[0]
                    == '<' && parse_entry(ls[t]) is Some && (parse_entry(ls[t])->0).0 == k;
            if t < q.len() {
                assert(q[t] == ls[t]);
            }
        }
        assert forall|t: int|
            0 <= t < ls.len() && !m.contains_key(k) && trim_start(#[trigger] ls[t]).len() > 0
                && trim_start(ls[t])[0] == '<' && parse_entry(ls[t]) is Some && (parse_entry(
                ls[t],
            )->0).0 == k && (forall|u: int|
                0 <= u < t ==> !(trim_start(#[trigger] ls[u]).len() > 0 && trim_start(ls[u])[0] == '<'
                    && parse_entry(ls[u]) is Some && (parse_entry(ls[u])->0).0 == k)) implies merge_lines(
            m,
            ls,
        )[k] == (parse_entry(ls[t])->0).1 by {
            if t < q.len() {
                assert(q[t] == ls[t]);
                assert forall|u: int| 0 <= u < t implies !(trim_start(#[trigger] q[u]).len() > 0
                    && trim_start(q[u])[0] == '<' && parse_entry(q[u]) is Some && (parse_entry(q[u])->0).0
                    == k) by {
                    assert(q[u] == ls[u]);
                }
            } else {
                assert(x == ls[t]);
                if prev.contains_key(k) {
                    let t2 = choose|t2: int|
                        0 <= t2 < q.len() && trim_start(#[trigger] q[t2]).len() > 0 && trim_start(
                            q[t2],
                        )[0] == '<' && parse_entry(q[t2]) is Some && (parse_entry(q[t2])->0).0 == k;
                    assert(q[t2] == ls[t2]);
                }
            }
        }
    }
}

/// Law: a line gives an entry by splitting at its first ` = `: where the
/// separator first occurs at `i`, the key is the text before it trimmed and
/// the value the text after it trimmed, and there is an entry exactly when
/// that key is not empty; a line without the separator gives none.
pub proof fn law_parse_entry_splits_at_first_separator(line: Seq<char>, i: int)
    ensures
        (forall|j: int| 0 <= j && j + 3 <= line.len() ==> #[trigger] line.subrange(j, j + 3) != seq![' ', '=', ' '])
            ==> parse_entry(line) is None,
        0 <= i && i + 3 <= line.len() && line.subrange(i, i + 3) == seq![' ', '=', ' '] && (forall|j: int|
            0 <= j < i ==> #[trigger] line.subrange(j, j + 3) != seq![' ', '=', ' ']) ==> parse_entry(line)
            == (if trim(line.take(i)).len() == 0 {
            None
        } else {
            Some((trim(line.take(i)), trim(line.skip(i + 3))))
        }),
{
    reveal_strlit(" = ");
    let sep = ENTRY_SEPARATOR@;
    assert(sep =~= seq![' ', '=', ' ']);
    lemma_first_match(line, sep, 0);
    let f = first_match(line, sep);
    if f >= 0 {
        assert(line.subrange(f, f + 3) == sep);
    }
    if 0 <= i && i + 3 <= line.len() && line.subrange(i, i + 3) == seq![' ', '=', ' '] && (forall|j: int|
        0 <= j < i ==> #[trigger] line.subrange(j, j + 3) != seq![' ', '=', ' ']) {
        assert(matches_at(line, sep, i));
        if f < i {
            assert(line.subrange(f, f + 3) == sep);
        }
    }
}

} // verus!

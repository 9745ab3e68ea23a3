//! Locating what stands under the cursor on a line: the word that a
//! completion replaces, and the `<...>` bracket that a hover describes.

use vstd::prelude::*;
use vstd::utf8::{
    char_is_scalar, encode_scalar, encode_utf8, is_ascii_chars, is_ascii_chars_encode_utf8,
};

use crate::text::chars_of;

verus! {

/// Whether byte `b` may stand in a bracket-handler word: an ASCII letter or
/// digit, or one of `_ - : . <`.
pub open spec fn word_byte(b: u8) -> bool {
    ||| 0x30 <= b <= 0x39  // '0'..='9'
    ||| 0x41 <= b <= 0x5a  // 'A'..='Z'
    ||| 0x61 <= b <= 0x7a  // 'a'..='z'
    ||| b == 0x5f  // '_'
    ||| b == 0x2d  // '-'
    ||| b == 0x3a  // ':'
    ||| b == 0x2e  // '.'
    ||| b == 0x3c  // '<'
}

/// Whether byte `b` may stand in a bracket-handler word.
pub fn is_word_byte(b: u8) -> (r: bool)
    ensures
        r == word_byte(b),
{
    (0x30 <= b && b <= 0x39) || (0x41 <= b && b <= 0x5a) || (0x61 <= b && b <= 0x7a) || b == 0x5f
        || b == 0x2d || b == 0x3a || b == 0x2e || b == 0x3c
}

/// Whether `bs[s..e]` is the run of word bytes around `col`: every byte in
/// it is a word byte and the bytes just outside it are not.
pub open spec fn is_word_run(bs: Seq<u8>, col: int, s: int, e: int) -> bool {
    &&& 0 <= s <= col <= e <= bs.len()
    &&& forall|i: int| s <= i < e ==> word_byte(#[trigger] bs[i])
    &&& s == 0 || !word_byte(bs[s - 1])
    &&& e == bs.len() || !word_byte(bs[e])
}

/// Where the run of word bytes that ends at `col` starts.
pub open spec fn word_start(bs: Seq<u8>, col: int) -> int
    decreases col,
{
    if col > 0 && word_byte(bs[col - 1]) {
        word_start(bs, col - 1)
    } else {
        col
    }
}

/// Where the run of word bytes that starts at `col` ends.
pub open spec fn word_end(bs: Seq<u8>, col: int) -> int
    decreases bs.len() - col,
{
    if 0 <= col < bs.len() && word_byte(bs[col]) {
        word_end(bs, col + 1)
    } else {
        col
    }
}

/// ASCII bytes read as characters.
pub open spec fn ascii_chars(bs: Seq<u8>) -> Seq<char> {
    Seq::new(bs.len(), |j: int| bs[j] as char)
}

/// The word-byte run around byte `col` of `line`: the word itself, and the
/// byte range it spans. `None` where neither the byte before `col` nor the
/// byte at it is a word byte.
pub fn bracket_word_range(line: &str, col: usize) -> (r: Option<(String, usize, usize)>)
    requires
        col <= encode_utf8(line@).len(),
    ensures
        r is None <==> ((col == 0 || !word_byte(encode_utf8(line@)[col - 1])) && (col == encode_utf8(
            line@,
        ).len() || !word_byte(encode_utf8(line@)[col as int]))),
        r matches Some((w, s, e)) ==> {
            &&& s < e
            &&& is_word_run(encode_utf8(line@), col as int, s as int, e as int)
            &&& s == word_start(encode_utf8(line@), col as int)
            &&& e == word_end(encode_utf8(line@), col as int)
            &&& encode_utf8(w@) == encode_utf8(line@).subrange(s as int, e as int)
            &&& w@ == ascii_chars(encode_utf8(line@).subrange(s as int, e as int))
        },
        r is None ==> word_start(encode_utf8(line@), col as int) == word_end(
            encode_utf8(line@),
            col as int,
        ),
{
    let bytes = line.as_bytes();
    let ghost bs = encode_utf8(line@);
    assert(bytes@ == bs);
    let mut start = col;
    while start > 0 && is_word_byte(bytes[start - 1])
        invariant
            start <= col <= bytes@.len(),
            bytes@ == bs,
            word_start(bs, col as int) == word_start(bs, start as int),
            forall|i: int| start <= i < col ==> word_byte(#[trigger] bytes@[i]),
        decreases start,
    {
        start = start - 1;
    }
    let mut end = col;
    while end < bytes.len() && is_word_byte(bytes[end])
        invariant
            col <= end <= bytes@.len(),
            bytes@ == bs,
            word_end(bs, col as int) == word_end(bs, end as int),
            forall|i: int| col <= i < end ==> word_byte(#[trigger] bytes@[i]),
        decreases bytes@.len() - end,
    {
        end = end + 1;
    }
    if start == end {
        return None;
    }
    let mut w = String::new();
    let mut i = start;
    while i < end
        invariant
            start <= i <= end <= bytes@.len(),
            forall|j: int| start <= j < end ==> word_byte(#[trigger] bytes@[j]),
            w@ == Seq::new((i - start) as nat, |j: int| bytes@[start + j] as char),
        decreases end - i,
    {
        let b = bytes[i];
        assert(word_byte(bytes@[i as int]));
        w.push(b as char);
        assert(w@ =~= Seq::new((i + 1 - start) as nat, |j: int| bytes@[start + j] as char));
        i = i + 1;
    }
    proof {
        let sub = bs.subrange(start as int, end as int);
        assert(is_ascii_chars(w@)) by {
            assert forall|j: int| 0 <= j < w@.len() implies '\0' <= #[trigger] w@[j] <= '\u{7f}' by {
                assert(word_byte(bytes@[start + j]));
            }
        }
        is_ascii_chars_encode_utf8(w@);
        assert forall|j: int| 0 <= j < sub.len() implies #[trigger] encode_utf8(w@)[j] == sub[j] by {
            let b = bytes@[start + j];
            assert(word_byte(b));
            assert(w@[j] as u8 == encode_utf8(w@)[j]);
        }
        assert(encode_utf8(w@) =~= sub);
        assert(w@ =~= ascii_chars(sub));
    }
    Some((w, start, end))
}

/// The word range used when completions are not tied to brackets; it is the
/// same run of word bytes as [`bracket_word_range`].
pub fn loose_word_range(line: &str, col: usize) -> (r: Option<(String, usize, usize)>)
    requires
        col <= encode_utf8(line@).len(),
    ensures
        r is None <==> ((col == 0 || !word_byte(encode_utf8(line@)[col - 1])) && (col == encode_utf8(
            line@,
        ).len() || !word_byte(encode_utf8(line@)[col as int]))),
        r matches Some((w, s, e)) ==> {
            &&& s < e
            &&& is_word_run(encode_utf8(line@), col as int, s as int, e as int)
            &&& s == word_start(encode_utf8(line@), col as int)
            &&& e == word_end(encode_utf8(line@), col as int)
            &&& encode_utf8(w@) == encode_utf8(line@).subrange(s as int, e as int)
            &&& w@ == ascii_chars(encode_utf8(line@).subrange(s as int, e as int))
        },
        r is None ==> word_start(encode_utf8(line@), col as int) == word_end(
            encode_utf8(line@),
            col as int,
        ),
{
    bracket_word_range(line, col)
}


/// The UTF-8 encoding of a concatenation is the concatenation of the encodings.
pub proof fn lemma_encode_concat(a: Seq<char>, b: Seq<char>)
    ensures
        encode_utf8(a + b) == encode_utf8(a) + encode_utf8(b),
    decreases a.len(),
{
    if a.len() == 0 {
        assert(a + b =~= b);
        assert(encode_utf8(a) + encode_utf8(b) =~= encode_utf8(b));
    } else {
        assert((a + b).drop_first() =~= a.drop_first() + b);
        assert((a + b)[0] == a[0]);
        lemma_encode_concat(a.drop_first(), b);
        assert(encode_utf8(a + b) =~= encode_utf8(a) + encode_utf8(b));
    }
}

/// The byte offset in `cs`'s UTF-8 encoding at which character `i` starts.
pub open spec fn byte_offset(cs: Seq<char>, i: int) -> int {
    encode_utf8(cs.take(i)).len() as int
}

/// Each character adds the length of its encoding to the offset, and no
/// offset passes the encoding's length.
pub proof fn lemma_byte_offset_step(cs: Seq<char>, i: int)
    requires
        0 <= i < cs.len(),
    ensures
        byte_offset(cs, i + 1) == byte_offset(cs, i) + encode_scalar(cs[i] as u32).len(),
        byte_offset(cs, i + 1) <= encode_utf8(cs).len(),
{
    assert(cs.take(i + 1) =~= cs.take(i) + seq![cs[i]]);
    lemma_encode_concat(cs.take(i), seq![cs[i]]);
    let one = seq![cs[i]];
    assert(one.drop_first() =~= Seq::<char>::empty());
    assert(encode_utf8(one.drop_first()) =~= Seq::<u8>::empty());
    assert(encode_utf8(one) == encode_scalar(one[0] as u32) + encode_utf8(one.drop_first()));
    assert(encode_utf8(one) =~= encode_scalar(cs[i] as u32));
    assert(cs =~= cs.take(i + 1) + cs.skip(i + 1));
    lemma_encode_concat(cs.take(i + 1), cs.skip(i + 1));
}

/// The number of bytes in the UTF-8 encoding of `c`.
pub fn utf8_width(c: char) -> (w: usize)
    ensures
        w == encode_scalar(c as u32).len(),
{
    proof {
        char_is_scalar(c);
    }
    let v = c as u32;
    if v <= 0x7f {
        1
    } else if v <= 0x7ff {
        2
    } else if v <= 0xffff {
        3
    } else {
        4
    }
}

/// The byte offset at which character `i` of `cs` starts.
fn offset_of(cs: &Vec<char>, i: usize, total: usize) -> (r: usize)
    requires
        i <= cs.len(),
        total == encode_utf8(cs@).len(),
    ensures
        r == byte_offset(cs@, i as int),
{
    let mut k: usize = 0;
    let mut off: usize = 0;
    assert(cs@.take(0) =~= Seq::<char>::empty());
    while k < i
        invariant
            k <= i <= cs.len(),
            total == encode_utf8(cs@).len(),
            off == byte_offset(cs@, k as int),
        decreases i - k,
    {
        proof {
            lemma_byte_offset_step(cs@, k as int);
        }
        off = off + utf8_width(cs[k]);
        k = k + 1;
    }
    off
}

/// The index of the first character that starts at or after byte `col`,
/// looking from character `i`; the number of characters where none does.
pub open spec fn cursor_index_from(cs: Seq<char>, col: int, i: int) -> int
    decreases cs.len() - i,
{
    if i >= cs.len() {
        cs.len() as int
    } else if byte_offset(cs, i) >= col {
        i
    } else {
        cursor_index_from(cs, col, i + 1)
    }
}

/// The index of the last `c` in `cs[0..upto]`, or `-1`.
pub open spec fn last_index_before(cs: Seq<char>, c: char, upto: int) -> int
    decreases upto,
{
    if upto <= 0 {
        -1
    } else if cs[upto - 1] == c {
        upto - 1
    } else {
        last_index_before(cs, c, upto - 1)
    }
}

/// The index of the first `c` in `cs` at or after `from`, or `-1`.
pub open spec fn first_index_from(cs: Seq<char>, c: char, from: int) -> int
    decreases cs.len() - from,
{
    if from >= cs.len() {
        -1
    } else if cs[from] == c {
        from
    } else {
        first_index_from(cs, c, from + 1)
    }
}

/// The bracket under the cursor at byte `col`, as a character range: it
/// starts at the `<` under the cursor or the last `<` before it, and ends
/// just past the first `>` at or after the cursor, or at the end of the line.
pub open spec fn hover_bracket(cs: Seq<char>, col: int) -> Option<(int, int)> {
    let n = cs.len() as int;
    let pos = cursor_index_from(cs, col, 0);
    let start = if pos < n && cs[pos] == '<' {
        pos
    } else {
        last_index_before(cs, '<', pos)
    };
    if n == 0 || start < 0 {
        None
    } else {
        let f = first_index_from(cs, '>', pos);
        let end = if f < 0 {
            n
        } else {
            f + 1
        };
        Some((start, end))
    }
}

/// `s` with each `:0` removed, the matches taken left to right without
/// overlap, as `str::replace(":0", "")` does.
pub open spec fn without_colon_zero(s: Seq<char>) -> Seq<char>
    decreases s.len(),
{
    if s.len() >= 2 && s[0] == ':' && s[1] == '0' {
        without_colon_zero(s.skip(2))
    } else if s.len() == 0 {
        s
    } else {
        seq![s[0]] + without_colon_zero(s.drop_first())
    }
}

/// The characters of `cs[lo..hi]` with each `:0` removed.
fn strip_colon_zero(cs: &Vec<char>, lo: usize, hi: usize) -> (r: String)
    requires
        lo <= hi <= cs.len(),
    ensures
        r@ == without_colon_zero(cs@.subrange(lo as int, hi as int)),
{
    let mut r = String::new();
    let mut i = lo;
    while i < hi
        invariant
            lo <= i <= hi <= cs.len(),
            without_colon_zero(cs@.subrange(lo as int, hi as int)) == r@ + without_colon_zero(
                cs@.subrange(i as int, hi as int),
            ),
        decreases hi - i,
    {
        let ghost rest = cs@.subrange(i as int, hi as int);
        if i + 1 < hi && cs[i] == ':' && cs[i + 1] == '0' {
            assert(rest.skip(2) =~= cs@.subrange(i + 2, hi as int));
            i = i + 2;
        } else {
            assert(rest.drop_first() =~= cs@.subrange(i + 1, hi as int));
            let ghost old_r = r@;
            r.push(cs[i]);
            assert(old_r + without_colon_zero(rest) =~= r@ + without_colon_zero(
                cs@.subrange(i + 1, hi as int),
            ));
            i = i + 1;
        }
    }
    assert(cs@.subrange(hi as int, hi as int) =~= Seq::<char>::empty());
    assert(r@ + Seq::<char>::empty() =~= r@);
    r
}

/// The bracket under the cursor at byte `col` of `line`, by [`hover_bracket`]:
/// its text with each `:0` removed, and the byte range it spans.
pub fn bracket_hover_range(line: &str, col: usize) -> (r: Option<(String, usize, usize)>)
    ensures
        match hover_bracket(line@, col as int) {
            None => r is None,
            Some((s, e)) => r matches Some((k, bs, be)) && k@ == without_colon_zero(
                line@.subrange(s, e),
            ) && bs == byte_offset(line@, s) && be == byte_offset(line@, e),
        },
{
    let total = line.as_bytes().len();
    let cs = chars_of(line);
    let n = cs.len();
    if n == 0 {
        return None;
    }
    let mut pos: usize = 0;
    let mut off: usize = 0;
    assert(cs@.take(0) =~= Seq::<char>::empty());
    while pos < n && off < col
        invariant
            pos <= n == cs.len(),
            total == encode_utf8(cs@).len(),
            off == byte_offset(cs@, pos as int),
            cursor_index_from(cs@, col as int, 0) == cursor_index_from(cs@, col as int, pos as int),
        decreases n - pos,
    {
        proof {
            lemma_byte_offset_step(cs@, pos as int);
        }
        off = off + utf8_width(cs[pos]);
        pos = pos + 1;
    }
    let start: usize;
    if pos < n && cs[pos] == '<' {
        start = pos;
    } else {
        let mut s = pos;
        while s > 0 && cs[s - 1] != '<'
            invariant
                s <= pos <= n == cs.len(),
                last_index_before(cs@, '<', pos as int) == last_index_before(cs@, '<', s as int),
            decreases s,
        {
            s = s - 1;
        }
        if s == 0 {
            return None;
        }
        start = s - 1;
    }
    let mut e = pos;
    while e < n && cs[e] != '>'
        invariant
            pos <= e <= n == cs.len(),
            first_index_from(cs@, '>', pos as int) == first_index_from(cs@, '>', e as int),
        decreases n - e,
    {
        e = e + 1;
    }
    let end = if e < n {
        e + 1
    } else {
        n
    };
    let key = strip_colon_zero(&cs, start, end);
    let start_byte = offset_of(&cs, start, total);
    let end_byte = offset_of(&cs, end, total);
    Some((key, start_byte, end_byte))
}

/// Law: the bytes a bracket word is made of are exactly the ASCII letters and
/// digits and `_`, `-`, `:`, `.`, `<`; no other byte (no other ASCII
/// punctuation such as `[`, `(`, `>` or a space, and no byte of a non-ASCII
/// character) belongs to a word.
pub proof fn law_word_bytes(b: u8)
    ensures
        word_byte(b) <==> (('0' as u8) <= b <= ('9' as u8) || ('A' as u8) <= b <= ('Z' as u8) || (
        'a' as u8) <= b <= ('z' as u8) || b == '_' as u8 || b == '-' as u8 || b == ':' as u8 || b
            == '.' as u8 || b == '<' as u8),
{
}

/// Law: the word around byte `col` is the longest run of word bytes
/// (see [`law_word_bytes`]) that reaches `col`: every byte of it is a word
/// byte, and the bytes just before and just after it are not.
pub proof fn law_word_is_maximal_run(bs: Seq<u8>, col: int)
    requires
        0 <= col <= bs.len(),
    ensures
        0 <= word_start(bs, col) <= col <= word_end(bs, col) <= bs.len(),
        forall|i: int| word_start(bs, col) <= i < word_end(bs, col) ==> word_byte(#[trigger] bs[i]),
        word_start(bs, col) == 0 || !word_byte(bs[word_start(bs, col) - 1]),
        word_end(bs, col) == bs.len() || !word_byte(bs[word_end(bs, col)]),
{
    lemma_word_start(bs, col);
    lemma_word_end(bs, col);
}

/// The run that ends at `col` starts at a non-word byte or the line's start.
proof fn lemma_word_start(bs: Seq<u8>, col: int)
    requires
        0 <= col <= bs.len(),
    ensures
        0 <= word_start(bs, col) <= col,
        forall|i: int| word_start(bs, col) <= i < col ==> word_byte(#[trigger] bs[i]),
        word_start(bs, col) == 0 || !word_byte(bs[word_start(bs, col) - 1]),
    decreases col,
{
    if col > 0 && word_byte(bs[col - 1]) {
        lemma_word_start(bs, col - 1);
    }
}

/// The run that starts at `col` ends at a non-word byte or the line's end.
proof fn lemma_word_end(bs: Seq<u8>, col: int)
    requires
        0 <= col <= bs.len(),
    ensures
        col <= word_end(bs, col) <= bs.len(),
        forall|i: int| col <= i < word_end(bs, col) ==> word_byte(#[trigger] bs[i]),
        word_end(bs, col) == bs.len() || !word_byte(bs[word_end(bs, col)]),
    decreases bs.len() - col,
{
    if col < bs.len() && word_byte(bs[col]) {
        lemma_word_end(bs, col + 1);
    }
}

/// The cursor's character is the first one that starts at or after byte `col`.
proof fn lemma_cursor_index(cs: Seq<char>, col: int, i: int)
    requires
        0 <= i <= cs.len(),
    ensures
        i <= cursor_index_from(cs, col, i) <= cs.len(),
        forall|j: int| i <= j < cursor_index_from(cs, col, i) ==> byte_offset(cs, j) < col,
        cursor_index_from(cs, col, i) < cs.len() ==> byte_offset(cs, cursor_index_from(cs, col, i)) >= col,
    decreases cs.len() - i,
{
    if i < cs.len() && byte_offset(cs, i) < col {
        lemma_cursor_index(cs, col, i + 1);
    }
}

/// The search back for `c` finds its last occurrence below `upto`.
proof fn lemma_last_index_before(cs: Seq<char>, c: char, upto: int)
    requires
        upto <= cs.len(),
    ensures
        -1 <= last_index_before(cs, c, upto) < upto || (upto <= 0 && last_index_before(cs, c, upto) == -1),
        last_index_before(cs, c, upto) >= 0 ==> cs[last_index_before(cs, c, upto)] == c,
        forall|j: int| last_index_before(cs, c, upto) < j < upto && 0 <= j ==> cs[j] != c,
    decreases upto,
{
    if upto > 0 && cs[upto - 1] != c {
        lemma_last_index_before(cs, c, upto - 1);
    }
}

/// The search forward for `c` finds its first occurrence at or after `from`.
proof fn lemma_first_index_from(cs: Seq<char>, c: char, from: int)
    requires
        0 <= from,
    ensures
        first_index_from(cs, c, from) == -1 || from <= first_index_from(cs, c, from) < cs.len(),
        first_index_from(cs, c, from) >= 0 ==> cs[first_index_from(cs, c, from)] == c,
        forall|j: int|
            from <= j < cs.len() && (first_index_from(cs, c, from) < 0 || j < first_index_from(cs, c, from))
                ==> cs[j] != c,
    decreases cs.len() - from,
{
    if from < cs.len() && cs[from] != c {
        lemma_first_index_from(cs, c, from + 1);
    }
}

/// Law: the bracket a hover reads. Let `p` be the cursor's character, the
/// first one that starts at or after byte `col` (or the line's length).
/// There is a bracket exactly when the line holds a `<` at or before `p`;
/// it starts at the last such `<`, and ends just past the first `>` at or
/// after `p`, or at the end of the line where there is none: no `>` lies in
/// it from `p` on before its last character.
pub proof fn law_hover_bracket_range(cs: Seq<char>, col: int)
    ensures
        ({
            let n = cs.len() as int;
            let p = cursor_index_from(cs, col, 0);
            &&& 0 <= p <= n
            &&& forall|j: int| 0 <= j < p ==> byte_offset(cs, j) < col
            &&& p < n ==> byte_offset(cs, p) >= col
            &&& hover_bracket(cs, col) is None <==> forall|j: int| 0 <= j <= p && j < n ==> cs[j] != '<'
            &&& hover_bracket(cs, col) matches Some((s, e)) ==> {
                &&& 0 <= s <= p && s < n && cs[s] == '<'
                &&& forall|j: int| s < j <= p && j < n ==> cs[j] != '<'
                &&& s < e <= n
                &&& forall|j: int| p <= j < e - 1 ==> cs[j] != '>'
                &&& e < n ==> p <= e - 1 && cs[e - 1] == '>'
            }
        }),
{
    let n = cs.len() as int;
    lemma_cursor_index(cs, col, 0);
    let p = cursor_index_from(cs, col, 0);
    lemma_last_index_before(cs, '<', p);
    lemma_first_index_from(cs, '>', p);
}

} // verus!

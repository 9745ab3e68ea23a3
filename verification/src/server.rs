//! The language server's state and the answers it computes: the settings,
//! the open documents, the known entries, and what a completion or hover
//! request, a reload, or a document notification does to them.

use vstd::prelude::*;
use vstd::utf8::encode_utf8;

use crate::parse::{
    ct_log_dump, law_merge_adds_listed_lines, merge_additional, merge_lines, parse_ct_log,
    parse_entry,
};
use crate::string_map::{keys_sorted, seq_lt, StringMap};
use crate::text::{
    chars_of, contains_in, contains_pat, line_spans, lines, matches_at, push_str, starts_with_chars,
    string_from, trim_start,
};
use crate::words::{
    ascii_chars, bracket_hover_range, bracket_word_range, byte_offset, hover_bracket,
    loose_word_range, without_colon_zero, word_end, word_start,
};

verus! {

/// User-configurable settings, sent as the LSP `initializationOptions`.
#[derive(Debug, Clone)]
pub struct Settings {
    pub ct_log_path: Option<String>,
    pub additional_path: Option<String>,
    pub always_reload: bool,
    pub only_complete_brackets: bool,
    pub completion_suggest_all_items: bool,
    pub completion_suggest_with_start: bool,
}

impl Default for Settings {
    /// No log path, no additional list, no reload on each request, completions
    /// only for brackets, and the substring match.
    fn default() -> (s: Settings)
        ensures
            s.ct_log_path is None,
            s.additional_path is None,
            !s.always_reload,
            s.only_complete_brackets,
            !s.completion_suggest_all_items,
            !s.completion_suggest_with_start,
    {
        Settings {
            ct_log_path: None,
            additional_path: None,
            always_reload: false,
            only_complete_brackets: true,
            completion_suggest_all_items: false,
            completion_suggest_with_start: false,
        }
    }
}

/// The most completion items one request answers with.
pub const COMPLETION_LIMIT: usize = 200;

/// `s` without its leading `<` characters, as `trim_start_matches('<')` does.
pub open spec fn trim_leading_lt(s: Seq<char>) -> Seq<char>
    decreases s.len(),
{
    if s.len() > 0 && s[0] == '<' {
        trim_leading_lt(s.drop_first())
    } else {
        s
    }
}

/// Whether the word `w` is a bracket being typed: it starts with `<` and
/// holds a `:`, as in `<item:`.
pub open spec fn is_bracket_word(w: Seq<char>) -> bool {
    w.len() > 0 && w[0] == '<' && contains_pat(w, seq![':'])
}

/// What a completion at byte `col` of line `text` matches against, and the
/// byte range it replaces: the word around the cursor. When completions are
/// tied to brackets, only a bracket word (see [`is_bracket_word`]) is
/// completed, and it is matched without its leading `<` characters.
pub open spec fn completion_target(only_brackets: bool, text: Seq<char>, col: int) -> Option<
    (Seq<char>, int, int),
> {
    let bs = encode_utf8(text);
    let s = word_start(bs, col);
    let e = word_end(bs, col);
    let w = ascii_chars(bs.subrange(s, e));
    if s == e {
        None
    } else if only_brackets {
        if is_bracket_word(w) {
            Some((trim_leading_lt(w), s, e))
        } else {
            None
        }
    } else {
        Some((w, s, e))
    }
}

/// Whether an entry with key `key` is offered for `needle`: always when all
/// items are suggested; in the stricter mode when the key starts with the
/// needle, the key taken without its leading `<` characters when completions
/// are tied to brackets (there the needle has lost them too); and otherwise
/// when the key contains the needle.
pub open spec fn suggests(
    all: bool,
    with_start: bool,
    brackets: bool,
    key: Seq<char>,
    needle: Seq<char>,
) -> bool {
    if all {
        true
    } else if with_start {
        if brackets {
            matches_at(trim_leading_lt(key), needle, 0)
        } else {
            matches_at(key, needle, 0)
        }
    } else {
        contains_pat(key, needle)
    }
}

/// The entries of `ps` that are offered for `needle`, in order.
pub open spec fn matching_entries(
    ps: Seq<(Seq<char>, Seq<char>)>,
    all: bool,
    with_start: bool,
    brackets: bool,
    needle: Seq<char>,
) -> Seq<(Seq<char>, Seq<char>)>
    decreases ps.len(),
{
    if ps.len() == 0 {
        Seq::empty()
    } else {
        let prev = matching_entries(ps.drop_last(), all, with_start, brackets, needle);
        if suggests(all, with_start, brackets, ps.last().0, needle) {
            prev.push(ps.last())
        } else {
            prev
        }
    }
}

/// The first [`COMPLETION_LIMIT`] elements of `s`, or all of them.
pub open spec fn limited<T>(s: Seq<T>) -> Seq<T> {
    if s.len() <= COMPLETION_LIMIT {
        s
    } else {
        s.take(COMPLETION_LIMIT as int)
    }
}

/// The entries answered: all of `m` when every item is suggested, else at
/// most [`COMPLETION_LIMIT`] of them.
pub open spec fn capped<T>(all: bool, m: Seq<T>) -> Seq<T> {
    if all {
        m
    } else {
        limited(m)
    }
}

/// One completion item: the entry offered, and the byte range on the
/// cursor's line that it replaces.
#[derive(Debug, Clone)]
pub struct CompletionEntry {
    pub label: String,
    pub detail: String,
    pub line: u32,
    pub start: usize,
    pub end: usize,
}

/// Completion items by label, detail and replaced range.
pub open spec fn completion_view(r: Seq<CompletionEntry>) -> Seq<(Seq<char>, Seq<char>, int, int)> {
    r.map_values(|c: CompletionEntry| (c.label@, c.detail@, c.start as int, c.end as int))
}

/// Entries with the replaced range `s..e` attached.
pub open spec fn with_range(m: Seq<(Seq<char>, Seq<char>)>, s: int, e: int) -> Seq<
    (Seq<char>, Seq<char>, int, int),
> {
    m.map_values(|p: (Seq<char>, Seq<char>)| (p.0, p.1, s, e))
}

/// The answer to a hover: the bracket's key, its entry, the reply's markdown
/// text, and the byte range of the bracket.
#[derive(Debug, Clone)]
pub struct HoverEntry {
    pub key: String,
    pub value: String,
    pub markdown: String,
    pub start: usize,
    pub end: usize,
}

/// The markdown text of a hover reply: the key in a code block, then its info.
pub open spec fn hover_markdown(key: Seq<char>, value: Seq<char>) -> Seq<char> {
    "```\n"@ + key + "\n```\n\n"@ + value
}

/// The entries after a reload: the dump of the log, or none, with the
/// additional list, if one was read, merged in.
pub open spec fn reloaded_items(log: Seq<char>, additional: Option<Seq<char>>) -> Map<
    Seq<char>,
    Seq<char>,
> {
    let base = match ct_log_dump(log) {
        Some(m) => m,
        None => Map::empty(),
    };
    match additional {
        Some(a) => merge_lines(base, lines(a)),
        None => base,
    }
}

/// The view of an optional text.
pub open spec fn opt_view(a: Option<&str>) -> Option<Seq<char>> {
    match a {
        Some(s) => Some(s@),
        None => None,
    }
}

/// Line `n` of `doc`, by [`lines`], where there is one.
pub fn nth_line(doc: &str, n: usize) -> (r: Option<String>)
    ensures
        match r {
            Some(t) => n < lines(doc@).len() && t@ == lines(doc@)[n as int],
            None => n >= lines(doc@).len(),
        },
{
    let cs = chars_of(doc);
    let spans = line_spans(&cs);
    if n < spans.len() {
        let (a, b) = spans[n];
        assert(spans@[n as int].0 <= spans@[n as int].1 <= cs.len());
        Some(string_from(&cs, a, b))
    } else {
        None
    }
}

/// `cs` without its leading `<` characters.
fn strip_lt_chars(cs: &Vec<char>) -> (r: Vec<char>)
    ensures
        r@ == trim_leading_lt(cs@),
{
    let mut i: usize = 0;
    assert(cs@.skip(0) =~= cs@);
    while i < cs.len() && cs[i] == '<'
        invariant
            i <= cs.len(),
            trim_leading_lt(cs@) == trim_leading_lt(cs@.skip(i as int)),
        decreases cs.len() - i,
    {
        assert(cs@.skip(i as int).drop_first() =~= cs@.skip(i + 1));
        i = i + 1;
    }
    let mut r: Vec<char> = Vec::new();
    let mut j = i;
    while j < cs.len()
        invariant
            i <= j <= cs.len(),
            r@ == cs@.subrange(i as int, j as int),
        decreases cs.len() - j,
    {
        r.push(cs[j]);
        assert(cs@.subrange(i as int, j + 1) =~= cs@.subrange(i as int, j as int).push(cs@[j as int]));
        j = j + 1;
    }
    assert(cs@.subrange(i as int, cs.len() as int) =~= cs@.skip(i as int));
    r
}

/// Whether `w` is a bracket word, by [`is_bracket_word`].
fn is_bracket_chars(w: &Vec<char>) -> (r: bool)
    ensures
        r == is_bracket_word(w@),
{
    if w.len() == 0 || w[0] != '<' {
        return false;
    }
    let colon = vec![':'];
    assert(colon@ =~= seq![':']);
    let r = contains_in(w, 0, w.len(), &colon);
    assert(w@.subrange(0, w@.len() as int) =~= w@);
    r
}

/// Shared, mutable state of the language server.
pub struct State {
    pub settings: Settings,
    /// Known entries: `<entry>` to its info.
    pub items: StringMap,
    /// Latest full text of each open document, by URI.
    pub documents: StringMap,
    /// When the entries were last loaded, in milliseconds since the epoch.
    pub last_load_ms: i64,
}

impl State {
    /// The state's invariant: both maps keep their keys in order.
    pub open spec fn wf(&self) -> bool {
        self.items.wf() && self.documents.wf()
    }

    /// Line `line` of the open document `uri`, where both exist.
    pub open spec fn line_text(&self, uri: Seq<char>, line: int) -> Option<Seq<char>> {
        if self.documents@.contains_key(uri) && 0 <= line < lines(self.documents@[uri]).len() {
            Some(lines(self.documents@[uri])[line])
        } else {
            None
        }
    }

    /// Whether the cursor column lies within its line, where the line exists.
    pub open spec fn cursor_in_line(&self, uri: Seq<char>, line: int, character: int) -> bool {
        self.line_text(uri, line) matches Some(t) ==> character <= encode_utf8(t).len()
    }

    /// The completion items for the cursor at (`line`, `character`) of `uri`.
    pub open spec fn completions_spec(&self, uri: Seq<char>, line: int, character: int) -> Seq<
        (Seq<char>, Seq<char>, int, int),
    > {
        match self.line_text(uri, line) {
            None => Seq::empty(),
            Some(t) => match completion_target(self.settings.only_complete_brackets, t, character) {
                None => Seq::empty(),
                Some((needle, s, e)) => with_range(
                    capped(
                        self.settings.completion_suggest_all_items,
                        matching_entries(
                            self.items.pairs(),
                            self.settings.completion_suggest_all_items,
                            self.settings.completion_suggest_with_start,
                            self.settings.only_complete_brackets,
                            needle,
                        ),
                    ),
                    s,
                    e,
                ),
            },
        }
    }

    /// The hover answer for the cursor at (`line`, `character`) of `uri`:
    /// key, info, and byte range.
    pub open spec fn hover_spec(&self, uri: Seq<char>, line: int, character: int) -> Option<
        (Seq<char>, Seq<char>, int, int),
    > {
        match self.line_text(uri, line) {
            None => None,
            Some(t) => match hover_bracket(t, character) {
                None => None,
                Some((s, e)) => {
                    let key = without_colon_zero(t.subrange(s, e));
                    if self.items@.contains_key(key) {
                        Some((key, self.items@[key], byte_offset(t, s), byte_offset(t, e)))
                    } else {
                        None
                    }
                },
            },
        }
    }

    /// A fresh state: no entries, no documents, never loaded.
    pub fn new(settings: Settings) -> (s: State)
        ensures
            s.wf(),
            s.settings == settings,
            s.items@ == Map::<Seq<char>, Seq<char>>::empty(),
            s.documents@ == Map::<Seq<char>, Seq<char>>::empty(),
            s.last_load_ms == 0,
    {
        State { settings, items: StringMap::new(), documents: StringMap::new(), last_load_ms: 0 }
    }

    /// Whether the entries are read again before each completion or hover.
    pub fn reloads_on_request(&self) -> (r: bool)
        ensures
            r == self.settings.always_reload,
    {
        self.settings.always_reload
    }

    /// Replaces the entries with those of the log `log`, merges in the
    /// additional list if one was read, and records the load time.
    pub fn apply_reload(&mut self, log: &str, additional: Option<&str>, now_ms: i64)
        requires
            old(self).wf(),
        ensures
            final(self).wf(),
            final(self).items@ == reloaded_items(log@, opt_view(additional)),
            final(self).documents == old(self).documents,
            final(self).settings == old(self).settings,
            final(self).last_load_ms == now_ms,
    {
        let mut items = match parse_ct_log(log) {
            Some(m) => m,
            None => StringMap::new(),
        };
        match additional {
            Some(a) => merge_additional(&mut items, a),
            None => {},
        }
        self.items = items;
        self.last_load_ms = now_ms;
    }

    /// Whether the entry with key `key` is offered for `needle` under the
    /// settings.
    fn offers(&self, key: &String, needle: &Vec<char>) -> (r: bool)
        ensures
            r == suggests(
                self.settings.completion_suggest_all_items,
                self.settings.completion_suggest_with_start,
                self.settings.only_complete_brackets,
                key@,
                needle@,
            ),
    {
        if self.settings.completion_suggest_all_items {
            return true;
        }
        let k = chars_of(key.as_str());
        if self.settings.completion_suggest_with_start {
            if self.settings.only_complete_brackets {
                let k_lt = strip_lt_chars(&k);
                starts_with_chars(&k_lt, needle)
            } else {
                starts_with_chars(&k, needle)
            }
        } else {
            let r = contains_in(&k, 0, k.len(), needle);
            assert(k@.subrange(0, k@.len() as int) =~= k@);
            r
        }
    }

    /// `textDocument/completion` at (`line`, `character`) of `uri`: the
    /// entries offered for the word under the cursor, in ascending key
    /// order; at most [`COMPLETION_LIMIT`] of them unless every item is
    /// suggested.
    pub fn completions(&self, uri: &str, line: u32, character: u32) -> (r: Vec<CompletionEntry>)
        requires
            self.wf(),
            self.cursor_in_line(uri@, line as int, character as int),
        ensures
            completion_view(r@) == self.completions_spec(uri@, line as int, character as int),
            !self.settings.completion_suggest_all_items ==> r.len() <= COMPLETION_LIMIT,
            forall|i: int| 0 <= i < r.len() ==> (#[trigger] r@[i]).line == line,
    {
        let doc = match self.documents.get(uri) {
            Some(d) => d,
            None => return Vec::new(),
        };
        let text = match nth_line(doc.as_str(), line as usize) {
            Some(t) => t,
            None => return Vec::new(),
        };
        let col = character as usize;
        let found = if self.settings.only_complete_brackets {
            bracket_word_range(text.as_str(), col)
        } else {
            loose_word_range(text.as_str(), col)
        };
        let (word, start, end) = match found {
            Some(f) => f,
            None => return Vec::new(),
        };
        let word_chars = chars_of(word.as_str());
        let needle = if self.settings.only_complete_brackets {
            if !is_bracket_chars(&word_chars) {
                return Vec::new();
            }
            strip_lt_chars(&word_chars)
        } else {
            word_chars
        };
        let all = self.settings.completion_suggest_all_items;
        let ghost with_start = self.settings.completion_suggest_with_start;
        let ghost brackets = self.settings.only_complete_brackets;
        let ghost ps = self.items.pairs();
        let mut out: Vec<CompletionEntry> = Vec::new();
        let mut i: usize = 0;
        assert(ps.take(0) =~= Seq::<(Seq<char>, Seq<char>)>::empty());
        assert(completion_view(out@) =~= with_range(
            capped(all, matching_entries(ps.take(0), all, with_start, brackets, needle@)),
            start as int,
            end as int,
        ));
        while i < self.items.len()
            invariant
                i <= ps.len(),
                ps == self.items.pairs(),
                all == self.settings.completion_suggest_all_items,
                with_start == self.settings.completion_suggest_with_start,
                brackets == self.settings.only_complete_brackets,
                out.len() == capped(all, matching_entries(ps.take(i as int), all, with_start, brackets, needle@)).len(),
                !all ==> out.len() <= COMPLETION_LIMIT,
                completion_view(out@) == with_range(
                    capped(all, matching_entries(ps.take(i as int), all, with_start, brackets, needle@)),
                    start as int,
                    end as int,
                ),
                forall|j: int| 0 <= j < out.len() ==> (#[trigger] out@[j]).line == line,
            decreases ps.len() - i,
        {
            let ghost m = matching_entries(ps.take(i as int), all, with_start, brackets, needle@);
            assert(ps.take(i + 1).drop_last() =~= ps.take(i as int));
            assert(ps.take(i + 1).last() == ps[i as int]);
            if all || out.len() < COMPLETION_LIMIT {
                let key = self.items.key_at(i);
                if self.offers(key, &needle) {
                    let ghost old_out = out@;
                    let entry = CompletionEntry {
                        label: key.clone(),
                        detail: self.items.value_at(i).clone(),
                        line,
                        start,
                        end,
                    };
                    out.push(entry);
                    assert(capped(all, m.push(ps[i as int])) =~= capped(all, m).push(ps[i as int]));
                    assert(completion_view(out@) =~= completion_view(old_out).push(
                        (ps[i as int].0, ps[i as int].1, start as int, end as int),
                    ));
                    assert(with_range(capped(all, m).push(ps[i as int]), start as int, end as int)
                        =~= with_range(capped(all, m), start as int, end as int).push(
                        (ps[i as int].0, ps[i as int].1, start as int, end as int),
                    ));
                }
            } else {
                assert(capped(all, m.push(ps[i as int])) =~= capped(all, m));
            }
            i = i + 1;
        }
        assert(ps.take(i as int) =~= ps);
        out
    }

    /// `textDocument/hover` at (`line`, `character`) of `uri`: the entry of
    /// the bracket under the cursor, where it is known.
    pub fn hover(&self, uri: &str, line: u32, character: u32) -> (r: Option<HoverEntry>)
        requires
            self.wf(),
        ensures
            match self.hover_spec(uri@, line as int, character as int) {
                None => r is None,
                Some((k, v, s, e)) => r matches Some(h) && h.key@ == k && h.value@ == v
                    && h.markdown@ == hover_markdown(k, v) && h.start == s && h.end == e,
            },
    {
        let doc = match self.documents.get(uri) {
            Some(d) => d,
            None => return None,
        };
        let text = match nth_line(doc.as_str(), line as usize) {
            Some(t) => t,
            None => return None,
        };
        let (key, start, end) = match bracket_hover_range(text.as_str(), character as usize) {
            Some(found) => found,
            None => return None,
        };
        let value = match self.items.get(key.as_str()) {
            Some(v) => v,
            None => return None,
        };
        let mut markdown = String::new();
        push_str(&mut markdown, "```\n");
        push_str(&mut markdown, key.as_str());
        push_str(&mut markdown, "\n```\n\n");
        push_str(&mut markdown, value.as_str());
        Some(HoverEntry { key, value: value.clone(), markdown, start, end })
    }

    /// `textDocument/didOpen`: remembers the document's text.
    pub fn did_open(&mut self, uri: String, text: String)
        requires
            old(self).wf(),
        ensures
            final(self).wf(),
            final(self).documents@ == old(self).documents@.insert(uri@, text@),
            final(self).items == old(self).items,
            final(self).settings == old(self).settings,
            final(self).last_load_ms == old(self).last_load_ms,
    {
        self.documents.insert(uri, text);
    }

    /// `textDocument/didChange` with full sync: the last change holds the
    /// whole new text.
    pub fn did_change(&mut self, uri: String, changes: Vec<String>)
        requires
            old(self).wf(),
        ensures
            final(self).wf(),
            changes.len() > 0 ==> final(self).documents@ == old(self).documents@.insert(
                uri@,
                changes@.last()@,
            ),
            changes.len() == 0 ==> final(self).documents@ == old(self).documents@,
            final(self).items == old(self).items,
            final(self).settings == old(self).settings,
            final(self).last_load_ms == old(self).last_load_ms,
    {
        if changes.len() > 0 {
            let text = changes[changes.len() - 1].clone();
            self.documents.insert(uri, text);
        }
    }

    /// `textDocument/didClose`: forgets the document.
    pub fn did_close(&mut self, uri: &str)
        requires
            old(self).wf(),
        ensures
            final(self).wf(),
            final(self).documents@ == old(self).documents@.remove(uri@),
            final(self).items == old(self).items,
            final(self).settings == old(self).settings,
            final(self).last_load_ms == old(self).last_load_ms,
    {
        self.documents.remove(uri);
    }
}


/// Every entry offered is offered for the needle and is an entry of `ps`.
pub proof fn lemma_matching_entries(
    ps: Seq<(Seq<char>, Seq<char>)>,
    all: bool,
    with_start: bool,
    brackets: bool,
    needle: Seq<char>,
)
    ensures
        matching_entries(ps, all, with_start, brackets, needle).len() <= ps.len(),
        forall|i: int|
            0 <= i < matching_entries(ps, all, with_start, brackets, needle).len() ==> suggests(
                all,
                with_start,
                brackets,
                (#[trigger] matching_entries(ps, all, with_start, brackets, needle)[i]).0,
                needle,
            ) && ps.contains(matching_entries(ps, all, with_start, brackets, needle)[i]),
        keys_sorted(ps) ==> keys_sorted(matching_entries(ps, all, with_start, brackets, needle)),
    decreases ps.len(),
{
    if ps.len() > 0 {
        let q = ps.drop_last();
        let prev = matching_entries(q, all, with_start, brackets, needle);
        lemma_matching_entries(q, all, with_start, brackets, needle);
        let m = matching_entries(ps, all, with_start, brackets, needle);
        assert forall|i: int| 0 <= i < m.len() implies suggests(all, with_start, brackets, (#[trigger] m[i]).0, needle)
            && ps.contains(m[i]) by {
            if i < prev.len() {
                assert(m[i] == prev[i]);
                let k = choose|k: int| 0 <= k < q.len() && q[k] == prev[i];
                assert(ps[k] == q[k]);
            } else {
                assert(ps[ps.len() - 1] == ps.last());
            }
        }
        if keys_sorted(ps) {
            assert(keys_sorted(q)) by {
                assert forall|i: int, j: int| 0 <= i < j < q.len() implies seq_lt(
                    #[trigger] q[i].0,
                    #[trigger] q[j].0,
                ) by {
                    assert(q[i] == ps[i] && q[j] == ps[j]);
                }
            }
            assert forall|i: int, j: int| 0 <= i < j < m.len() implies seq_lt(
                #[trigger] m[i].0,
                #[trigger] m[j].0,
            ) by {
                if j < prev.len() {
                    assert(m[i] == prev[i] && m[j] == prev[j]);
                } else {
                    assert(m[i] == prev[i]);
                    let k = choose|k: int| 0 <= k < q.len() && q[k] == prev[i];
                    assert(ps[k] == q[k]);
                    assert(seq_lt(ps[k].0, ps[ps.len() - 1].0));
                }
            }
        }
    }
}

/// With every item suggested, every entry is offered.
pub proof fn lemma_matching_all(
    ps: Seq<(Seq<char>, Seq<char>)>,
    with_start: bool,
    brackets: bool,
    needle: Seq<char>,
)
    ensures
        matching_entries(ps, true, with_start, brackets, needle) == ps,
    decreases ps.len(),
{
    if ps.len() > 0 {
        lemma_matching_all(ps.drop_last(), with_start, brackets, needle);
        assert(ps.drop_last().push(ps.last()) =~= ps);
    }
}

/// Law: a completion answer is offered only for a word under the cursor
/// (only for a bracket word when completions are tied to brackets); each
/// item is a known entry that is offered for that word, with the word's
/// range; the items come in strictly ascending key order; with every item
/// suggested they are all the entries, and otherwise at most
/// [`COMPLETION_LIMIT`] of them.
pub proof fn law_completions_offered_in_order(state: State, uri: Seq<char>, line: int, character: int)
    requires
        state.wf(),
    ensures
        ({
            let r = state.completions_spec(uri, line, character);
            &&& !state.settings.completion_suggest_all_items ==> r.len() <= COMPLETION_LIMIT
            &&& forall|i: int, j: int| 0 <= i < j < r.len() ==> seq_lt(#[trigger] r[i].0, #[trigger] r[j].0)
            &&& forall|i: int|
                0 <= i < r.len() ==> state.items@.contains_key((#[trigger] r[i]).0) && state.items@[r[i].0]
                    == r[i].1
            &&& r.len() > 0 ==> state.line_text(uri, line) is Some
            &&& state.line_text(uri, line) matches Some(t) ==> (completion_target(
                state.settings.only_complete_brackets,
                t,
                character,
            ) matches Some((needle, s, e)) ==> {
                &&& forall|i: int|
                    0 <= i < r.len() ==> suggests(
                        state.settings.completion_suggest_all_items,
                        state.settings.completion_suggest_with_start,
                        state.settings.only_complete_brackets,
                        (#[trigger] r[i]).0,
                        needle,
                    ) && r[i].2 == s && r[i].3 == e
                &&& state.settings.completion_suggest_all_items ==> r.len() == state.items.pairs().len()
                    && forall|i: int| 0 <= i < r.len() ==> (#[trigger] r[i]).0 == state.items.pairs()[i].0
            })
            &&& state.line_text(uri, line) matches Some(t) ==> (completion_target(
                state.settings.only_complete_brackets,
                t,
                character,
            ) is None ==> r.len() == 0)
        }),
{
    let r = state.completions_spec(uri, line, character);
    let ps = state.items.pairs();
    crate::string_map::lemma_pairs_map(ps);
    if let Some(t) = state.line_text(uri, line) {
        if let Some((needle, s, e)) = completion_target(state.settings.only_complete_brackets, t, character) {
            let all = state.settings.completion_suggest_all_items;
            let with_start = state.settings.completion_suggest_with_start;
            let brackets = state.settings.only_complete_brackets;
            let m = matching_entries(ps, all, with_start, brackets, needle);
            lemma_matching_entries(ps, all, with_start, brackets, needle);
            if all {
                lemma_matching_all(ps, with_start, brackets, needle);
            }
            let lm = capped(all, m);
            assert forall|i: int| 0 <= i < lm.len() implies #[trigger] lm[i] == m[i] by {}
            assert forall|i: int| 0 <= i < r.len() implies state.items@.contains_key((#[trigger] r[i]).0)
                && state.items@[r[i].0] == r[i].1 by {
                assert(r[i].0 == m[i].0 && r[i].1 == m[i].1);
                let k = choose|k: int| 0 <= k < ps.len() && ps[k] == m[i];
                assert(state.items@.contains_key(ps[k].0));
            }
            assert forall|i: int, j: int| 0 <= i < j < r.len() implies seq_lt(
                #[trigger] r[i].0,
                #[trigger] r[j].0,
            ) by {
                assert(r[i].0 == m[i].0 && r[j].0 == m[j].0);
            }
        }
    }
}

/// Law: what a document notification writes, a later read gives back: after
/// `didOpen`, the document's lines are those of the text opened.
pub proof fn law_open_then_read(before: State, after: State, uri: Seq<char>, text: Seq<char>, line: int)
    requires
        after.documents@ == before.documents@.insert(uri, text),
    ensures
        after.line_text(uri, line) == (if 0 <= line < lines(text).len() {
            Some(lines(text)[line])
        } else {
            None
        }),
{
}

/// Law: after `didClose`, no completion or hover is answered for the document.
pub proof fn law_closed_document_answers_nothing(
    before: State,
    after: State,
    uri: Seq<char>,
    line: int,
    character: int,
)
    requires
        after.documents@ == before.documents@.remove(uri),
    ensures
        after.completions_spec(uri, line, character).len() == 0,
        after.hover_spec(uri, line, character) is None,
{
}

/// Law: a reload keeps the additional list whether or not the log holds a
/// dump block. Every line of the list that starts with `<` once leading
/// whitespace is skipped and splits at ` = ` gives an entry after the
/// reload; without a dump block those are all the entries, and with one the
/// dump's entries stay as they were read.
pub proof fn law_reload_keeps_additional(log: Seq<char>, additional: Seq<char>, k: Seq<char>)
    ensures
        forall|t: int|
            0 <= t < lines(additional).len() && trim_start(#[trigger] lines(additional)[t]).len() > 0
                && trim_start(lines(additional)[t])[0] == '<' && parse_entry(lines(additional)[t])
                is Some ==> reloaded_items(log, Some(additional)).contains_key(
                (parse_entry(lines(additional)[t])->0).0,
            ),
        ct_log_dump(log) is None ==> (reloaded_items(log, Some(additional)).contains_key(k) <==> exists|t: int|
            0 <= t < lines(additional).len() && trim_start(#[trigger] lines(additional)[t]).len() > 0
                && trim_start(lines(additional)[t])[0] == '<' && parse_entry(lines(additional)[t]) is Some
                && (parse_entry(lines(additional)[t])->0).0 == k),
        ct_log_dump(log) matches Some(m) ==> (m.contains_key(k) ==> reloaded_items(
            log,
            Some(additional),
        ).contains_key(k) && reloaded_items(log, Some(additional))[k] == m[k]),
        ct_log_dump(log) is None ==> reloaded_items(log, None) == Map::<Seq<char>, Seq<char>>::empty(),
        ct_log_dump(log) matches Some(m) ==> reloaded_items(log, None) == m,
{
    let base = match ct_log_dump(log) {
        Some(m) => m,
        None => Map::<Seq<char>, Seq<char>>::empty(),
    };
    let ls = lines(additional);
    law_merge_adds_listed_lines(base, ls, k);
    assert forall|t: int|
        0 <= t < ls.len() && trim_start(#[trigger] ls[t]).len() > 0 && trim_start(ls[t])[0] == '<'
            && parse_entry(ls[t]) is Some implies reloaded_items(log, Some(additional)).contains_key(
        (parse_entry(ls[t])->0).0,
    ) by {
        law_merge_adds_listed_lines(base, ls, (parse_entry(ls[t])->0).0);
    }
}

/// Dropping the leading `<` characters of `s` leaves `s[n..]`, where `n`
/// counts them.
proof fn lemma_trim_leading_lt(s: Seq<char>, n: int)
    requires
        0 <= n <= s.len(),
        forall|j: int| 0 <= j < n ==> s[j] == '<',
        n == s.len() || s[n] != '<',
    ensures
        trim_leading_lt(s) == s.skip(n),
    decreases n,
{
    if n == 0 {
        assert(s.skip(0) =~= s);
    } else {
        assert(s[0] == '<');
        let t = s.drop_first();
        assert forall|j: int| 0 <= j < n - 1 implies t[j] == '<' by {
            assert(t[j] == s[j + 1]);
        }
        if n < s.len() {
            assert(t[n - 1] == s[n]);
        }
        lemma_trim_leading_lt(t, n - 1);
        assert(t.skip(n - 1) =~= s.skip(n));
    }
}

/// Law: which entries a completion offers for the typed needle. With every
/// item suggested, all of them. Otherwise, by default, exactly those whose
/// key contains the needle somewhere, whether or not completions are tied to
/// brackets. In the stricter mode without brackets, exactly those whose key
/// starts with the needle (with brackets, see
/// [`law_prefix_rule_for_brackets`]).
pub proof fn law_offer_rule(
    all: bool,
    with_start: bool,
    brackets: bool,
    key: Seq<char>,
    needle: Seq<char>,
)
    ensures
        all ==> suggests(all, with_start, brackets, key, needle),
        !all && !with_start ==> (suggests(all, with_start, brackets, key, needle) <==> exists|i: int|
            0 <= i && i + needle.len() <= key.len() && #[trigger] key.subrange(i, i + needle.len())
                == needle),
        !all && with_start && !brackets ==> (suggests(all, with_start, brackets, key, needle) <==> (
        needle.len() <= key.len() && key.take(needle.len() as int) == needle)),
{
    if !all && !with_start {
        if suggests(all, with_start, brackets, key, needle) {
            let i = choose|i: int| matches_at(key, needle, i);
            assert(key.subrange(i, i + needle.len()) == needle);
        }
        if exists|i: int|
            0 <= i && i + needle.len() <= key.len() && #[trigger] key.subrange(i, i + needle.len())
                == needle {
            let i = choose|i: int|
                0 <= i && i + needle.len() <= key.len() && #[trigger] key.subrange(i, i + needle.len())
                    == needle;
            assert(matches_at(key, needle, i));
        }
    }
    if !all && with_start && !brackets && needle.len() <= key.len() {
        assert(key.subrange(0, needle.len() as int) =~= key.take(needle.len() as int));
    }
}

/// Law: in the stricter mode with completions tied to brackets, an entry is
/// offered exactly when its key, past its `n` leading `<` characters,
/// starts with the needle.
pub proof fn law_prefix_rule_for_brackets(key: Seq<char>, needle: Seq<char>, n: int)
    requires
        0 <= n <= key.len(),
        forall|j: int| 0 <= j < n ==> key[j] == '<',
        n == key.len() || key[n] != '<',
    ensures
        suggests(false, true, true, key, needle) <==> (n + needle.len() <= key.len() && key.subrange(
            n,
            n + needle.len(),
        ) == needle),
{
    lemma_trim_leading_lt(key, n);
    let t = key.skip(n);
    if n + needle.len() <= key.len() {
        assert(t.subrange(0, needle.len() as int) =~= key.subrange(n, n + needle.len()));
    }
}

/// Every entry of `ps` that is offered for the needle is among those offered.
proof fn lemma_matching_has(
    ps: Seq<(Seq<char>, Seq<char>)>,
    all: bool,
    with_start: bool,
    brackets: bool,
    needle: Seq<char>,
    j: int,
)
    requires
        0 <= j < ps.len(),
        suggests(all, with_start, brackets, ps[j].0, needle),
    ensures
        matching_entries(ps, all, with_start, brackets, needle).contains(ps[j]),
    decreases ps.len(),
{
    let m = matching_entries(ps, all, with_start, brackets, needle);
    let q = ps.drop_last();
    let prev = matching_entries(q, all, with_start, brackets, needle);
    if j < ps.len() - 1 {
        assert(q[j] == ps[j]);
        lemma_matching_has(q, all, with_start, brackets, needle, j);
        let i = choose|i: int| 0 <= i < prev.len() && prev[i] == q[j];
        if suggests(all, with_start, brackets, ps.last().0, needle) {
            assert(m[i] == prev[i]);
        }
    } else {
        assert(ps[j] == ps.last());
        assert(m[m.len() - 1] == ps[j]);
    }
}

/// Law: a completion answer leaves out no offered entry unless it is full.
/// Where the word under the cursor is completed, every known entry offered
/// for it (see [`law_offer_rule`] and [`law_prefix_rule_for_brackets`]) is among the items, with its info,
/// whenever every item is suggested or the answer holds fewer than
/// [`COMPLETION_LIMIT`] items.
pub proof fn law_completions_complete(state: State, uri: Seq<char>, line: int, character: int, k: Seq<char>)
    requires
        state.wf(),
    ensures
        ({
            let r = state.completions_spec(uri, line, character);
            state.line_text(uri, line) matches Some(t) ==> (completion_target(
                state.settings.only_complete_brackets,
                t,
                character,
            ) matches Some((needle, s, e)) ==> (state.items@.contains_key(k) && suggests(
                state.settings.completion_suggest_all_items,
                state.settings.completion_suggest_with_start,
                state.settings.only_complete_brackets,
                k,
                needle,
            ) && (state.settings.completion_suggest_all_items || r.len() < COMPLETION_LIMIT)
                ==> exists|i: int|
                0 <= i < r.len() && (#[trigger] r[i]).0 == k && r[i].1 == state.items@[k]))
        }),
{
    let r = state.completions_spec(uri, line, character);
    let ps = state.items.pairs();
    crate::string_map::lemma_pairs_map(ps);
    if let Some(t) = state.line_text(uri, line) {
        if let Some((needle, s, e)) = completion_target(state.settings.only_complete_brackets, t, character) {
            let all = state.settings.completion_suggest_all_items;
            let with_start = state.settings.completion_suggest_with_start;
            let brackets = state.settings.only_complete_brackets;
            let m = matching_entries(ps, all, with_start, brackets, needle);
            if state.items@.contains_key(k) && suggests(all, with_start, brackets, k, needle) && (all
                || r.len() < COMPLETION_LIMIT) {
                let j = choose|j: int| 0 <= j < ps.len() && #[trigger] ps[j].0 == k;
                lemma_matching_has(ps, all, with_start, brackets, needle, j);
                let i = choose|i: int| 0 <= i < m.len() && m[i] == ps[j];
                let lm = capped(all, m);
                assert(lm == m);
                assert(r[i].0 == m[i].0 && r[i].1 == m[i].1);
            }
        }
    }
}

/// Law: what a completion matches against. The word is the run of word
/// bytes around the cursor (see `law_word_is_maximal_run`); without one
/// nothing is completed. When completions are not tied to brackets the
/// needle is the word itself. When they are, only a word that starts with
/// `<` and holds a `:` is completed, and the needle is the word past its `n`
/// leading `<` characters. The replaced range is the word's.
pub proof fn law_completion_target(only_brackets: bool, text: Seq<char>, col: int, n: int)
    ensures
        ({
            let bs = encode_utf8(text);
            let s = word_start(bs, col);
            let e = word_end(bs, col);
            let w = ascii_chars(bs.subrange(s, e));
            &&& s == e ==> completion_target(only_brackets, text, col) is None
            &&& !only_brackets && s != e ==> completion_target(only_brackets, text, col) == Some((w, s, e))
            &&& only_brackets && s != e ==> (completion_target(only_brackets, text, col) is Some <==> (w.len()
                > 0 && w[0] == '<' && exists|i: int| 0 <= i < w.len() && #[trigger] w[i] == ':'))
            &&& only_brackets && completion_target(only_brackets, text, col) is Some && 0 <= n <= w.len()
                && (forall|j: int| 0 <= j < n ==> w[j] == '<') && (n == w.len() || w[n] != '<')
                ==> completion_target(only_brackets, text, col) == Some((w.skip(n), s, e))
        }),
{
    let bs = encode_utf8(text);
    let s = word_start(bs, col);
    let e = word_end(bs, col);
    let w = ascii_chars(bs.subrange(s, e));
    if only_brackets && s != e {
        if contains_pat(w, seq![':']) {
            let i = choose|i: int| matches_at(w, seq![':'], i);
            assert(w.subrange(i, i + 1)[0] == w[i]);
        }
        if exists|i: int| 0 <= i < w.len() && #[trigger] w[i] == ':' {
            let i = choose|i: int| 0 <= i < w.len() && #[trigger] w[i] == ':';
            assert(w.subrange(i, i + 1) =~= seq![':']);
            assert(matches_at(w, seq![':'], i));
        }
    }
    if only_brackets && completion_target(only_brackets, text, col) is Some && 0 <= n <= w.len()
        && (forall|j: int| 0 <= j < n ==> w[j] == '<') && (n == w.len() || w[n] != '<') {
        lemma_trim_leading_lt(w, n);
    }
}

} // verus!

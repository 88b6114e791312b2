//! The state of the log viewer: the entries read so far, the tag filter, the
//! search, and the scroll position.
use vstd::prelude::*;
use std::time::Instant;
use crate::parse::LogEntry;
use crate::text::{string_pop, string_push, chars_of, string_from_chars, trim, trim_seq, to_ascii_lowercase, eq_ignore_ascii_case, contains, lower_seq, contains_seq};

verus! {

#[derive(Copy, Clone, Debug, PartialEq, Eq, Structural)]
pub enum InputMode {
    Normal,
    FilterInput,
    SearchInput,
}

pub struct App {
    pub start_time: Instant,
    pub entries: Vec<LogEntry>,
    pub filter: Option<String>,
    pub search: Option<String>,
    pub search_match_index: usize,
    pub scroll_offset: usize,
    pub auto_scroll: bool,
    pub mode: InputMode,
    pub input_buf: String,
    pub should_quit: bool,
}

/// The current time: `Instant::now`
#[verifier::external_body]
fn now() -> Instant {
    Instant::now()
}

/// Whether an entry with this tag passes the tag filter: every entry passes
/// when there is no filter, otherwise the tags must match up to ASCII case.
pub open spec fn passes_filter(tag: Seq<char>, filter: Option<Seq<char>>) -> bool {
    match filter {
        None => true,
        Some(f) => lower_seq(tag) == lower_seq(f),
    }
}

/// Among the first `n` entries, the positions of those that pass the filter,
/// in ascending order
pub open spec fn visible_upto(entries: Seq<LogEntry>, filter: Option<Seq<char>>, n: int) -> Seq<usize>
    decreases n,
{
    if n <= 0 {
        Seq::empty()
    } else {
        visible_upto(entries, filter, n - 1) + (if passes_filter(entries[n - 1].tag@, filter) {
            seq![(n - 1) as usize]
        } else {
            Seq::empty()
        })
    }
}

pub open spec fn string_opt_view(s: Option<String>) -> Option<Seq<char>> {
    match s {
        Some(x) => Some(x@),
        None => None,
    }
}

/// Among the visible positions `v`, those whose message contains the query,
/// ignoring ASCII case
pub open spec fn matching(entries: Seq<LogEntry>, v: Seq<usize>, query: Seq<char>) -> Seq<usize>
    decreases v.len(),
{
    if v.len() == 0 {
        Seq::empty()
    } else {
        matching(entries, v.drop_last(), query) + (if contains_seq(lower_seq(entries[v.last() as int].message@), lower_seq(query)) {
            seq![v.last()]
        } else {
            Seq::empty()
        })
    }
}

pub proof fn lemma_visible_bounds(entries: Seq<LogEntry>, filter: Option<Seq<char>>, n: int)
    requires
        0 <= n <= entries.len(),
    ensures
        visible_upto(entries, filter, n).len() <= n,
        forall|i: int| 0 <= i < visible_upto(entries, filter, n).len() ==> #[trigger] visible_upto(entries, filter, n)[i] < n,
    decreases n,
{
    if n > 0 {
        lemma_visible_bounds(entries, filter, n - 1);
        let prev = visible_upto(entries, filter, n - 1);
        assert forall|i: int| 0 <= i < visible_upto(entries, filter, n).len() implies #[trigger] visible_upto(entries, filter, n)[i] < n by {
            if i < prev.len() {
                assert(visible_upto(entries, filter, n)[i] == prev[i]);
            }
        }
    }
}

/// The positions `v` are strictly increasing
pub open spec fn ascending(v: Seq<usize>) -> bool {
    forall|i: int, j: int| 0 <= i < j < v.len() ==> v[i] < v[j]
}

proof fn lemma_visible_upto(entries: Seq<LogEntry>, filter: Option<Seq<char>>, n: int)
    requires
        0 <= n <= entries.len(),
        entries.len() <= usize::MAX,
    ensures
        ascending(visible_upto(entries, filter, n)),
        forall|k: int| 0 <= k < n ==> (visible_upto(entries, filter, n).contains(k as usize)
            <==> passes_filter(#[trigger] entries[k].tag@, filter)),
        forall|i: int| 0 <= i < visible_upto(entries, filter, n).len() ==> #[trigger] visible_upto(entries, filter, n)[i] < n,
    decreases n,
{
    if n > 0 {
        lemma_visible_upto(entries, filter, n - 1);
        let prev = visible_upto(entries, filter, n - 1);
        let v = visible_upto(entries, filter, n);
        assert forall|i: int| 0 <= i < v.len() implies #[trigger] v[i] < n && (i < prev.len() ==> v[i] == prev[i]) by {
            if i < prev.len() {
                assert(v[i] == prev[i]);
            }
        }
        assert forall|k: int| 0 <= k < n implies (v.contains(k as usize) <==> passes_filter(#[trigger] entries[k].tag@, filter)) by {
            if k < n - 1 {
                if prev.contains(k as usize) {
                    let i = choose|i: int| 0 <= i < prev.len() && prev[i] == k as usize;
                    assert(v[i] == k as usize);
                }
                if v.contains(k as usize) {
                    let i = choose|i: int| 0 <= i < v.len() && v[i] == k as usize;
                    if i >= prev.len() {
                        assert(v[i] == (n - 1) as usize);
                    }
                    assert(prev.contains(k as usize));
                }
            } else {
                if passes_filter(entries[k].tag@, filter) {
                    assert(v[prev.len() as int] == k as usize);
                } else {
                    if v.contains(k as usize) {
                        let i = choose|i: int| 0 <= i < v.len() && v[i] == k as usize;
                        assert(v[i] == prev[i]);
                    }
                }
            }
        }
    }
}

/// The visible entries are listed in log order, each once: a position is listed exactly when
/// its entry passes the tag filter.
pub proof fn law_visible_in_log_order(entries: Seq<LogEntry>, filter: Option<Seq<char>>)
    requires
        entries.len() <= usize::MAX,
    ensures
        ascending(visible_upto(entries, filter, entries.len() as int)),
        forall|k: int| 0 <= k < entries.len() ==> (visible_upto(entries, filter, entries.len() as int).contains(k as usize)
            <==> passes_filter(#[trigger] entries[k].tag@, filter)),
        forall|i: int| 0 <= i < visible_upto(entries, filter, entries.len() as int).len()
            ==> #[trigger] visible_upto(entries, filter, entries.len() as int)[i] < entries.len(),
{
    lemma_visible_upto(entries, filter, entries.len() as int);
}

/// The search matches keep the order of the visible positions they are taken from: a
/// position is a match exactly when it is visible and its message contains the query,
/// ignoring ASCII case.
pub proof fn law_matches_in_log_order(entries: Seq<LogEntry>, v: Seq<usize>, query: Seq<char>)
    requires
        ascending(v),
        forall|i: int| 0 <= i < v.len() ==> #[trigger] v[i] < entries.len(),
    ensures
        ascending(matching(entries, v, query)),
        forall|x: usize| matching(entries, v, query).contains(x) <==> v.contains(x) && x < entries.len()
            && contains_seq(lower_seq(entries[x as int].message@), lower_seq(query)),
        forall|i: int| 0 <= i < matching(entries, v, query).len() ==> exists|j: int| 0 <= j < v.len()
            && v[j] == #[trigger] matching(entries, v, query)[i],
    decreases v.len(),
{
    if v.len() > 0 {
        let w = v.drop_last();
        assert forall|i: int, j: int| 0 <= i < j < w.len() implies w[i] < w[j] by {
            assert(w[i] == v[i] && w[j] == v[j]);
        }
        assert forall|i: int| 0 <= i < w.len() implies #[trigger] w[i] < entries.len() by {
            assert(w[i] == v[i]);
        }
        law_matches_in_log_order(entries, w, query);
        let prev = matching(entries, w, query);
        let m = matching(entries, v, query);
        let last = v.last();
        assert forall|i: int| 0 <= i < m.len() && i < prev.len() implies m[i] == prev[i] by {}
        assert forall|i: int| 0 <= i < prev.len() implies #[trigger] prev[i] < last by {
            let j = choose|j: int| 0 <= j < w.len() && w[j] == prev[i];
            assert(v[j] == w[j]);
            assert(v[j] < v[v.len() - 1]);
        }
        assert forall|i: int| 0 <= i < m.len() implies exists|j: int| 0 <= j < v.len() && v[j] == #[trigger] m[i] by {
            if i < prev.len() {
                let j = choose|j: int| 0 <= j < w.len() && w[j] == prev[i];
                assert(v[j] == w[j]);
            } else {
                assert(m[i] == last);
                assert(v[v.len() - 1] == last);
            }
        }
        assert forall|i: int, j: int| 0 <= i < j < m.len() implies m[i] < m[j] by {
            if j >= prev.len() {
                assert(m[j] == last);
                assert(m[i] == prev[i]);
            } else {
                assert(m[i] == prev[i] && m[j] == prev[j]);
            }
        }
        let cond = contains_seq(lower_seq(entries[last as int].message@), lower_seq(query));
        assert(m == prev + (if cond { seq![last] } else { Seq::empty() }));
        assert forall|x: usize| m.contains(x) <==> v.contains(x) && x < entries.len()
            && contains_seq(lower_seq(entries[x as int].message@), lower_seq(query)) by {
            let c = contains_seq(lower_seq(entries[x as int].message@), lower_seq(query));
            assert(prev.contains(x) <==> w.contains(x) && x < entries.len() && c);
            if m.contains(x) {
                let i = choose|i: int| 0 <= i < m.len() && m[i] == x;
                if i < prev.len() {
                    assert(prev[i] == x);
                    assert(prev.contains(x));
                    let j = choose|j: int| 0 <= j < w.len() && w[j] == x;
                    assert(v[j] == x);
                } else {
                    assert(cond);
                    assert(m[i] == last);
                    assert(v[v.len() - 1] == x);
                }
            }
            if v.contains(x) && x < entries.len() && c {
                let j = choose|j: int| 0 <= j < v.len() && v[j] == x;
                if j < w.len() {
                    assert(w[j] == x);
                    assert(w.contains(x));
                    assert(prev.contains(x));
                    let i = choose|i: int| 0 <= i < prev.len() && prev[i] == x;
                    assert(m[i] == x);
                } else {
                    assert(x == last);
                    assert(m[prev.len() as int] == x);
                }
            }
        }
    }
}

/// The viewer after moving to the next search match, wrapping around after
/// the last one; nothing changes without matches
pub open spec fn next_matched(a: App) -> App {
    if a.matches().len() == 0 {
        a
    } else {
        App { search_match_index: ((a.search_match_index + 1) % (a.matches().len() as int)) as usize, auto_scroll: false, ..a }
    }
}

/// The viewer after moving to the previous search match, wrapping around
/// before the first one; nothing changes without matches
pub open spec fn prev_matched(a: App) -> App {
    if a.matches().len() == 0 {
        a
    } else {
        App {
            search_match_index: if a.search_match_index == 0 {
                (a.matches().len() - 1) as usize
            } else {
                (a.search_match_index - 1) as usize
            },
            auto_scroll: false,
            ..a
        }
    }
}

proof fn lemma_matching_len(entries: Seq<LogEntry>, v: Seq<usize>, query: Seq<char>)
    ensures
        matching(entries, v, query).len() <= v.len(),
    decreases v.len(),
{
    if v.len() > 0 {
        lemma_matching_len(entries, v.drop_last(), query);
    }
}

/// There are no more matches than entries, so a match index fits a `usize`
proof fn lemma_matches_bounded(a: App)
    requires
        a.entries@.len() <= usize::MAX,
    ensures
        a.matches().len() <= usize::MAX,
{
    lemma_visible_bounds(a.entries@, string_opt_view(a.filter), a.entries@.len() as int);
    if let Some(q) = a.search {
        lemma_matching_len(a.entries@, a.visible(), q@);
    }
}

/// Stepping between matches: with no match nothing changes. With matches, moving back goes to
/// the match before the current one, and from the first match (index 0) to the last; moving
/// forward goes to the one after it, and from the last to the first. Stepping back then
/// forward returns to where it started. Only the match index and following change.
pub proof fn law_match_steps(a: App)
    requires
        a.entries@.len() <= usize::MAX,
    ensures
        a.matches().len() == 0 ==> prev_matched(a) == a && next_matched(a) == a,
        a.matches().len() > 0 && a.search_match_index > 0 ==> prev_matched(a).search_match_index == a.search_match_index - 1,
        a.matches().len() > 0 && a.search_match_index == 0 ==> prev_matched(a).search_match_index == a.matches().len() - 1,
        a.matches().len() > 0 && a.search_match_index + 1 < a.matches().len() ==> next_matched(a).search_match_index
            == a.search_match_index + 1,
        a.matches().len() > 0 && a.search_match_index == a.matches().len() - 1 ==> next_matched(a).search_match_index == 0,
        a.matches().len() > 0 && a.search_match_index < a.matches().len() ==> next_matched(prev_matched(a)).search_match_index
            == a.search_match_index && prev_matched(next_matched(a)).search_match_index == a.search_match_index,
        a.matches().len() > 0 ==> prev_matched(a) == (App { search_match_index: prev_matched(a).search_match_index, auto_scroll: false, ..a }),
        a.matches().len() > 0 ==> next_matched(a) == (App { search_match_index: next_matched(a).search_match_index, auto_scroll: false, ..a }),
{
    lemma_matches_bounded(a);
    let n = a.matches().len() as int;
    if n > 0 {
        let p = prev_matched(a);
        assert(p.matches() == a.matches());
        let q = next_matched(a);
        assert(q.matches() == a.matches());
        if a.search_match_index < n {
            if a.search_match_index == 0 {
                assert(p.search_match_index + 1 == n);
                vstd::arithmetic::div_mod::lemma_mod_self_0(n);
            } else {
                vstd::arithmetic::div_mod::lemma_small_mod(a.search_match_index as nat, n as nat);
            }
        }
        vstd::arithmetic::div_mod::lemma_mod_self_0(n);
        if a.search_match_index + 1 < n {
            vstd::arithmetic::div_mod::lemma_small_mod(a.search_match_index as nat + 1, n as nat);
        }
        if a.search_match_index < n {
            let i = q.search_match_index;
            assert(i < n);
            if i > 0 {
                assert(prev_matched(q).search_match_index == i - 1);
            }
        }
    }
}

/// The viewer after scrolling up one line, stopping at the top
pub open spec fn scrolled_up(a: App) -> App {
    App { scroll_offset: if a.scroll_offset == 0 { 0 } else { (a.scroll_offset - 1) as usize }, auto_scroll: false, ..a }
}

/// The viewer after scrolling down one line, stopping where the last of
/// `visible_count` entries fills the bottom of a viewport of `height` rows
pub open spec fn scrolled_down(a: App, visible_count: usize, height: usize) -> App {
    App {
        scroll_offset: if visible_count > height {
            if a.scroll_offset + 1 <= visible_count - height {
                (a.scroll_offset + 1) as usize
            } else {
                (visible_count - height) as usize
            }
        } else {
            a.scroll_offset
        },
        auto_scroll: false,
        ..a
    }
}

/// The viewer after jumping to where the last entry fills the bottom of the
/// viewport, following new entries from there
pub open spec fn jumped_to_bottom(a: App, visible_count: usize, height: usize) -> App {
    App { scroll_offset: if visible_count > height { (visible_count - height) as usize } else { 0 }, auto_scroll: true, ..a }
}

impl App {
    /// The positions of the entries that pass the current tag filter
    pub open spec fn visible(&self) -> Seq<usize> {
        visible_upto(self.entries@, string_opt_view(self.filter), self.entries@.len() as int)
    }

    /// The positions of the visible entries that match the current search
    pub open spec fn matches(&self) -> Seq<usize> {
        match self.search {
            None => Seq::empty(),
            Some(q) => matching(self.entries@, self.visible(), q@),
        }
    }

    pub fn new() -> (r: Self)
        ensures
            r.entries@.len() == 0,
            r.filter is None,
            r.search is None,
            r.search_match_index == 0,
            r.scroll_offset == 0,
            r.auto_scroll,
            r.mode == InputMode::Normal,
            r.input_buf@.len() == 0,
            !r.should_quit,
    {
        App {
            start_time: now(),
            entries: Vec::new(),
            filter: None,
            search: None,
            search_match_index: 0,
            scroll_offset: 0,
            auto_scroll: true,
            mode: InputMode::Normal,
            input_buf: String::new(),
            should_quit: false,
        }
    }

    /// Returns indices into `self.entries` that pass the current tag filter.
    pub fn visible_indices(&self) -> (r: Vec<usize>)
        ensures
            r@ == self.visible(),
    {
        let filter_chars: Option<Vec<char>> = match &self.filter {
            Some(f) => Some(chars_of(f.as_str())),
            None => None,
        };
        let mut out: Vec<usize> = Vec::new();
        let mut i: usize = 0;
        while i < self.entries.len()
            invariant
                i <= self.entries@.len(),
                out@ == visible_upto(self.entries@, string_opt_view(self.filter), i as int),
                match filter_chars {
                    Some(v) => string_opt_view(self.filter) == Some(v@),
                    None => self.filter is None,
                },
            decreases self.entries@.len() - i,
        {
            let passes = match &filter_chars {
                Some(f) => {
                    let tag = chars_of(self.entries[i].tag.as_str());
                    eq_ignore_ascii_case(tag.as_slice(), f.as_slice())
                },
                None => true,
            };
            if passes {
                out.push(i);
            }
            i = i + 1;
        }
        out
    }

    /// Returns indices (into `self.entries`) of visible entries that match
    /// the search.
    pub fn search_match_indices(&self) -> (r: Vec<usize>)
        ensures
            r@ == self.matches(),
    {
        let query = match &self.search {
            Some(q) => q,
            None => {
                return Vec::new();
            },
        };
        let query_chars = chars_of(query.as_str());
        let query_lower = to_ascii_lowercase(query_chars.as_slice());
        let visible = self.visible_indices();
        proof {
            lemma_visible_bounds(self.entries@, string_opt_view(self.filter), self.entries@.len() as int);
        }
        let mut out: Vec<usize> = Vec::new();
        let mut i: usize = 0;
        while i < visible.len()
            invariant
                i <= visible@.len(),
                visible@ == self.visible(),
                self.search == Some(*query),
                query_lower@ == lower_seq(query@),
                forall|k: int| 0 <= k < visible@.len() ==> #[trigger] visible@[k] < self.entries@.len(),
                out@ == matching(self.entries@, visible@.take(i as int), query@),
            decreases visible@.len() - i,
        {
            let index = visible[i];
            let message = chars_of(self.entries[index].message.as_str());
            let message_lower = to_ascii_lowercase(message.as_slice());
            assert(visible@.take(i + 1).drop_last() =~= visible@.take(i as int));
            assert(visible@.take(i + 1).last() == visible@[i as int]);
            if contains(message_lower.as_slice(), query_lower.as_slice()) {
                out.push(index);
            }
            i = i + 1;
        }
        assert(visible@.take(visible@.len() as int) =~= visible@);
        out
    }

    /// Apply the typed tag as the filter (no filter when it is blank), and
    /// return to normal mode at the top of the log, following new entries.
    pub fn submit_filter(&mut self)
        ensures
            ({
                let tag = trim_seq(old(self).input_buf@);
                &&& string_opt_view(final(self).filter) == (if tag.len() == 0 { None } else { Some(tag) })
            }),
            final(self).input_buf@.len() == 0,
            *final(self) == (App {
                filter: final(self).filter,
                input_buf: final(self).input_buf,
                mode: InputMode::Normal,
                scroll_offset: 0,
                auto_scroll: true,
                ..*old(self)
            }),
    {
        let input = chars_of(self.input_buf.as_str());
        let tag = trim(input.as_slice());
        self.filter = if tag.len() == 0 { None } else { Some(string_from_chars(tag.as_slice())) };
        self.input_buf = String::new();
        self.mode = InputMode::Normal;
        self.scroll_offset = 0;
        self.auto_scroll = true;
    }

    /// Apply the typed query as the search (no search when it is blank), and
    /// start again from the first match.
    pub fn submit_search(&mut self)
        ensures
            ({
                let query = trim_seq(old(self).input_buf@);
                &&& string_opt_view(final(self).search) == (if query.len() == 0 { None } else { Some(query) })
            }),
            final(self).input_buf@.len() == 0,
            *final(self) == (App {
                search: final(self).search,
                search_match_index: 0,
                input_buf: final(self).input_buf,
                mode: InputMode::Normal,
                ..*old(self)
            }),
    {
        let input = chars_of(self.input_buf.as_str());
        let query = trim(input.as_slice());
        self.search = if query.len() == 0 { None } else { Some(string_from_chars(query.as_slice())) };
        self.search_match_index = 0;
        self.input_buf = String::new();
        self.mode = InputMode::Normal;
    }

    /// Move to the next search match, wrapping around after the last one.
    pub fn next_match(&mut self)
        requires
            old(self).search_match_index < usize::MAX,
        ensures
            *final(self) == next_matched(*old(self)),
    {
        let matches = self.search_match_indices();
        if matches.len() == 0 {
            return;
        }
        self.search_match_index = (self.search_match_index + 1) % matches.len();
        self.auto_scroll = false;
    }

    /// Move to the previous search match, wrapping around before the first.
    pub fn prev_match(&mut self)
        ensures
            *final(self) == prev_matched(*old(self)),
    {
        let matches = self.search_match_indices();
        if matches.len() == 0 {
            return;
        }
        self.search_match_index = if self.search_match_index == 0 {
            matches.len() - 1
        } else {
            self.search_match_index - 1
        };
        self.auto_scroll = false;
    }

    pub fn scroll_up(&mut self)
        ensures
            *final(self) == scrolled_up(*old(self)),
    {
        self.auto_scroll = false;
        self.scroll_offset = if self.scroll_offset == 0 { 0 } else { self.scroll_offset - 1 };
    }

    /// Scroll down one line, stopping where the last entry fills the bottom
    /// of the viewport.
    pub fn scroll_down(&mut self, visible_count: usize, viewport_height: usize)
        requires
            visible_count > viewport_height ==> old(self).scroll_offset < usize::MAX,
        ensures
            *final(self) == scrolled_down(*old(self), visible_count, viewport_height),
    {
        self.auto_scroll = false;
        if visible_count > viewport_height {
            let next = self.scroll_offset + 1;
            let limit = visible_count - viewport_height;
            self.scroll_offset = if next <= limit { next } else { limit };
        }
    }

    pub fn jump_to_top(&mut self)
        ensures
            *final(self) == (App { scroll_offset: 0, auto_scroll: false, ..*old(self) }),
    {
        self.auto_scroll = false;
        self.scroll_offset = 0;
    }

    /// Jump to where the last entry fills the bottom of the viewport, and
    /// follow new entries from there.
    pub fn jump_to_bottom(&mut self, visible_count: usize, viewport_height: usize)
        ensures
            *final(self) == jumped_to_bottom(*old(self), visible_count, viewport_height),
    {
        self.auto_scroll = true;
        if visible_count > viewport_height {
            self.scroll_offset = visible_count - viewport_height;
        } else {
            self.scroll_offset = 0;
        }
    }
}

/// A key press, as the viewer reads it
#[derive(Copy, Clone, Debug, PartialEq, Eq, Structural)]
pub enum Key {
    Char(char),
    Up,
    Down,
    Enter,
    Esc,
    Backspace,
    Other,
}

/// The number of rows that scrolling by key assumes for the viewport; the
/// real height is only known when drawing
pub const VIEWPORT_HEIGHT: usize = 20;

/// The viewer after a key press in normal mode. The input buffer of the
/// result is `buf`, which the keys that open an input line leave empty.
pub open spec fn normal_key(a: App, key: Key, control: bool, buf: String) -> App {
    if (key == Key::Char('c') && control) || key == Key::Char('q') {
        App { should_quit: true, ..a }
    } else if key == Key::Char('f') {
        App { mode: InputMode::FilterInput, input_buf: buf, ..a }
    } else if key == Key::Char('F') {
        App { filter: None, scroll_offset: 0, auto_scroll: true, ..a }
    } else if key == Key::Char('/') {
        App { mode: InputMode::SearchInput, input_buf: buf, ..a }
    } else if key == Key::Esc {
        App { search: None, search_match_index: 0, ..a }
    } else if key == Key::Char('n') {
        next_matched(a)
    } else if key == Key::Char('N') {
        prev_matched(a)
    } else if key == Key::Up || key == Key::Char('k') {
        scrolled_up(a)
    } else if key == Key::Down || key == Key::Char('j') {
        scrolled_down(a, a.visible().len() as usize, VIEWPORT_HEIGHT)
    } else if key == Key::Char('g') {
        App { scroll_offset: 0, auto_scroll: false, ..a }
    } else if key == Key::Char('G') {
        jumped_to_bottom(a, a.visible().len() as usize, VIEWPORT_HEIGHT)
    } else {
        a
    }
}

/// Handle a key pressed in normal mode: quit, open the filter or search
/// line, clear the filter or search, move between matches, or scroll
pub fn handle_normal_key(app: &mut App, key: Key, control: bool)
    requires
        key == Key::Char('n') ==> old(app).search_match_index < usize::MAX,
        (key == Key::Down || key == Key::Char('j')) && old(app).visible().len() > VIEWPORT_HEIGHT
            ==> old(app).scroll_offset < usize::MAX,
    ensures
        *final(app) == normal_key(*old(app), key, control, final(app).input_buf),
        (key == Key::Char('f') || key == Key::Char('/')) ==> final(app).input_buf@.len() == 0,
{
    if (key == Key::Char('c') && control) || key == Key::Char('q') {
        app.should_quit = true;
    } else if key == Key::Char('f') {
        app.mode = InputMode::FilterInput;
        app.input_buf = String::new();
    } else if key == Key::Char('F') {
        app.filter = None;
        app.scroll_offset = 0;
        app.auto_scroll = true;
    } else if key == Key::Char('/') {
        app.mode = InputMode::SearchInput;
        app.input_buf = String::new();
    } else if key == Key::Esc {
        app.search = None;
        app.search_match_index = 0;
    } else if key == Key::Char('n') {
        app.next_match();
    } else if key == Key::Char('N') {
        app.prev_match();
    } else if key == Key::Up || key == Key::Char('k') {
        app.scroll_up();
    } else if key == Key::Down || key == Key::Char('j') {
        let visible_count = app.visible_indices().len();
        app.scroll_down(visible_count, VIEWPORT_HEIGHT);
    } else if key == Key::Char('g') {
        app.jump_to_top();
    } else if key == Key::Char('G') {
        let visible_count = app.visible_indices().len();
        app.jump_to_bottom(visible_count, VIEWPORT_HEIGHT);
    }
}

/// Handle a key pressed while the filter (`is_filter`) or search line is
/// open: Enter applies it, Esc abandons it, Backspace and characters edit it
pub fn handle_input_key(app: &mut App, key: Key, is_filter: bool)
    ensures
        key == Key::Enter && is_filter ==> {
            let tag = trim_seq(old(app).input_buf@);
            &&& string_opt_view(final(app).filter) == (if tag.len() == 0 { None } else { Some(tag) })
            &&& final(app).input_buf@.len() == 0
            &&& *final(app) == (App {
                filter: final(app).filter,
                input_buf: final(app).input_buf,
                mode: InputMode::Normal,
                scroll_offset: 0,
                auto_scroll: true,
                ..*old(app)
            })
        },
        key == Key::Enter && !is_filter ==> {
            let query = trim_seq(old(app).input_buf@);
            &&& string_opt_view(final(app).search) == (if query.len() == 0 { None } else { Some(query) })
            &&& final(app).input_buf@.len() == 0
            &&& *final(app) == (App {
                search: final(app).search,
                search_match_index: 0,
                input_buf: final(app).input_buf,
                mode: InputMode::Normal,
                ..*old(app)
            })
        },
        key == Key::Esc ==> final(app).input_buf@.len() == 0
            && *final(app) == (App { input_buf: final(app).input_buf, mode: InputMode::Normal, ..*old(app) }),
        key == Key::Backspace ==> final(app).input_buf@ == (if old(app).input_buf@.len() == 0 {
            old(app).input_buf@
        } else {
            old(app).input_buf@.drop_last()
        }) && *final(app) == (App { input_buf: final(app).input_buf, ..*old(app) }),
        key matches Key::Char(c) ==> final(app).input_buf@ == old(app).input_buf@.push(c)
            && *final(app) == (App { input_buf: final(app).input_buf, ..*old(app) }),
        (key == Key::Up || key == Key::Down || key == Key::Other) ==> *final(app) == *old(app),
{
    match key {
        Key::Enter => {
            if is_filter {
                app.submit_filter();
            } else {
                app.submit_search();
            }
        },
        Key::Esc => {
            app.input_buf = String::new();
            app.mode = InputMode::Normal;
        },
        Key::Backspace => {
            string_pop(&mut app.input_buf);
        },
        Key::Char(c) => {
            string_push(&mut app.input_buf, c);
        },
        _ => {},
    }
}

/// The first position of `x` in `v`, if it occurs
pub open spec fn position_of(v: Seq<usize>, x: usize) -> Option<int>
    decreases v.len(),
{
    if v.len() == 0 {
        None
    } else if v[0] == x {
        Some(0)
    } else {
        match position_of(v.drop_first(), x) {
            Some(p) => Some(p + 1),
            None => None,
        }
    }
}

/// The entry of the current search match, if there are matches
pub open spec fn current_match_of(a: App) -> Option<usize> {
    if a.matches().len() == 0 {
        None
    } else {
        Some(a.matches()[a.search_match_index as int % a.matches().len() as int])
    }
}

/// The viewer's scroll position before drawing `height` rows of the log:
/// following new entries pins the last one to the bottom; otherwise the
/// current search match is scrolled into view
pub open spec fn followed(a: App, height: usize) -> App {
    let v = a.visible();
    let pinned = if a.auto_scroll && v.len() > height {
        App { scroll_offset: (v.len() - height) as usize, ..a }
    } else {
        a
    };
    match current_match_of(a) {
        Some(cur) => if a.auto_scroll {
            pinned
        } else {
            match position_of(v, cur) {
                Some(pos) => if pos < pinned.scroll_offset {
                    App { scroll_offset: pos as usize, ..pinned }
                } else if pos >= pinned.scroll_offset + height {
                    App { scroll_offset: (pos - height + 1) as usize, ..pinned }
                } else {
                    pinned
                },
                None => pinned,
            }
        },
        None => pinned,
    }
}

proof fn lemma_position_bound(v: Seq<usize>, x: usize)
    ensures
        position_of(v, x) matches Some(p) ==> 0 <= p < v.len() && v[p] == x,
    decreases v.len(),
{
    if v.len() > 0 && v[0] != x {
        lemma_position_bound(v.drop_first(), x);
    }
}

/// Scrolling moves the view one line: up stops at the top, down stops where the last of the
/// visible entries fills the bottom row, and with no more entries than rows the view stays.
/// Scrolling up then down comes back to the same line.
pub proof fn law_scroll_steps(a: App, count: usize, height: usize)
    ensures
        scrolled_up(a).scroll_offset == (if a.scroll_offset > 0 { a.scroll_offset - 1 } else { 0 }),
        count > height && a.scroll_offset < count - height ==> scrolled_down(a, count, height).scroll_offset == a.scroll_offset + 1,
        count > height && a.scroll_offset >= count - height ==> scrolled_down(a, count, height).scroll_offset == count - height,
        count <= height ==> scrolled_down(a, count, height).scroll_offset == a.scroll_offset,
        count > height && 0 < a.scroll_offset <= count - height ==> scrolled_down(scrolled_up(a), count, height).scroll_offset
            == a.scroll_offset,
        scrolled_up(a) == (App { scroll_offset: scrolled_up(a).scroll_offset, auto_scroll: false, ..a }),
        scrolled_down(a, count, height) == (App { scroll_offset: scrolled_down(a, count, height).scroll_offset, auto_scroll: false, ..a }),
{
}

/// Before drawing, the view follows new entries or the current search match: following pins
/// the last visible entry to the bottom row; otherwise, where the current match is visible, the
/// view is moved just enough to show it, and not at all when it is already shown. Only the
/// scroll position changes.
pub proof fn law_follow_shows_match(a: App, height: usize)
    requires
        a.scroll_offset + height <= usize::MAX,
        a.visible().len() + height <= usize::MAX,
    ensures
        a.auto_scroll && a.visible().len() > height ==> followed(a, height).scroll_offset == a.visible().len() - height,
        a.auto_scroll && a.visible().len() <= height ==> followed(a, height).scroll_offset == a.scroll_offset,
        !a.auto_scroll && height > 0 ==> (current_match_of(a) matches Some(cur) ==> (position_of(a.visible(), cur) matches Some(pos)
            ==> followed(a, height).scroll_offset <= pos < followed(a, height).scroll_offset + height
                && (a.scroll_offset <= pos < a.scroll_offset + height ==> followed(a, height).scroll_offset == a.scroll_offset))),
        !a.auto_scroll && current_match_of(a) is None ==> followed(a, height).scroll_offset == a.scroll_offset,
        followed(a, height) == (App { scroll_offset: followed(a, height).scroll_offset, ..a }),
{
    if let Some(cur) = current_match_of(a) {
        lemma_position_bound(a.visible(), cur);
    }
}

impl App {
    /// The entry of the current search match, if there are matches
    pub fn current_match(&self) -> (r: Option<usize>)
        ensures
            r == current_match_of(*self),
    {
        let matches = self.search_match_indices();
        if matches.len() == 0 {
            None
        } else {
            Some(matches[self.search_match_index % matches.len()])
        }
    }

    /// Adjust the scroll position before `viewport_height` rows of the log
    /// are drawn: follow new entries, or bring the current match into view
    pub fn follow_scroll(&mut self, viewport_height: usize)
        requires
            old(self).scroll_offset + viewport_height <= usize::MAX,
            old(self).visible().len() + viewport_height <= usize::MAX,
        ensures
            *final(self) == followed(*old(self), viewport_height),
    {
        let visible = self.visible_indices();
        let visible_count = visible.len();
        if self.auto_scroll && visible_count > viewport_height {
            self.scroll_offset = visible_count - viewport_height;
        }
        if self.auto_scroll {
            return;
        }
        let current = match self.current_match() {
            Some(c) => c,
            None => return,
        };
        let ghost v = visible@;
        let mut pos: usize = 0;
        assert(v.skip(0) =~= v);
        while pos < visible.len() && visible[pos] != current
            invariant
                pos <= visible@.len(),
                v == visible@,
                position_of(v, current) == (match position_of(v.skip(pos as int), current) {
                    Some(p) => Some(p + pos),
                    None => None::<int>,
                }),
            decreases visible@.len() - pos,
        {
            proof {
                assert(v.skip(pos as int).drop_first() =~= v.skip(pos + 1));
            }
            pos = pos + 1;
        }
        proof {
            lemma_position_bound(v, current);
            if pos == visible@.len() {
                assert(v.skip(pos as int).len() == 0);
            } else {
                assert(v.skip(pos as int)[0] == current);
            }
        }
        if pos == visible.len() {
            return;
        }
        if pos < self.scroll_offset {
            self.scroll_offset = pos;
        } else if pos >= self.scroll_offset + viewport_height {
            self.scroll_offset = pos - viewport_height + 1;
        }
    }
}

} // verus!

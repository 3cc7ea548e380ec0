use std::collections::VecDeque;
use vstd::prelude::*;
use vstd::string::StringSliceAdditionalSpecFns;
use vstd::utf8::{encode_utf8, is_char_boundary};

verus! {

/// The UTF-8 bytes of a text.
pub open spec fn bytes_of(s: Seq<char>) -> Seq<u8> {
    encode_utf8(s)
}

/// How far a search moves on after a match of `t`: past the match, and by
/// one byte at least, so that an empty term matches at each position once.
pub open spec fn step_after(t: Seq<u8>) -> int {
    if t.len() == 0 {
        1
    } else {
        t.len() as int
    }
}

/// `t` occurs in `c` at byte offset `p`, and `p` starts a character.
#[verifier::opaque]
pub open spec fn occurs_at(c: Seq<u8>, t: Seq<u8>, p: int) -> bool {
    &&& 0 <= p
    &&& p + t.len() <= c.len()
    &&& c.subrange(p, p + t.len()) == t
    &&& is_char_boundary(c, p)
}

/// The offsets, from `p` on, of the occurrences of `t` in `c` that a
/// leftmost-first scan finds without overlap.
pub open spec fn matches_from(c: Seq<u8>, t: Seq<u8>, p: int) -> Seq<int>
    decreases c.len() + 1 - p,
{
    if p < 0 || p > c.len() {
        Seq::empty()
    } else if p + t.len() <= c.len() && occurs_at(c, t, p) {
        seq![p] + matches_from(c, t, p + step_after(t))
    } else {
        matches_from(c, t, p + 1)
    }
}

/// The offsets of all non-overlapping occurrences of `t` in `c`, leftmost first.
pub open spec fn match_offsets(c: Seq<u8>, t: Seq<u8>) -> Seq<int> {
    matches_from(c, t, 0)
}

/// A sequence of offsets as integers.
pub open spec fn as_ints(s: Seq<usize>) -> Seq<int> {
    s.map_values(|x: usize| x as int)
}

/// Whether `t` occurs in `c` at `p`; `text` is the string whose bytes are `c`.
fn occurs_at_exec(text: &str, c: &[u8], t: &[u8], p: usize) -> (r: bool)
    requires
        c@ == text.spec_bytes(),
        p <= c@.len(),
    ensures
        r == occurs_at(c@, t@, p as int),
{
    reveal(occurs_at);
    if t.len() > c.len() - p {
        return false;
    }
    let n = c.len();
    let mut i: usize = 0;
    while i < t.len()
        invariant
            n == c@.len(),
            p + t@.len() <= c@.len(),
            p <= c@.len(),
            i <= t@.len(),
            forall|j: int| 0 <= j < i ==> c@[p + j] == t@[j],
        decreases t@.len() - i,
    {
        if c[p + i] != t[i] {
            assert(c@.subrange(p as int, p + t@.len())[i as int] != t@[i as int]);
            proof {
                reveal(occurs_at);
            }
            return false;
        }
        i = i + 1;
    }
    assert(c@.subrange(p as int, p + t@.len()) =~= t@);
    text.is_char_boundary(p)
}

/// The byte offsets of all non-overlapping occurrences of `term` in `text`,
/// leftmost first.
fn match_offsets_in(text: &str, term: &str) -> (r: Vec<usize>)
    ensures
        as_ints(r@) == match_offsets(bytes_of(text@), bytes_of(term@)),
{
    let c = text.as_bytes();
    let t = term.as_bytes();
    let ghost cs = c@;
    let ghost ts = t@;
    let mut out: Vec<usize> = Vec::new();
    let mut p: usize = 0;
    loop
        invariant_except_break
            p <= cs.len(),
            cs == c@,
            ts == t@,
            c@ == text.spec_bytes(),
            as_ints(out@) + matches_from(cs, ts, p as int) == match_offsets(cs, ts),
        ensures
            as_ints(out@) == match_offsets(cs, ts),
        decreases cs.len() - p,
    {
        let hit = occurs_at_exec(text, c, t, p);
        proof {
            reveal(occurs_at);
        }
        let ghost before = out@;
        if hit {
            out.push(p);
            assert(as_ints(out@) =~= as_ints(before) + seq![p as int]);
        }
        if p == c.len() {
            assert(matches_from(cs, ts, p + 1) == Seq::<int>::empty());
            assert(as_ints(out@) =~= as_ints(out@) + matches_from(cs, ts, p + 1));
            break;
        }
        if hit {
            p = if t.len() == 0 {
                p + 1
            } else {
                p + t.len()
            };
        } else {
            p = p + 1;
        }
    }
    out
}

/// What `str::replace` makes of `s`: each match of `from` replaced by `to`.
pub uninterp spec fn replaced(s: Seq<char>, from: Seq<char>, to: Seq<char>) -> Seq<char>;

/// Relies on `str::replace`, which replaces every non-overlapping match of
/// `from` in `s` by `to`: its result depends on the three texts alone.
#[verifier::external_body]
fn replace_text(s: &str, from: &str, to: &str) -> (r: String)
    ensures
        r@ == replaced(s@, from@, to@),
{
    s.replace(from, to)
}

/// The offsets that `find_next` works from: the cached ones while they are
/// there and the term is unchanged, else a fresh scan of the text.
pub open spec fn working_matches(
    text: Seq<char>,
    cached: Seq<int>,
    term: Seq<char>,
    search: Seq<char>,
) -> Seq<int> {
    if cached.len() == 0 || search != term {
        match_offsets(bytes_of(text), bytes_of(search))
    } else {
        cached
    }
}

/// The offsets moved on by one: the first goes to the back.
pub open spec fn rotated(s: Seq<int>) -> Seq<int> {
    if s.len() == 0 {
        s
    } else {
        s.drop_first().push(s[0])
    }
}

/// An optional offset as an integer.
pub open spec fn as_int_opt(r: Option<usize>) -> Option<int> {
    match r {
        Some(x) => Some(x as int),
        None => None,
    }
}

/// The first offset, if any.
pub open spec fn first_of(s: Seq<int>) -> Option<int> {
    if s.len() == 0 {
        None
    } else {
        Some(s[0])
    }
}

/// One offset after an edit at `index` that grew (or, with `neg`, shrank)
/// the text by `amount`: only offsets strictly after `index` move.
pub open spec fn shift_one(o: int, index: int, amount: int, neg: bool) -> int {
    if o > index {
        if neg {
            o - amount
        } else {
            o + amount
        }
    } else {
        o
    }
}

/// Every offset moved by `shift_one`.
pub open spec fn shifted(s: Seq<int>, index: int, amount: int, neg: bool) -> Seq<int> {
    s.map_values(|o: int| shift_one(o, index, amount, neg))
}

/// Each offset that a shift moves stays within `usize`.
pub open spec fn shift_fits(s: Seq<int>, index: int, amount: int, neg: bool) -> bool {
    forall|k: int|
        0 <= k < s.len() && s[k] > index ==> if neg {
            s[k] >= amount
        } else {
            s[k] + amount <= usize::MAX
        }
}

/// `w` placed before the first offset greater than it, or at the end.
pub open spec fn insert_sorted(s: Seq<int>, w: int) -> Seq<int>
    decreases s.len(),
{
    if s.len() == 0 {
        seq![w]
    } else if s[0] > w {
        seq![w] + s
    } else {
        seq![s[0]] + insert_sorted(s.drop_first(), w)
    }
}

/// The offsets other than `w`, in their order.
pub open spec fn without(s: Seq<int>, w: int) -> Seq<int>
    decreases s.len(),
{
    if s.len() == 0 {
        s
    } else if s.last() == w {
        without(s.drop_last(), w)
    } else {
        without(s.drop_last(), w).push(s.last())
    }
}

/// Each offset is smaller than the next.
pub open spec fn strictly_increasing(s: Seq<int>) -> bool {
    forall|i: int, j: int| 0 <= i < j < s.len() ==> s[i] < s[j]
}

fn to_deque(v: &Vec<usize>) -> (d: VecDeque<usize>)
    ensures
        d@ == v@,
{
    let mut d: VecDeque<usize> = VecDeque::new();
    let mut i: usize = 0;
    while i < v.len()
        invariant
            i <= v@.len(),
            d@ == v@.subrange(0, i as int),
        decreases v@.len() - i,
    {
        d.push_back(v[i]);
        i = i + 1;
        assert(d@ =~= v@.subrange(0, i as int));
    }
    assert(v@.subrange(0, i as int) =~= v@);
    d
}

/// The text of an editing session, with the cached offsets of the current
/// search term's matches, which `find_next` surfaces one after another.
///
/// The offsets are byte offsets. Edits to the text do not refresh them: a
/// caller that changes the text either searches afresh (after `clear`) or
/// keeps the offsets in step with `shift_after_index` and its siblings.
pub struct SearchManager {
    content: String,
    found_indices: VecDeque<usize>,
    word_to_find: String,
}

impl SearchManager {
    /// The text.
    pub closed spec fn text(&self) -> Seq<char> {
        self.content@
    }

    /// The cached match offsets, in the order `find_next` visits them.
    pub closed spec fn indices(&self) -> Seq<int> {
        as_ints(self.found_indices@)
    }

    /// The term whose matches are cached.
    pub closed spec fn term(&self) -> Seq<char> {
        self.word_to_find@
    }

    /// A session on `content`, with no cached matches and an empty term.
    pub fn new(content: String) -> (m: Self)
        ensures
            m.text() == content@,
            m.indices() == Seq::<int>::empty(),
            m.term() == Seq::<char>::empty(),
    {
        let m = SearchManager { content, found_indices: VecDeque::new(), word_to_find: String::new() };
        assert(m.indices() =~= Seq::<int>::empty());
        m
    }

    /// A copy of the text.
    pub fn get_content(&self) -> (r: String)
        ensures
            r@ == self.text(),
    {
        self.content.clone()
    }

    /// Replaces the text; the cached offsets and term stay as they are.
    pub fn set_content(&mut self, new_content: String)
        ensures
            final(self).text() == new_content@,
            final(self).indices() == old(self).indices(),
            final(self).term() == old(self).term(),
    {
        self.content = new_content;
    }

    /// Replaces each non-overlapping match of `from` in the text by `to`,
    /// and returns the new text; the cached offsets and term stay as they are.
    pub fn replace_all(&mut self, from: &str, to: &str) -> (r: String)
        ensures
            r@ == replaced(old(self).text(), from@, to@),
            final(self).text() == r@,
            final(self).indices() == old(self).indices(),
            final(self).term() == old(self).term(),
    {
        self.content = replace_text(self.content.as_str(), from, to);
        self.content.clone()
    }

    /// The byte offsets of all non-overlapping matches of `text` in the text,
    /// leftmost first. Changes nothing.
    pub fn find_all(&self, text: &str) -> (r: Vec<usize>)
        ensures
            as_ints(r@) == match_offsets(bytes_of(self.text()), bytes_of(text@)),
    {
        match_offsets_in(self.content.as_str(), text)
    }

    /// Surfaces the next match of `search_term`, cycling through the matches.
    ///
    /// When no offsets are cached, or the term differs from the cached one,
    /// the matches are found afresh. The first cached offset is returned and
    /// moved to the back; `None` when there is no match.
    pub fn find_next(&mut self, search_term: &str) -> (r: Option<usize>)
        ensures
            final(self).text() == old(self).text(),
            final(self).term() == search_term@,
            final(self).indices() == rotated(
                working_matches(old(self).text(), old(self).indices(), old(self).term(), search_term@),
            ),
            as_int_opt(r) == first_of(
                working_matches(old(self).text(), old(self).indices(), old(self).term(), search_term@),
            ),
    {
        let search = search_term.to_owned();
        let refresh = self.found_indices.len() == 0 || !search.eq(&self.word_to_find);
        if refresh {
            let found = match_offsets_in(self.content.as_str(), search_term);
            self.found_indices = to_deque(&found);
        }
        self.word_to_find = search;
        let ghost base = self.found_indices@;
        match self.found_indices.pop_front() {
            None => None,
            Some(x) => {
                self.found_indices.push_back(x);
                assert(as_ints(self.found_indices@) =~= rotated(as_ints(base)));
                Some(x)
            },
        }
    }

    /// A copy of the cached offsets, in the order `find_next` visits them.
    pub fn found_indices(&self) -> (r: Vec<usize>)
        ensures
            as_ints(r@) == self.indices(),
    {
        let n = self.found_indices.len();
        let mut r: Vec<usize> = Vec::new();
        let mut i: usize = 0;
        while i < n
            invariant
                n == self.found_indices@.len(),
                i <= n,
                r@ == self.found_indices@.subrange(0, i as int),
            decreases n - i,
        {
            r.push(self.found_indices[i]);
            i = i + 1;
            assert(r@ =~= self.found_indices@.subrange(0, i as int));
        }
        assert(r@ =~= self.found_indices@);
        r
    }

    /// Drops the offset at the back, the one `find_next` surfaced last;
    /// does nothing when none is cached.
    pub fn remove_last(&mut self)
        ensures
            final(self).text() == old(self).text(),
            final(self).term() == old(self).term(),
            final(self).indices() == if old(self).indices().len() == 0 {
                old(self).indices()
            } else {
                old(self).indices().drop_last()
            },
    {
        let ghost before = self.found_indices@;
        self.found_indices.pop_back();
        assert(self.indices() =~= if before.len() == 0 {
            as_ints(before)
        } else {
            as_ints(before).drop_last()
        });
    }

    /// Drops every cached offset.
    pub fn clear(&mut self)
        ensures
            final(self).text() == old(self).text(),
            final(self).term() == old(self).term(),
            final(self).indices() == Seq::<int>::empty(),
    {
        self.found_indices.clear();
        assert(self.indices() =~= Seq::<int>::empty());
    }

    /// Keeps the offsets in step with an edit at `index` that grew the text
    /// by `shift_amount` bytes, or shrank it when `neg` holds: each offset
    /// strictly after `index` moves by that amount, the others stay.
    pub fn shift_after_index(&mut self, index: usize, shift_amount: usize, neg: bool)
        requires
            shift_fits(old(self).indices(), index as int, shift_amount as int, neg),
        ensures
            final(self).text() == old(self).text(),
            final(self).term() == old(self).term(),
            final(self).indices() == shifted(
                old(self).indices(),
                index as int,
                shift_amount as int,
                neg,
            ),
    {
        let ghost before = self.indices();
        let n = self.found_indices.len();
        let mut moved: VecDeque<usize> = VecDeque::new();
        let mut i: usize = 0;
        while i < n
            invariant
                n == self.found_indices@.len(),
                before == self.indices(),
                shift_fits(before, index as int, shift_amount as int, neg),
                i <= n,
                as_ints(moved@) == shifted(before, index as int, shift_amount as int, neg).subrange(
                    0,
                    i as int,
                ),
            decreases n - i,
        {
            let o = self.found_indices[i];
            assert(before[i as int] == o as int);
            let next = if o > index {
                if neg {
                    o - shift_amount
                } else {
                    o + shift_amount
                }
            } else {
                o
            };
            let ghost prev = moved@;
            moved.push_back(next);
            i = i + 1;
            assert(as_ints(moved@) =~= as_ints(prev).push(next as int));
            assert(as_ints(moved@) =~= shifted(
                before,
                index as int,
                shift_amount as int,
                neg,
            ).subrange(0, i as int));
        }
        self.found_indices = moved;
        assert(self.indices() =~= shifted(before, index as int, shift_amount as int, neg));
    }

    /// Adds `word_index` before the first cached offset greater than it, or
    /// at the back when there is none. An equal offset is not merged.
    pub fn insert_in_order(&mut self, word_index: usize)
        ensures
            final(self).text() == old(self).text(),
            final(self).term() == old(self).term(),
            final(self).indices() == insert_sorted(old(self).indices(), word_index as int),
    {
        let ghost before = self.indices();
        let n = self.found_indices.len();
        let mut pos: usize = n;
        let mut i: usize = 0;
        while i < n
            invariant_except_break
                n == self.found_indices@.len(),
                before == self.indices(),
                i <= n,
                pos == n,
                forall|k: int| 0 <= k < i ==> before[k] <= word_index,
            ensures
                n == self.found_indices@.len(),
                before == self.indices(),
                pos <= n,
                forall|k: int| 0 <= k < pos ==> before[k] <= word_index,
                pos < n ==> before[pos as int] > word_index,
            decreases n - i,
        {
            if self.found_indices[i] > word_index {
                pos = i;
                break;
            }
            i = i + 1;
        }
        self.found_indices.insert(pos, word_index);
        proof {
            lemma_insert_sorted_at(before, word_index as int, pos as int);
        }
        assert(self.indices() =~= before.insert(pos as int, word_index as int));
    }

    /// Drops every cached offset equal to `word_index`.
    pub fn remove_element(&mut self, word_index: usize)
        ensures
            final(self).text() == old(self).text(),
            final(self).term() == old(self).term(),
            final(self).indices() == without(old(self).indices(), word_index as int),
    {
        let ghost before = self.indices();
        let n = self.found_indices.len();
        let mut kept: VecDeque<usize> = VecDeque::new();
        let mut i: usize = 0;
        while i < n
            invariant
                n == self.found_indices@.len(),
                before == self.indices(),
                i <= n,
                as_ints(kept@) == without(before.subrange(0, i as int), word_index as int),
            decreases n - i,
        {
            let o = self.found_indices[i];
            let ghost prev = kept@;
            if o != word_index {
                kept.push_back(o);
                assert(as_ints(kept@) =~= as_ints(prev).push(o as int));
            }
            i = i + 1;
            assert(before.subrange(0, i as int).drop_last() =~= before.subrange(0, i - 1));
        }
        assert(before.subrange(0, n as int) =~= before);
        self.found_indices = kept;
    }
}

/// Inserting before the first offset greater than `w` is what
/// `insert_sorted` does.
proof fn lemma_insert_sorted_at(s: Seq<int>, w: int, pos: int)
    requires
        0 <= pos <= s.len(),
        forall|k: int| 0 <= k < pos ==> s[k] <= w,
        pos < s.len() ==> s[pos] > w,
    ensures
        insert_sorted(s, w) == s.insert(pos, w),
    decreases s.len(),
{
    if s.len() == 0 {
        assert(s.insert(pos, w) =~= seq![w]);
    } else if pos == 0 {
        assert(s.insert(pos, w) =~= seq![w] + s);
    } else {
        let t = s.drop_first();
        lemma_insert_sorted_at(t, w, pos - 1);
        assert(s.insert(pos, w) =~= seq![s[0]] + t.insert(pos - 1, w));
    }
}

/// A scan from `p0` finds occurrences only, at or after `p0`.
proof fn lemma_scan_sound(c: Seq<u8>, t: Seq<u8>, p0: int)
    requires
        0 <= p0,
    ensures
        forall|k: int|
            0 <= k < matches_from(c, t, p0).len() ==> p0 <= #[trigger] matches_from(c, t, p0)[k]
                && occurs_at(c, t, matches_from(c, t, p0)[k]),
    decreases c.len() + 1 - p0,
{
    if p0 <= c.len() {
        let m = matches_from(c, t, p0);
        if p0 + t.len() <= c.len() && occurs_at(c, t, p0) {
            let rest = matches_from(c, t, p0 + step_after(t));
            lemma_scan_sound(c, t, p0 + step_after(t));
            assert forall|k: int| 0 <= k < m.len() implies p0 <= #[trigger] m[k] && occurs_at(
                c,
                t,
                m[k],
            ) by {
                if k > 0 {
                    assert(m[k] == rest[k - 1]);
                }
            }
        } else {
            lemma_scan_sound(c, t, p0 + 1);
            assert(m == matches_from(c, t, p0 + 1));
        }
    }
}

/// Each match found by a scan ends before the next one starts.
proof fn lemma_scan_apart(c: Seq<u8>, t: Seq<u8>, p0: int)
    requires
        0 <= p0,
    ensures
        forall|k: int|
            0 <= k < matches_from(c, t, p0).len() - 1 ==> #[trigger] matches_from(c, t, p0)[k]
                + step_after(t) <= matches_from(c, t, p0)[k + 1],
    decreases c.len() + 1 - p0,
{
    if p0 <= c.len() {
        let m = matches_from(c, t, p0);
        if p0 + t.len() <= c.len() && occurs_at(c, t, p0) {
            let q = p0 + step_after(t);
            let rest = matches_from(c, t, q);
            lemma_scan_apart(c, t, q);
            lemma_scan_sound(c, t, q);
            assert forall|k: int| 0 <= k < m.len() - 1 implies #[trigger] m[k] + step_after(t)
                <= m[k + 1] by {
                if k > 0 {
                    assert(m[k] == rest[k - 1]);
                    assert(m[k + 1] == rest[k]);
                } else {
                    assert(m[1] == rest[0]);
                }
            }
        } else {
            lemma_scan_apart(c, t, p0 + 1);
            assert(m == matches_from(c, t, p0 + 1));
        }
    }
}

/// Every occurrence at or after `p0` is found by the scan or starts inside
/// a match that it found.
proof fn lemma_scan_covers(c: Seq<u8>, t: Seq<u8>, p0: int, p: int)
    requires
        0 <= p0 <= p,
        p + t.len() <= c.len(),
        occurs_at(c, t, p),
    ensures
        exists|k: int|
            0 <= k < matches_from(c, t, p0).len() && #[trigger] matches_from(c, t, p0)[k] <= p
                < matches_from(c, t, p0)[k] + step_after(t),
    decreases p - p0,
{
    let m = matches_from(c, t, p0);
    if p0 + t.len() <= c.len() && occurs_at(c, t, p0) {
        let q = p0 + step_after(t);
        if p < q {
            assert(m[0] <= p < m[0] + step_after(t));
        } else {
            let rest = matches_from(c, t, q);
            lemma_scan_covers(c, t, q, p);
            let k = choose|k: int| 0 <= k < rest.len() && #[trigger] rest[k] <= p < rest[k] + step_after(t);
            assert(m[k + 1] == rest[k]);
        }
    } else {
        assert(p0 != p);
        lemma_scan_covers(c, t, p0 + 1, p);
        assert(m == matches_from(c, t, p0 + 1));
    }
}

/// The matches of a term are an increasing list of occurrences of it, each
/// past the end of the one before, and they cover the text: every occurrence
/// is one of them or starts inside one of them.
pub proof fn lemma_match_offsets_complete(c: Seq<u8>, t: Seq<u8>)
    ensures
        strictly_increasing(match_offsets(c, t)),
        forall|k: int|
            0 <= k < match_offsets(c, t).len() ==> occurs_at(c, t, #[trigger] match_offsets(c, t)[k]),
        forall|k: int|
            0 <= k < match_offsets(c, t).len() - 1 ==> #[trigger] match_offsets(c, t)[k] + step_after(t)
                <= match_offsets(c, t)[k + 1],
        forall|p: int|
            #[trigger] occurs_at(c, t, p) ==> exists|k: int|
                0 <= k < match_offsets(c, t).len() && #[trigger] match_offsets(c, t)[k] <= p
                    < match_offsets(c, t)[k] + step_after(t),
{
    let m = match_offsets(c, t);
    lemma_scan_sound(c, t, 0);
    lemma_scan_apart(c, t, 0);
    assert forall|p: int| #[trigger] occurs_at(c, t, p) implies exists|k: int|
        0 <= k < m.len() && #[trigger] m[k] <= p < m[k] + step_after(t) by {
        reveal(occurs_at);
        lemma_scan_covers(c, t, 0, p);
    }
    assert forall|i: int, j: int| 0 <= i < j < m.len() implies m[i] < m[j] by {
        lemma_gaps_increase(m, step_after(t), i, j);
    }
}

proof fn lemma_gaps_increase(m: Seq<int>, d: int, i: int, j: int)
    requires
        d >= 1,
        forall|k: int| 0 <= k < m.len() - 1 ==> #[trigger] m[k] + d <= m[k + 1],
        0 <= i < j < m.len(),
    ensures
        m[i] < m[j],
    decreases j - i,
{
    assert(m[j - 1] + d <= m[j]);
    if i < j - 1 {
        lemma_gaps_increase(m, d, i, j - 1);
    }
}

/// The cached term after `n` calls of `find_next(search)`.
pub open spec fn term_after(term: Seq<char>, search: Seq<char>, n: nat) -> Seq<char> {
    if n == 0 {
        term
    } else {
        search
    }
}

/// The cached offsets after `n` calls of `find_next(search)` on `text`,
/// starting from `cached` offsets of `term`.
pub open spec fn indices_after(
    text: Seq<char>,
    cached: Seq<int>,
    term: Seq<char>,
    search: Seq<char>,
    n: nat,
) -> Seq<int>
    decreases n,
{
    if n == 0 {
        cached
    } else {
        rotated(
            working_matches(
                text,
                indices_after(text, cached, term, search, (n - 1) as nat),
                term_after(term, search, (n - 1) as nat),
                search,
            ),
        )
    }
}

/// What call `n + 1` of `find_next(search)` returns, from the same start.
pub open spec fn nth_found(
    text: Seq<char>,
    cached: Seq<int>,
    term: Seq<char>,
    search: Seq<char>,
    n: nat,
) -> Option<int> {
    first_of(
        working_matches(
            text,
            indices_after(text, cached, term, search, n),
            term_after(term, search, n),
            search,
        ),
    )
}

proof fn lemma_rotations(
    text: Seq<char>,
    cached: Seq<int>,
    term: Seq<char>,
    search: Seq<char>,
    j: nat,
)
    requires
        cached.len() == 0 || search != term,
        1 <= j <= match_offsets(bytes_of(text), bytes_of(search)).len(),
    ensures
        ({
            let m = match_offsets(bytes_of(text), bytes_of(search));
            indices_after(text, cached, term, search, j) == m.subrange(j as int, m.len() as int)
                + m.subrange(0, j as int)
        }),
    decreases j,
{
    let m = match_offsets(bytes_of(text), bytes_of(search));
    if j == 1 {
        assert(indices_after(text, cached, term, search, 0) == cached);
        assert(rotated(m) =~= m.subrange(1, m.len() as int) + m.subrange(0, 1));
    } else {
        lemma_rotations(text, cached, term, search, (j - 1) as nat);
        let prev = indices_after(text, cached, term, search, (j - 1) as nat);
        assert(prev.len() == m.len());
        assert(working_matches(text, prev, search, search) == prev);
        assert(rotated(prev) =~= m.subrange(j as int, m.len() as int) + m.subrange(0, j as int));
    }
}

/// From a fresh search (nothing cached, or another term cached), the first
/// `k` calls of `find_next` surface the `k` matches once each, in increasing
/// order, and call `k + 1` surfaces the same offset as the first call.
pub proof fn lemma_find_next_cycles(
    text: Seq<char>,
    cached: Seq<int>,
    term: Seq<char>,
    search: Seq<char>,
)
    requires
        cached.len() == 0 || search != term,
    ensures
        ({
            let m = match_offsets(bytes_of(text), bytes_of(search));
            &&& strictly_increasing(m)
            &&& forall|j: nat| j < m.len() ==> #[trigger] nth_found(text, cached, term, search, j) == Some(m[j as int])
            &&& nth_found(text, cached, term, search, m.len()) == nth_found(text, cached, term, search, 0)
        }),
{
    let m = match_offsets(bytes_of(text), bytes_of(search));
    lemma_match_offsets_complete(bytes_of(text), bytes_of(search));
    assert(working_matches(text, cached, term, search) == m);
    assert forall|j: nat| j < m.len() implies #[trigger] nth_found(text, cached, term, search, j) == Some(m[j as int]) by {
        if j > 0 {
            lemma_rotations(text, cached, term, search, j);
            let cur = indices_after(text, cached, term, search, j);
            assert(cur[0] == m[j as int]);
        }
    }
    if m.len() > 0 {
        lemma_rotations(text, cached, term, search, m.len());
        let cur = indices_after(text, cached, term, search, m.len());
        assert(cur =~= m);
    } else {
        assert(indices_after(text, cached, term, search, 0) == cached);
        assert(indices_after(text, cached, term, search, 1) == m);
    }
}

/// Shifting the offsets after `index` up by `amount` and then down by it
/// gives back the original offsets.
pub proof fn lemma_shift_round_trip(s: Seq<int>, index: int, amount: int)
    requires
        0 <= amount,
    ensures
        shifted(shifted(s, index, amount, false), index, amount, true) == s,
{
    assert(shifted(shifted(s, index, amount, false), index, amount, true) =~= s);
}

/// Inserting an offset that is not yet there keeps increasing offsets
/// increasing.
pub proof fn lemma_insert_keeps_order(s: Seq<int>, w: int)
    requires
        strictly_increasing(s),
        !s.contains(w),
    ensures
        strictly_increasing(insert_sorted(s, w)),
        insert_sorted(s, w).to_multiset() == s.to_multiset().insert(w),
    decreases s.len(),
{
    if s.len() == 0 {
        assert(s =~= Seq::<int>::empty());
        assert(insert_sorted(s, w) == seq![w]);
        assert(seq![w] =~= s.push(w));
        assert(s.push(w).to_multiset() =~= s.to_multiset().insert(w)) by {
            broadcast use vstd::seq_lib::group_to_multiset_ensures;
        }
    } else if s[0] > w {
        assert(insert_sorted(s, w) == seq![w] + s);
        assert((seq![w] + s).to_multiset() =~= s.to_multiset().insert(w)) by {
            broadcast use vstd::seq_lib::group_to_multiset_ensures;
            assert(seq![w] + s =~= s.insert(0, w));
        }
    } else {
        let t = s.drop_first();
        assert(!t.contains(w)) by {
            if t.contains(w) {
                let i = choose|i: int| 0 <= i < t.len() && t[i] == w;
                assert(s[i + 1] == w);
            }
        }
        assert(strictly_increasing(t)) by {
            assert forall|i: int, j: int| 0 <= i < j < t.len() implies t[i] < t[j] by {
                assert(s[i + 1] < s[j + 1]);
            }
        }
        lemma_insert_keeps_order(t, w);
        let r = insert_sorted(t, w);
        assert(s[0] < w);
        assert forall|k: int| 0 <= k < r.len() implies s[0] < #[trigger] r[k] by {
            broadcast use vstd::seq_lib::group_to_multiset_ensures;
            assert(r.to_multiset().count(r[k]) > 0);
            if r[k] != w {
                assert(t.to_multiset().count(r[k]) > 0);
                let i = choose|i: int| 0 <= i < t.len() && t[i] == r[k];
                assert(s[i + 1] == r[k]);
            }
        }
        let full = seq![s[0]] + r;
        assert(insert_sorted(s, w) == full);
        assert forall|i: int, j: int| 0 <= i < j < full.len() implies full[i] < full[j] by {
            if i > 0 {
                assert(full[i] == r[i - 1]);
            }
            assert(full[j] == r[j - 1]);
        }
        assert(full.to_multiset() =~= s.to_multiset().insert(w)) by {
            broadcast use vstd::seq_lib::group_to_multiset_ensures;
            assert(full =~= seq![s[0]] + r);
            assert(s =~= seq![s[0]] + t);
            vstd::seq_lib::lemma_multiset_commutative(seq![s[0]], r);
            vstd::seq_lib::lemma_multiset_commutative(seq![s[0]], t);
        }
    }
}

/// The offsets after `insert_in_order` of each of `ws`, in turn.
pub open spec fn insert_all(s: Seq<int>, ws: Seq<int>) -> Seq<int>
    decreases ws.len(),
{
    if ws.len() == 0 {
        s
    } else {
        insert_all(insert_sorted(s, ws[0]), ws.drop_first())
    }
}

/// Any run of insertions of distinct offsets, none of them there before,
/// keeps increasing offsets increasing.
pub proof fn lemma_insertions_keep_order(s: Seq<int>, ws: Seq<int>)
    requires
        strictly_increasing(s),
        ws.no_duplicates(),
        forall|i: int| 0 <= i < ws.len() ==> !s.contains(#[trigger] ws[i]),
    ensures
        strictly_increasing(insert_all(s, ws)),
    decreases ws.len(),
{
    if ws.len() > 0 {
        let w = ws[0];
        let next = insert_sorted(s, w);
        let rest = ws.drop_first();
        lemma_insert_keeps_order(s, w);
        assert forall|i: int| 0 <= i < rest.len() implies !next.contains(#[trigger] rest[i]) by {
            broadcast use vstd::seq_lib::group_to_multiset_ensures;
            assert(rest[i] == ws[i + 1]);
            assert(ws[i + 1] != ws[0]);
            assert(!s.contains(ws[i + 1]));
            assert(s.to_multiset().count(rest[i]) == 0);
            assert(next.to_multiset().count(rest[i]) == 0);
        }
        assert(rest.no_duplicates()) by {
            assert forall|i: int, j: int| 0 <= i < rest.len() && 0 <= j < rest.len() && i != j implies rest[i] != rest[j] by {
                assert(ws[i + 1] != ws[j + 1]);
            }
        }
        lemma_insertions_keep_order(next, rest);
    }
}

proof fn lemma_without_order(s: Seq<int>, w: int)
    requires
        strictly_increasing(s),
    ensures
        strictly_increasing(without(s, w)),
        forall|k: int| 0 <= k < without(s, w).len() ==> s.contains(#[trigger] without(s, w)[k]),
    decreases s.len(),
{
    if s.len() > 0 {
        let init = s.drop_last();
        assert(strictly_increasing(init));
        lemma_without_order(init, w);
        let r = without(init, w);
        if s.last() != w {
            let full = r.push(s.last());
            assert forall|k: int| 0 <= k < full.len() implies s.contains(#[trigger] full[k]) by {
                if k < r.len() {
                    let i = choose|i: int| 0 <= i < init.len() && init[i] == r[k];
                    assert(s[i] == r[k]);
                } else {
                    assert(s[s.len() - 1] == full[k]);
                }
            }
            assert forall|i: int, j: int| 0 <= i < j < full.len() implies full[i] < full[j] by {
                if j == r.len() {
                    let x = choose|x: int| 0 <= x < init.len() && init[x] == r[i];
                    assert(s[x] < s[s.len() - 1]);
                }
            }
        } else {
            assert forall|k: int| 0 <= k < r.len() implies s.contains(#[trigger] r[k]) by {
                let i = choose|i: int| 0 <= i < init.len() && init[i] == r[k];
                assert(s[i] == r[k]);
            }
        }
    }
}

/// Removing every copy of an offset, dropping the last offset, and dropping
/// all of them each keep increasing offsets increasing.
pub proof fn lemma_removals_keep_order(s: Seq<int>, w: int)
    requires
        strictly_increasing(s),
    ensures
        strictly_increasing(without(s, w)),
        strictly_increasing(
            if s.len() == 0 {
                s
            } else {
                s.drop_last()
            },
        ),
        strictly_increasing(Seq::<int>::empty()),
{
    lemma_without_order(s, w);
}

} // verus!

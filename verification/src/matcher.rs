//! The match engine: ranks the candidate index against a query string.
//!
//! A non-empty query matches a candidate when its characters occur, in order
//! and up to ASCII case, in the candidate's display string. The engine reports
//! the leftmost such embedding as highlight positions, scores a match by how
//! contiguous its positions are, orders matches by descending score with ties
//! broken by position in the candidate list, and caps the result length.

use vstd::prelude::*;
use crate::text::chars_eq_folded;
use crate::text::chars_vec;
use crate::text::fold_char;

verus! {

/// At most this many matches are returned for a non-empty query.
pub const MAX_MATCHES: usize = 100;

/// A candidate for matching: a stable index into the candidate list paired
/// with the display string shown to the user.
pub struct Candidate {
    pub id: usize,
    pub string: String,
}

/// A ranked match: the candidate it came from, a copy of its display string,
/// the character offsets that satisfied the query, and a score.
pub struct StringMatch {
    pub candidate_id: usize,
    pub string: String,
    pub positions: Vec<usize>,
    pub score: usize,
}

/// The mathematical value of a `StringMatch`.
#[verifier::ext_equal]
pub ghost struct MatchView {
    pub candidate_id: int,
    pub string: Seq<char>,
    pub positions: Seq<int>,
    pub score: int,
}

impl View for StringMatch {
    type V = MatchView;

    open spec fn view(&self) -> MatchView {
        MatchView {
            candidate_id: self.candidate_id as int,
            string: self.string@,
            positions: ints_of(self.positions@),
            score: self.score as int,
        }
    }
}

/// A sequence of character offsets as mathematical integers.
pub open spec fn ints_of(ps: Seq<usize>) -> Seq<int> {
    ps.map_values(|p: usize| p as int)
}

/// The views of a sequence of matches.
pub open spec fn match_views(ms: Seq<StringMatch>) -> Seq<MatchView> {
    ms.map_values(|m: StringMatch| m@)
}

/// The least offset `p >= j` at which `s` folds equal to `q0`, or `s.len()`
/// when there is none.
pub open spec fn find_from(q0: char, s: Seq<char>, j: int) -> int
    decreases s.len() - j,
{
    if j >= s.len() {
        s.len() as int
    } else if fold_char(s[j]) == fold_char(q0) {
        j
    } else {
        find_from(q0, s, j + 1)
    }
}

/// The leftmost case-folded embedding of `q[qi..]` into `s` using offsets
/// `>= j`, or `None` when the remaining query does not embed.
pub open spec fn greedy_from(q: Seq<char>, s: Seq<char>, qi: int, j: int) -> Option<Seq<int>>
    decreases q.len() - qi,
{
    if qi >= q.len() {
        Some(Seq::empty())
    } else {
        let p = find_from(q[qi], s, j);
        if p >= s.len() {
            None
        } else {
            match greedy_from(q, s, qi + 1, p + 1) {
                Some(rest) => Some(seq![p] + rest),
                None => None,
            }
        }
    }
}

/// The highlight positions the matcher reports for query `q` against display
/// string `s`: the leftmost case-folded embedding, or `None` when `q` does
/// not match `s`.
pub open spec fn match_positions(q: Seq<char>, s: Seq<char>) -> Option<Seq<int>> {
    greedy_from(q, s, 0, 0)
}

/// How many neighbouring pairs of positions are adjacent offsets.
pub open spec fn adjacent_pairs(ps: Seq<int>) -> int
    decreases ps.len(),
{
    if ps.len() < 2 {
        0
    } else {
        adjacent_pairs(ps.drop_last()) + (if ps[ps.len() - 1] == ps[ps.len() - 2] + 1 {
            1int
        } else {
            0int
        })
    }
}

/// The score of a match: one point for matching at all and one for every
/// adjacent pair of highlight positions, so that contiguous runs of the query
/// rank above fragmented ones.
pub open spec fn score_of(ps: Seq<int>) -> int {
    1 + adjacent_pairs(ps)
}

/// Joins the positions already fixed with the outcome for the rest of the
/// query.
pub open spec fn joined(prefix: Seq<int>, rest: Option<Seq<int>>) -> Option<Seq<int>> {
    match rest {
        Some(r) => Some(prefix + r),
        None => None,
    }
}

proof fn lemma_greedy_skip(q: Seq<char>, s: Seq<char>, qi: int, j: int)
    requires
        0 <= qi < q.len(),
        0 <= j < s.len(),
        fold_char(s[j]) != fold_char(q[qi]),
    ensures
        greedy_from(q, s, qi, j) == greedy_from(q, s, qi, j + 1),
{
    assert(find_from(q[qi], s, j) == find_from(q[qi], s, j + 1));
}

proof fn lemma_greedy_hit(q: Seq<char>, s: Seq<char>, qi: int, j: int)
    requires
        0 <= qi < q.len(),
        0 <= j < s.len(),
        fold_char(s[j]) == fold_char(q[qi]),
    ensures
        greedy_from(q, s, qi, j) == joined(seq![j], greedy_from(q, s, qi + 1, j + 1)),
{
    assert(find_from(q[qi], s, j) == j);
}

proof fn lemma_greedy_exhausted(q: Seq<char>, s: Seq<char>, qi: int, j: int)
    requires
        0 <= qi < q.len(),
        j >= s.len(),
    ensures
        greedy_from(q, s, qi, j) is None,
{
    assert(find_from(q[qi], s, j) == s.len());
}

proof fn lemma_joined_push(prefix: Seq<int>, j: int, rest: Option<Seq<int>>)
    ensures
        joined(prefix, joined(seq![j], rest)) == joined(prefix.push(j), rest),
{
    match rest {
        Some(r) => {
            assert(prefix + (seq![j] + r) =~= prefix.push(j) + r);
        },
        None => {},
    }
}

/// The leftmost case-folded embedding of `q` into `s`, or `None` when `q`
/// does not match `s`. The position vector, when returned, is exactly as long
/// as the query.
pub fn greedy_positions(q: &Vec<char>, s: &Vec<char>) -> (r: Option<Vec<usize>>)
    ensures
        match r {
            Some(ps) => {
                &&& match_positions(q@, s@) == Some(ints_of(ps@))
                &&& ps@.len() == q@.len()
            },
            None => match_positions(q@, s@) is None,
        },
{
    let qlen = q.len();
    let slen = s.len();
    let mut qi: usize = 0;
    let mut j: usize = 0;
    let mut pos: Vec<usize> = Vec::new();
    proof {
        match greedy_from(q@, s@, 0, 0) {
            Some(r0) => {
                assert(Seq::<int>::empty() + r0 =~= r0);
            },
            None => {},
        }
    }
    while qi < qlen
        invariant
            qi <= qlen,
            j <= slen,
            qlen == q@.len(),
            slen == s@.len(),
            pos@.len() == qi,
            match_positions(q@, s@) == joined(ints_of(pos@), greedy_from(q@, s@, qi as int, j as int)),
        decreases slen - j,
    {
        if j >= slen {
            proof {
                lemma_greedy_exhausted(q@, s@, qi as int, j as int);
            }
            return None;
        }
        if chars_eq_folded(q[qi], s[j]) {
            proof {
                lemma_greedy_hit(q@, s@, qi as int, j as int);
                lemma_joined_push(ints_of(pos@), j as int, greedy_from(q@, s@, qi + 1, j + 1));
                assert(ints_of(pos@.push(j)) =~= ints_of(pos@).push(j as int));
            }
            pos.push(j);
            qi = qi + 1;
        } else {
            proof {
                lemma_greedy_skip(q@, s@, qi as int, j as int);
            }
        }
        j = j + 1;
    }
    proof {
        assert(greedy_from(q@, s@, qi as int, j as int) == Some(Seq::<int>::empty()));
        assert(ints_of(pos@) + Seq::<int>::empty() =~= ints_of(pos@));
    }
    Some(pos)
}

/// The match carrying the given positions for one candidate.
pub open spec fn match_view_of(c: Candidate, ps: Seq<int>) -> MatchView {
    MatchView { candidate_id: c.id as int, string: c.string@, positions: ps, score: score_of(ps) }
}

/// Every matching candidate, in candidate-list order, with its positions and
/// score.
pub open spec fn all_matches(q: Seq<char>, cs: Seq<Candidate>) -> Seq<MatchView>
    decreases cs.len(),
{
    if cs.len() == 0 {
        Seq::empty()
    } else {
        all_matches(q, cs.drop_last()) + (match match_positions(q, cs.last().string@) {
            Some(ps) => seq![match_view_of(cs.last(), ps)],
            None => Seq::empty(),
        })
    }
}

/// The matches whose score is exactly `s`, in their original order.
pub open spec fn with_score(ms: Seq<MatchView>, s: int) -> Seq<MatchView>
    decreases ms.len(),
{
    if ms.len() == 0 {
        Seq::empty()
    } else {
        with_score(ms.drop_last(), s) + (if ms.last().score == s {
            seq![ms.last()]
        } else {
            Seq::<MatchView>::empty()
        })
    }
}

/// The matches ordered by score descending from `hi` down to `lo + 1`, ties
/// kept in their original order.
pub open spec fn ranked_range(ms: Seq<MatchView>, hi: int, lo: int) -> Seq<MatchView>
    decreases hi - lo,
{
    if hi <= lo {
        Seq::empty()
    } else {
        with_score(ms, hi) + ranked_range(ms, hi - 1, lo)
    }
}

/// The first `MAX_MATCHES` entries of a match list.
pub open spec fn cap(ms: Seq<MatchView>) -> Seq<MatchView> {
    if ms.len() > MAX_MATCHES as int {
        ms.take(MAX_MATCHES as int)
    } else {
        ms
    }
}

/// One match per candidate, in candidate-list order, unfiltered, with no
/// highlights and score zero.
pub open spec fn empty_query_matches(cs: Seq<Candidate>) -> Seq<MatchView> {
    Seq::new(
        cs.len(),
        |i: int| MatchView { candidate_id: i, string: cs[i].string@, positions: Seq::empty(), score: 0 },
    )
}

/// What one evaluation of the match engine returns: for an empty query, one
/// zero-scored match per candidate in order; otherwise the matching
/// candidates by descending score, ties by candidate-list order, capped at
/// `MAX_MATCHES`.
pub open spec fn evaluation(q: Seq<char>, cs: Seq<Candidate>) -> Seq<MatchView> {
    if q.len() == 0 {
        empty_query_matches(cs)
    } else {
        cap(ranked_range(all_matches(q, cs), q.len() as int, 0))
    }
}

/// The score of a position vector, computed as `score_of` states it.
pub fn score_positions(ps: &Vec<usize>) -> (r: usize)
    ensures
        r == score_of(ints_of(ps@)),
        r >= 1,
{
    let len = ps.len();
    if len == 0 {
        return 1;
    }
    let mut cnt: usize = 0;
    let mut i: usize = 1;
    while i < len
        invariant
            1 <= i <= len,
            len == ps@.len(),
            cnt <= i - 1,
            cnt == adjacent_pairs(ints_of(ps@).take(i as int)),
        decreases len - i,
    {
        proof {
            assert(ints_of(ps@).take(i + 1).drop_last() =~= ints_of(ps@).take(i as int));
        }
        if ps[i - 1] < ps[i] && ps[i] - ps[i - 1] == 1 {
            cnt = cnt + 1;
        }
        i = i + 1;
    }
    proof {
        assert(ints_of(ps@).take(len as int) =~= ints_of(ps@));
    }
    1 + cnt
}

/// A fresh vector holding the same offsets.
fn copy_positions(ps: &Vec<usize>) -> (r: Vec<usize>)
    ensures
        r@ == ps@,
{
    let mut r: Vec<usize> = Vec::new();
    let mut i: usize = 0;
    while i < ps.len()
        invariant
            i <= ps@.len(),
            r@ == ps@.take(i as int),
        decreases ps@.len() - i,
    {
        r.push(ps[i]);
        proof {
            assert(ps@.take(i + 1) =~= ps@.take(i as int).push(ps@[i as int]));
        }
        i = i + 1;
    }
    proof {
        assert(ps@.take(ps@.len() as int) =~= ps@);
    }
    r
}

impl StringMatch {
    /// A fresh copy with the same mathematical value.
    pub fn duplicate(&self) -> (r: StringMatch)
        ensures
            r@ == self@,
    {
        StringMatch {
            candidate_id: self.candidate_id,
            string: self.string.clone(),
            positions: copy_positions(&self.positions),
            score: self.score,
        }
    }
}

proof fn lemma_ranked_range_snoc(ms: Seq<MatchView>, hi: int, lo: int)
    requires
        hi > lo,
    ensures
        ranked_range(ms, hi, lo) == ranked_range(ms, hi, lo + 1) + with_score(ms, lo + 1),
    decreases hi - lo,
{
    if hi == lo + 1 {
        assert(ranked_range(ms, hi, lo) == with_score(ms, hi) + ranked_range(ms, lo, lo));
        assert(with_score(ms, hi) + Seq::<MatchView>::empty() =~= with_score(ms, hi));
        assert(Seq::<MatchView>::empty() + with_score(ms, hi) =~= with_score(ms, hi));
    } else {
        lemma_ranked_range_snoc(ms, hi - 1, lo);
        assert(with_score(ms, hi) + (ranked_range(ms, hi - 1, lo + 1) + with_score(ms, lo + 1))
            =~= (with_score(ms, hi) + ranked_range(ms, hi - 1, lo + 1)) + with_score(ms, lo + 1));
    }
}

proof fn lemma_cap_snoc(ms: Seq<MatchView>, m: MatchView)
    ensures
        ms.len() < MAX_MATCHES as int ==> cap(ms.push(m)) == cap(ms).push(m),
        ms.len() >= MAX_MATCHES as int ==> cap(ms.push(m)) == cap(ms),
{
    if ms.len() >= MAX_MATCHES as int {
        assert(ms.push(m).take(MAX_MATCHES as int) =~= ms.take(MAX_MATCHES as int));
        if ms.len() == MAX_MATCHES as int {
            assert(ms.take(MAX_MATCHES as int) =~= ms);
        }
    }
}

proof fn lemma_find_from_props(q0: char, s: Seq<char>, j: int)
    requires
        0 <= j <= s.len(),
    ensures
        j <= find_from(q0, s, j) <= s.len(),
        find_from(q0, s, j) < s.len() ==> fold_char(s[find_from(q0, s, j)]) == fold_char(q0),
    decreases s.len() - j,
{
    if j < s.len() && fold_char(s[j]) != fold_char(q0) {
        lemma_find_from_props(q0, s, j + 1);
    }
}

proof fn lemma_greedy_witness(q: Seq<char>, s: Seq<char>, qi: int, j: int, ps: Seq<int>)
    requires
        0 <= qi <= q.len(),
        0 <= j <= s.len(),
        greedy_from(q, s, qi, j) == Some(ps),
    ensures
        ps.len() == q.len() - qi,
        forall|k: int| 0 <= k < ps.len() ==> j <= #[trigger] ps[k] < s.len(),
        forall|k: int| 0 <= k < ps.len() - 1 ==> #[trigger] ps[k] < ps[k + 1],
        forall|k: int| 0 <= k < ps.len() ==> fold_char(s[#[trigger] ps[k]]) == fold_char(q[qi + k]),
    decreases q.len() - qi,
{
    if qi < q.len() {
        let p = find_from(q[qi], s, j);
        lemma_find_from_props(q[qi], s, j);
        let rest = greedy_from(q, s, qi + 1, p + 1)->Some_0;
        lemma_greedy_witness(q, s, qi + 1, p + 1, rest);
        assert(ps == seq![p] + rest);
        assert(ps[0] == p);
        assert(forall|k: int| 1 <= k < ps.len() ==> #[trigger] ps[k] == rest[k - 1]);
        assert forall|k: int| 0 <= k < ps.len() implies fold_char(s[#[trigger] ps[k]])
            == fold_char(q[qi + k]) by {
            if k >= 1 {
                assert(fold_char(s[rest[k - 1]]) == fold_char(q[qi + 1 + (k - 1)]));
            }
        }
    }
}

/// Whether `m` is the match the engine forms for some candidate in the list.
pub open spec fn from_candidate(q: Seq<char>, cs: Seq<Candidate>, m: MatchView) -> bool {
    exists|i: int|
        0 <= i < cs.len() && match_positions(q, (#[trigger] cs[i]).string@) == Some(m.positions)
            && m == match_view_of(cs[i], m.positions)
}

proof fn lemma_with_score_elem(ms: Seq<MatchView>, s: int, m: MatchView)
    requires
        with_score(ms, s).contains(m),
    ensures
        ms.contains(m),
        m.score == s,
    decreases ms.len(),
{
    let w = with_score(ms, s);
    let i = choose|i: int| 0 <= i < w.len() && w[i] == m;
    let left = with_score(ms.drop_last(), s);
    if i < left.len() {
        assert(left[i] == m);
        assert(left.contains(m));
        lemma_with_score_elem(ms.drop_last(), s, m);
        let t = choose|t: int| 0 <= t < ms.drop_last().len() && ms.drop_last()[t] == m;
        assert(ms[t] == m);
    } else {
        assert(m == ms.last());
    }
}

proof fn lemma_ranked_range_elem(ms: Seq<MatchView>, hi: int, lo: int, m: MatchView)
    requires
        ranked_range(ms, hi, lo).contains(m),
    ensures
        ms.contains(m),
    decreases hi - lo,
{
    let r = ranked_range(ms, hi, lo);
    let i = choose|i: int| 0 <= i < r.len() && r[i] == m;
    if hi <= lo {
        assert(false);
    } else {
        let w = with_score(ms, hi);
        if i < w.len() {
            assert(w[i] == m);
            assert(w.contains(m));
            lemma_with_score_elem(ms, hi, m);
        } else {
            assert(ranked_range(ms, hi - 1, lo)[i - w.len()] == m);
            assert(ranked_range(ms, hi - 1, lo).contains(m));
            lemma_ranked_range_elem(ms, hi - 1, lo, m);
        }
    }
}

proof fn lemma_cap_elem(ms: Seq<MatchView>, m: MatchView)
    requires
        cap(ms).contains(m),
    ensures
        ms.contains(m),
{
    let c = cap(ms);
    let i = choose|i: int| 0 <= i < c.len() && c[i] == m;
    assert(ms[i] == m);
}

proof fn lemma_all_matches_elem(q: Seq<char>, cs: Seq<Candidate>, m: MatchView)
    requires
        all_matches(q, cs).contains(m),
    ensures
        from_candidate(q, cs, m),
    decreases cs.len(),
{
    let a = all_matches(q, cs);
    let i = choose|i: int| 0 <= i < a.len() && a[i] == m;
    let left = all_matches(q, cs.drop_last());
    if i < left.len() {
        assert(left[i] == m);
        assert(left.contains(m));
        lemma_all_matches_elem(q, cs.drop_last(), m);
        let t = choose|t: int|
            0 <= t < cs.drop_last().len() && match_positions(q, cs.drop_last()[t].string@) == Some(
                m.positions,
            ) && m == match_view_of(cs.drop_last()[t], m.positions);
        assert(cs[t] == cs.drop_last()[t]);
    } else {
        let ps = match_positions(q, cs.last().string@)->Some_0;
        assert(m == match_view_of(cs.last(), ps));
        assert(cs[cs.len() - 1] == cs.last());
    }
}

/// Every match an evaluation of a non-empty query returns is formed from a
/// candidate in the list, with the positions the matcher reports for it.
pub proof fn lemma_evaluation_from_candidates(q: Seq<char>, cs: Seq<Candidate>, m: MatchView)
    requires
        q.len() > 0,
        evaluation(q, cs).contains(m),
    ensures
        from_candidate(q, cs, m),
{
    let ms = all_matches(q, cs);
    lemma_cap_elem(ranked_range(ms, q.len() as int, 0), m);
    lemma_ranked_range_elem(ms, q.len() as int, 0, m);
    lemma_all_matches_elem(q, cs, m);
}

/// For any non-empty query, every returned match highlights exactly one
/// position per query character; the positions are strictly increasing
/// offsets into the match's display string, and the characters there equal
/// the query's characters, in order, up to ASCII case.
pub proof fn lemma_match_highlights_query(q: Seq<char>, cs: Seq<Candidate>, m: MatchView)
    requires
        q.len() > 0,
        evaluation(q, cs).contains(m),
    ensures
        m.positions.len() == q.len(),
        forall|k: int| 0 <= k < m.positions.len() ==> 0 <= #[trigger] m.positions[k] < m.string.len(),
        forall|k: int| 0 <= k < m.positions.len() - 1 ==> #[trigger] m.positions[k] < m.positions[k
            + 1],
        forall|k: int|
            0 <= k < m.positions.len() ==> fold_char(m.string[#[trigger] m.positions[k]])
                == fold_char(q[k]),
{
    lemma_evaluation_from_candidates(q, cs, m);
    let i = choose|i: int|
        0 <= i < cs.len() && match_positions(q, (#[trigger] cs[i]).string@) == Some(m.positions)
            && m == match_view_of(cs[i], m.positions);
    lemma_greedy_witness(q, cs[i].string@, 0, 0, m.positions);
}

proof fn lemma_adjacent_pairs_bounds(ps: Seq<int>)
    ensures
        0 <= adjacent_pairs(ps),
        ps.len() >= 1 ==> adjacent_pairs(ps) <= ps.len() - 1,
    decreases ps.len(),
{
    if ps.len() >= 2 {
        lemma_adjacent_pairs_bounds(ps.drop_last());
    }
}

proof fn lemma_all_matches_has(q: Seq<char>, cs: Seq<Candidate>, i: int)
    requires
        0 <= i < cs.len(),
        match_positions(q, cs[i].string@) is Some,
    ensures
        all_matches(q, cs).contains(
            match_view_of(cs[i], match_positions(q, cs[i].string@)->Some_0),
        ),
    decreases cs.len(),
{
    let m = match_view_of(cs[i], match_positions(q, cs[i].string@)->Some_0);
    let a = all_matches(q, cs);
    let left = all_matches(q, cs.drop_last());
    if i == cs.len() - 1 {
        assert(cs.last() == cs[i]);
        assert(a[left.len() as int] == m);
    } else {
        assert(cs.drop_last()[i] == cs[i]);
        lemma_all_matches_has(q, cs.drop_last(), i);
        let t = choose|t: int| 0 <= t < left.len() && left[t] == m;
        assert(a[t] == m);
    }
}

proof fn lemma_with_score_has(ms: Seq<MatchView>, s: int, m: MatchView)
    requires
        ms.contains(m),
        m.score == s,
    ensures
        with_score(ms, s).contains(m),
    decreases ms.len(),
{
    let t = choose|t: int| 0 <= t < ms.len() && ms[t] == m;
    let w = with_score(ms, s);
    let left = with_score(ms.drop_last(), s);
    if t == ms.len() - 1 {
        assert(w[left.len() as int] == m);
    } else {
        assert(ms.drop_last()[t] == m);
        assert(ms.drop_last().contains(m));
        lemma_with_score_has(ms.drop_last(), s, m);
        let u = choose|u: int| 0 <= u < left.len() && left[u] == m;
        assert(w[u] == m);
    }
}

proof fn lemma_ranked_range_has(ms: Seq<MatchView>, hi: int, lo: int, m: MatchView)
    requires
        ms.contains(m),
        lo < m.score <= hi,
    ensures
        ranked_range(ms, hi, lo).contains(m),
    decreases hi - lo,
{
    let r = ranked_range(ms, hi, lo);
    let w = with_score(ms, hi);
    if m.score == hi {
        lemma_with_score_has(ms, hi, m);
        let u = choose|u: int| 0 <= u < w.len() && w[u] == m;
        assert(r[u] == m);
    } else {
        lemma_ranked_range_has(ms, hi - 1, lo, m);
        let inner = ranked_range(ms, hi - 1, lo);
        let u = choose|u: int| 0 <= u < inner.len() && inner[u] == m;
        assert(r[w.len() + u] == m);
    }
}

/// For a non-empty query, no matching candidate is filtered out: whenever the
/// returned list was not cut off at the cap, every candidate the query
/// matches appears, as the match the engine forms for it.
pub proof fn lemma_no_match_dropped(q: Seq<char>, cs: Seq<Candidate>, i: int)
    requires
        q.len() > 0,
        evaluation(q, cs).len() < MAX_MATCHES as int,
        0 <= i < cs.len(),
        match_positions(q, cs[i].string@) is Some,
    ensures
        evaluation(q, cs).contains(
            match_view_of(cs[i], match_positions(q, cs[i].string@)->Some_0),
        ),
{
    let ps = match_positions(q, cs[i].string@)->Some_0;
    let m = match_view_of(cs[i], ps);
    let ms = all_matches(q, cs);
    lemma_all_matches_has(q, cs, i);
    lemma_greedy_witness(q, cs[i].string@, 0, 0, ps);
    lemma_adjacent_pairs_bounds(ps);
    assert(1 <= m.score <= q.len());
    lemma_ranked_range_has(ms, q.len() as int, 0, m);
    let r = ranked_range(ms, q.len() as int, 0);
    if r.len() > MAX_MATCHES as int {
        assert(cap(r).len() == MAX_MATCHES as int);
    }
    assert(cap(r) == r);
}

/// Whether candidate ids increase strictly along the match list.
pub open spec fn ascending_ids(ms: Seq<MatchView>) -> bool {
    forall|a: int, b: int| 0 <= a < b < ms.len() ==> ms[a].candidate_id < ms[b].candidate_id
}

proof fn lemma_with_score_scores(ms: Seq<MatchView>, s: int)
    ensures
        forall|t: int| 0 <= t < with_score(ms, s).len() ==> (#[trigger] with_score(ms, s)[t]).score
            == s,
    decreases ms.len(),
{
    if ms.len() > 0 {
        lemma_with_score_scores(ms.drop_last(), s);
        let left = with_score(ms.drop_last(), s);
        assert(forall|t: int| 0 <= t < left.len() ==> with_score(ms, s)[t] == left[t]);
    }
}

proof fn lemma_with_score_keeps_ascending(ms: Seq<MatchView>, s: int)
    requires
        ascending_ids(ms),
    ensures
        ascending_ids(with_score(ms, s)),
        with_score(ms, s).len() > 0 && ms.len() > 0 ==> with_score(ms, s).last().candidate_id
            <= ms.last().candidate_id,
    decreases ms.len(),
{
    if ms.len() > 0 {
        lemma_with_score_keeps_ascending(ms.drop_last(), s);
    }
}

proof fn lemma_ranked_range_sorted(ms: Seq<MatchView>, hi: int, lo: int)
    requires
        ascending_ids(ms),
    ensures
        forall|t: int| 0 <= t < ranked_range(ms, hi, lo).len() ==> lo < (#[trigger] ranked_range(
            ms,
            hi,
            lo,
        )[t]).score <= hi,
        forall|a: int, b: int|
            0 <= a < b < ranked_range(ms, hi, lo).len() ==> (ranked_range(ms, hi, lo)[a].score
                > ranked_range(ms, hi, lo)[b].score || (ranked_range(ms, hi, lo)[a].score
                == ranked_range(ms, hi, lo)[b].score && ranked_range(ms, hi, lo)[a].candidate_id
                < ranked_range(ms, hi, lo)[b].candidate_id)),
    decreases hi - lo,
{
    if hi > lo {
        let w = with_score(ms, hi);
        let rest = ranked_range(ms, hi - 1, lo);
        lemma_with_score_scores(ms, hi);
        lemma_with_score_keeps_ascending(ms, hi);
        lemma_ranked_range_sorted(ms, hi - 1, lo);
        assert(forall|t: int| 0 <= t < w.len() ==> ranked_range(ms, hi, lo)[t] == w[t]);
        assert(forall|t: int|
            w.len() <= t < ranked_range(ms, hi, lo).len() ==> ranked_range(ms, hi, lo)[t] == rest[t
                - w.len()]);
    }
}

proof fn lemma_all_matches_ascending(q: Seq<char>, cs: Seq<Candidate>)
    requires
        forall|i: int| 0 <= i < cs.len() ==> (#[trigger] cs[i]).id == i,
    ensures
        ascending_ids(all_matches(q, cs)),
        forall|t: int| 0 <= t < all_matches(q, cs).len() ==> (#[trigger] all_matches(
            q,
            cs,
        )[t]).candidate_id < cs.len(),
    decreases cs.len(),
{
    if cs.len() > 0 {
        assert(forall|i: int| 0 <= i < cs.drop_last().len() ==> (#[trigger] cs.drop_last()[i]).id
            == i);
        lemma_all_matches_ascending(q, cs.drop_last());
        let left = all_matches(q, cs.drop_last());
        assert(forall|t: int| 0 <= t < left.len() ==> all_matches(q, cs)[t] == left[t]);
    }
}

/// For a non-empty query over a candidate list whose ids are its positions,
/// the matches come sorted by descending score, ties broken by ascending
/// candidate id — the order is deterministic.
pub proof fn lemma_matches_sorted(q: Seq<char>, cs: Seq<Candidate>)
    requires
        q.len() > 0,
        forall|i: int| 0 <= i < cs.len() ==> (#[trigger] cs[i]).id == i,
    ensures
        forall|a: int, b: int|
            0 <= a < b < evaluation(q, cs).len() ==> (evaluation(q, cs)[a].score > evaluation(
                q,
                cs,
            )[b].score || (evaluation(q, cs)[a].score == evaluation(q, cs)[b].score && evaluation(
                q,
                cs,
            )[a].candidate_id < evaluation(q, cs)[b].candidate_id)),
{
    let ms = all_matches(q, cs);
    let r = ranked_range(ms, q.len() as int, 0);
    lemma_all_matches_ascending(q, cs);
    lemma_ranked_range_sorted(ms, q.len() as int, 0);
    assert(forall|t: int| 0 <= t < evaluation(q, cs).len() ==> evaluation(q, cs)[t] == r[t]);
}

/// An empty query returns exactly one match per candidate, in candidate-list
/// order, each with no highlight positions and score zero.
pub proof fn lemma_empty_query(q: Seq<char>, cs: Seq<Candidate>)
    requires
        q.len() == 0,
    ensures
        evaluation(q, cs).len() == cs.len(),
        forall|i: int|
            0 <= i < cs.len() ==> {
                let m = #[trigger] evaluation(q, cs)[i];
                m.candidate_id == i && m.string == cs[i].string@ && m.positions.len() == 0
                    && m.score == 0
            },
{
}

/// The match list never exceeds `MAX_MATCHES` entries. The one exception is
/// an empty query, which returns one match per candidate however many there
/// are; an empty query over more than `MAX_MATCHES` candidates is therefore
/// excluded here.
pub proof fn lemma_match_count_bounded(q: Seq<char>, cs: Seq<Candidate>)
    requires
        q.len() > 0 || cs.len() <= MAX_MATCHES as int,
    ensures
        evaluation(q, cs).len() <= MAX_MATCHES as int,
{
}

/// When candidate ids are list positions, every match of an evaluation names
/// a candidate inside the list.
pub proof fn lemma_evaluation_ids(q: Seq<char>, cs: Seq<Candidate>)
    requires
        forall|i: int| 0 <= i < cs.len() ==> (#[trigger] cs[i]).id == i,
    ensures
        forall|m: MatchView|
            #[trigger] evaluation(q, cs).contains(m) ==> 0 <= m.candidate_id < cs.len(),
{
    assert forall|m: MatchView| #[trigger] evaluation(q, cs).contains(m) implies 0 <= m.candidate_id
        < cs.len() by {
        if q.len() == 0 {
            let i = choose|i: int|
                0 <= i < evaluation(q, cs).len() && evaluation(q, cs)[i] == m;
            assert(m.candidate_id == i);
        } else {
            lemma_evaluation_from_candidates(q, cs, m);
        }
    }
}

/// Evaluates the query against the candidate list: the match engine's one
/// entry point, returning exactly what `evaluation` states.
pub fn evaluate(query: &str, candidates: &Vec<Candidate>) -> (r: Vec<StringMatch>)
    ensures
        match_views(r@) == evaluation(query@, candidates@),
{
    let qchars = chars_vec(query);
    let qlen = qchars.len();
    if qlen == 0 {
        let mut out: Vec<StringMatch> = Vec::new();
        let mut i: usize = 0;
        while i < candidates.len()
            invariant
                i <= candidates@.len(),
                match_views(out@) == empty_query_matches(candidates@.take(i as int)),
            decreases candidates@.len() - i,
        {
            let c = &candidates[i];
            let m = StringMatch {
                candidate_id: i,
                string: c.string.clone(),
                positions: Vec::new(),
                score: 0,
            };
            proof {
                assert(ints_of(Seq::<usize>::empty()) =~= Seq::<int>::empty());
            }
            let ghost prev = out@;
            out.push(m);
            proof {
                assert(out@ == prev.push(m));
                assert(match_views(prev) == empty_query_matches(candidates@.take(i as int)));
                assert(empty_query_matches(candidates@.take(i as int)).len() == i);
                assert(prev.len() == i);
                assert(forall|t: int| 0 <= t < i ==> match_views(out@)[t] == match_views(prev)[t]);
                let ghost target = empty_query_matches(candidates@.take(i + 1));
                assert(m@ =~~= target[i as int]);
                assert(forall|t: int| 0 <= t < i ==> target[t] == empty_query_matches(
                    candidates@.take(i as int),
                )[t]);
                assert(match_views(out@) =~~= target);
            }
            i = i + 1;
        }
        proof {
            assert(candidates@.take(candidates@.len() as int) =~= candidates@);
        }
        out
    } else {
        // First pass: every matching candidate, in candidate-list order.
        let mut all: Vec<StringMatch> = Vec::new();
        let mut i: usize = 0;
        while i < candidates.len()
            invariant
                i <= candidates@.len(),
                qchars@ == query@,
                match_views(all@) == all_matches(query@, candidates@.take(i as int)),
            decreases candidates@.len() - i,
        {
            let c = &candidates[i];
            let schars = chars_vec(c.string.as_str());
            proof {
                assert(candidates@.take(i + 1).drop_last() =~= candidates@.take(i as int));
                assert(candidates@.take(i + 1).last() == candidates@[i as int]);
            }
            match greedy_positions(&qchars, &schars) {
                Some(ps) => {
                    let score = score_positions(&ps);
                    let m = StringMatch {
                        candidate_id: c.id,
                        string: c.string.clone(),
                        positions: ps,
                        score,
                    };
                    proof {
                        assert(m@ == match_view_of(
                            candidates@[i as int],
                            match_positions(query@, candidates@[i as int].string@)->Some_0,
                        ));
                    }
                    all.push(m);
                    proof {
                        assert(match_views(all@) =~= all_matches(query@, candidates@.take(i + 1)));
                    }
                },
                None => {
                    proof {
                        assert(all_matches(query@, candidates@.take(i + 1)) =~= all_matches(
                            query@,
                            candidates@.take(i as int),
                        ));
                    }
                },
            }
            i = i + 1;
        }
        proof {
            assert(candidates@.take(candidates@.len() as int) =~= candidates@);
        }
        // Second pass: emit by descending score, ties in candidate-list
        // order, stopping at the cap.
        let ghost msv = match_views(all@);
        let mut out: Vec<StringMatch> = Vec::new();
        let mut s: usize = qlen;
        proof {
            assert(cap(ranked_range(msv, qlen as int, qlen as int)) =~= Seq::<MatchView>::empty());
        }
        while s >= 1
            invariant
                s <= qlen,
                qlen == query@.len(),
                msv == match_views(all@),
                match_views(out@) == cap(ranked_range(msv, qlen as int, s as int)),
            decreases s,
        {
            let ghost done = ranked_range(msv, qlen as int, s as int);
            let mut k: usize = 0;
            while k < all.len()
                invariant
                    k <= all@.len(),
                    1 <= s <= qlen,
                    msv == match_views(all@),
                    done == ranked_range(msv, qlen as int, s as int),
                    match_views(out@) == cap(done + with_score(msv.take(k as int), s as int)),
                decreases all@.len() - k,
            {
                let ghost sofar = done + with_score(msv.take(k as int), s as int);
                proof {
                    assert(msv.take(k + 1).drop_last() =~= msv.take(k as int));
                    assert(msv.take(k + 1).last() == msv[k as int]);
                    assert(msv[k as int] == all@[k as int]@);
                }
                if all[k].score == s {
                    proof {
                        assert(with_score(msv.take(k + 1), s as int) == with_score(
                            msv.take(k as int),
                            s as int,
                        ) + seq![msv[k as int]]);
                        assert(done + with_score(msv.take(k + 1), s as int) =~= sofar.push(
                            msv[k as int],
                        ));
                        lemma_cap_snoc(sofar, msv[k as int]);
                    }
                    if out.len() < MAX_MATCHES {
                        let m = all[k].duplicate();
                        out.push(m);
                        proof {
                            assert(match_views(out@) =~= cap(sofar).push(msv[k as int]));
                        }
                    } else {
                        proof {
                            assert(match_views(out@).len() == out@.len());
                            assert(cap(sofar).len() >= MAX_MATCHES as int);
                            assert(sofar.len() >= MAX_MATCHES as int);
                        }
                    }
                } else {
                    proof {
                        assert(with_score(msv.take(k + 1), s as int) == with_score(
                            msv.take(k as int),
                            s as int,
                        ) + Seq::<MatchView>::empty());
                        assert(done + with_score(msv.take(k + 1), s as int) =~= sofar);
                    }
                }
                k = k + 1;
            }
            proof {
                assert(msv.take(all@.len() as int) =~= msv);
                lemma_ranked_range_snoc(msv, qlen as int, s - 1);
            }
            s = s - 1;
        }
        out
    }
}

} // verus!

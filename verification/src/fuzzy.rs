//! The fuzzy-match scorer: a case-insensitive subsequence matcher and a
//! weighted score over the matched indices.
//!
//! Scores are exact rationals. Every weight of the scoring rule is a multiple
//! of 1/20 (base 1, consecutive 1 + streak·0.3, start 4, word boundary 2.5,
//! gap 0.15, normalization `len·0.15 + 1`), so the numerator carries each
//! weight scaled by 20 and the denominator carries the normalization scaled
//! by 20, that is `3·len + 20`.

use vstd::prelude::*;
use crate::text::chars_of;

verus! {

/// Targets longer than this (after lowercasing) score zero; the bound keeps
/// the scaled numerator inside `i64`.
pub const MAX_TARGET_LEN: usize = 100_000_000;

/// An exact rational score: `num / den`, with `den > 0` for every score the
/// library produces.
#[derive(Clone, Copy, PartialEq, Eq, Structural, Debug)]
pub struct Score {
    pub num: i64,
    pub den: i64,
}

impl Score {
    /// The score of an empty or failed match.
    pub open spec fn spec_zero() -> Score {
        Score { num: 0, den: 1 }
    }

    pub open spec fn wf(self) -> bool {
        self.den > 0
    }

    pub open spec fn is_positive(self) -> bool {
        self.num > 0 && self.den > 0
    }

    pub fn zero() -> (r: Score)
        ensures
            r == Score::spec_zero(),
    {
        Score { num: 0, den: 1 }
    }
}

/// `a >= b` as rationals, assuming both denominators are positive.
pub open spec fn spec_score_ge(a: Score, b: Score) -> bool {
    a.num * b.den >= b.num * a.den
}

/// `s > 1/100` as rationals, assuming a positive denominator: the retention
/// threshold every adapter applies.
pub open spec fn spec_exceeds_threshold(s: Score) -> bool {
    100 * s.num > s.den
}

proof fn lemma_mul_bound(a: int, b: int, c: int, d: int)
    by (nonlinear_arith)
    requires
        -c <= a <= c,
        -d <= b <= d,
        0 <= c,
        0 <= d,
    ensures
        -(c * d) <= a * b <= c * d,
{
}

pub fn score_ge(a: &Score, b: &Score) -> (r: bool)
    ensures
        r == spec_score_ge(*a, *b),
{
    proof {
        lemma_mul_bound(
            a.num as int,
            b.den as int,
            0x8000_0000_0000_0000,
            0x8000_0000_0000_0000,
        );
        lemma_mul_bound(
            b.num as int,
            a.den as int,
            0x8000_0000_0000_0000,
            0x8000_0000_0000_0000,
        );
    }
    let x: i128 = (a.num as i128) * (b.den as i128);
    let y: i128 = (b.num as i128) * (a.den as i128);
    x >= y
}

pub fn exceeds_threshold(s: &Score) -> (r: bool)
    ensures
        r == spec_exceeds_threshold(*s),
{
    let x: i128 = 100 * (s.num as i128);
    x > (s.den as i128)
}

/// Transitivity of the rational order, for positive denominators.
pub proof fn lemma_score_ge_trans(a: Score, b: Score, c: Score)
    by (nonlinear_arith)
    requires
        a.den > 0,
        b.den > 0,
        c.den > 0,
        spec_score_ge(a, b),
        spec_score_ge(b, c),
    ensures
        spec_score_ge(a, c),
{
}

/// The lowercase form of a character sequence, as `str::to_lowercase`
/// computes it.
pub uninterp spec fn lower_of(s: Seq<char>) -> Seq<char>;

/// Relies on `str::to_lowercase`: the result depends on the characters alone,
/// and an empty input yields an empty result.
#[verifier::external_body]
fn lower_chars(s: &str) -> (r: Vec<char>)
    ensures
        r@ == lower_of(s@),
        s@.len() == 0 ==> r@.len() == 0,
{
    s.to_lowercase().chars().collect()
}

/// The separators that earn the word-boundary bonus.
pub open spec fn is_sep(c: char) -> bool {
    c == '-' || c == '_' || c == '/' || c == '.' || c == ' '
}

/// The characters of `q` occur in `t`, in order (not necessarily adjacent).
pub open spec fn is_subseq(q: Seq<char>, t: Seq<char>) -> bool
    decreases t.len(),
{
    if q.len() == 0 {
        true
    } else if t.len() == 0 {
        false
    } else {
        (q[0] == t[0] && is_subseq(q.drop_first(), t.drop_first())) || is_subseq(
            q,
            t.drop_first(),
        )
    }
}

/// The leftmost single-pass match of `q` in `t`: for each query character the
/// first occurrence after the previous match. Indices are offset by `off`.
pub open spec fn greedy_idx(q: Seq<char>, t: Seq<char>, off: int) -> Option<Seq<int>>
    decreases t.len(),
{
    if q.len() == 0 {
        Some(Seq::empty())
    } else if t.len() == 0 {
        None
    } else if q[0] == t[0] {
        match greedy_idx(q.drop_first(), t.drop_first(), off + 1) {
            Some(rest) => Some(seq![off] + rest),
            None => None,
        }
    } else {
        greedy_idx(q, t.drop_first(), off + 1)
    }
}

proof fn lemma_subseq_drop_q(q: Seq<char>, t: Seq<char>)
    requires
        is_subseq(q, t),
        q.len() > 0,
    ensures
        is_subseq(q.drop_first(), t),
    decreases t.len(),
{
    if q[0] == t[0] && is_subseq(q.drop_first(), t.drop_first()) {
        if q.len() > 1 {
            assert(is_subseq(q.drop_first(), t));
        }
    } else {
        lemma_subseq_drop_q(q, t.drop_first());
    }
}

/// The single-pass matcher succeeds exactly when a subsequence embedding
/// exists at all.
pub proof fn lemma_greedy_iff_subseq(q: Seq<char>, t: Seq<char>, off: int)
    ensures
        greedy_idx(q, t, off) is Some <==> is_subseq(q, t),
    decreases t.len(),
{
    if q.len() == 0 || t.len() == 0 {
    } else if q[0] == t[0] {
        lemma_greedy_iff_subseq(q.drop_first(), t.drop_first(), off + 1);
        if is_subseq(q, t) && !(q[0] == t[0] && is_subseq(q.drop_first(), t.drop_first())) {
            lemma_subseq_drop_q(q, t.drop_first());
        }
    } else {
        lemma_greedy_iff_subseq(q, t.drop_first(), off + 1);
    }
}

/// When the matcher succeeds it yields one index per query character, all in
/// range, strictly increasing, each naming a matching character.
pub proof fn lemma_greedy_props(q: Seq<char>, t: Seq<char>, off: int)
    requires
        greedy_idx(q, t, off) is Some,
    ensures
        greedy_idx(q, t, off) matches Some(r) ==> {
            &&& r.len() == q.len()
            &&& forall|i: int| 0 <= i < r.len() ==> off <= #[trigger] r[i] < off + t.len()
            &&& forall|i: int| 0 < i < r.len() ==> r[i - 1] < #[trigger] r[i]
            &&& forall|i: int| 0 <= i < r.len() ==> t[#[trigger] r[i] - off] == q[i]
        },
    decreases t.len(),
{
    if q.len() == 0 {
    } else if q[0] == t[0] {
        let rest = greedy_idx(q.drop_first(), t.drop_first(), off + 1);
        lemma_greedy_props(q.drop_first(), t.drop_first(), off + 1);
        let r = greedy_idx(q, t, off)->Some_0;
        let rr = rest->Some_0;
        assert forall|i: int| 0 <= i < r.len() implies t[#[trigger] r[i] - off] == q[i] by {
            if i > 0 {
                assert(r[i] == rr[i - 1]);
                assert(t.drop_first()[rr[i - 1] - (off + 1)] == q.drop_first()[i - 1]);
            }
        }
    } else {
        lemma_greedy_props(q, t.drop_first(), off + 1);
        let r = greedy_idx(q, t, off)->Some_0;
        let rr = greedy_idx(q, t.drop_first(), off + 1)->Some_0;
        assert(r == rr);
        assert forall|i: int| 0 <= i < r.len() implies t[#[trigger] r[i] - off] == q[i] by {
            assert(t.drop_first()[rr[i] - (off + 1)] == q[i]);
        }
    }
}

/// The single-pass subsequence matcher: for each character of `query`, the
/// first occurrence in `target` after the previous match. `None` when some
/// character cannot be found in order.
pub fn fuzzy_get_indexes(query: &[char], target: &[char]) -> (r: Option<Vec<usize>>)
    ensures
        r is Some <==> is_subseq(query@, target@),
        r matches Some(v) ==> Some(v@.map_values(|u: usize| u as int)) == greedy_idx(
            query@,
            target@,
            0,
        ),
{
    let qn = query.len();
    let tn = target.len();
    let mut out: Vec<usize> = Vec::new();
    let mut qi: usize = 0;
    let mut ti: usize = 0;
    proof {
        assert(query@.skip(0) =~= query@);
        assert(target@.skip(0) =~= target@);
        assert(out@.map_values(|u: usize| u as int) =~= Seq::<int>::empty());
        match greedy_idx(query@, target@, 0) {
            Some(rest) => {
                assert(Seq::<int>::empty() + rest =~= rest);
            },
            None => {},
        }
    }
    while qi < qn && ti < tn
        invariant
            qi <= qn == query@.len(),
            ti <= tn == target@.len(),
            out@.len() == qi,
            greedy_idx(query@.skip(qi as int), target@.skip(ti as int), ti as int) matches Some(
                rest,
            ) ==> greedy_idx(query@, target@, 0) == Some(
                out@.map_values(|u: usize| u as int) + rest,
            ),
            greedy_idx(query@.skip(qi as int), target@.skip(ti as int), ti as int) is None
                ==> greedy_idx(query@, target@, 0) is None,
        decreases tn - ti,
    {
        let ghost qs = query@.skip(qi as int);
        let ghost ts = target@.skip(ti as int);
        proof {
            assert(qs[0] == query@[qi as int]);
            assert(ts[0] == target@[ti as int]);
            assert(qs.drop_first() =~= query@.skip(qi + 1 as int));
            assert(ts.drop_first() =~= target@.skip(ti + 1 as int));
        }
        if target[ti] == query[qi] {
            let ghost old_out = out@;
            out.push(ti);
            proof {
                assert(out@.map_values(|u: usize| u as int) =~= old_out.map_values(
                    |u: usize| u as int,
                ).push(ti as int));
                match greedy_idx(query@.skip(qi + 1 as int), target@.skip(ti + 1 as int), ti + 1) {
                    Some(rest2) => {
                        assert(greedy_idx(qs, ts, ti as int) == Some(seq![ti as int] + rest2));
                        assert(old_out.map_values(|u: usize| u as int) + (seq![ti as int] + rest2)
                            =~= out@.map_values(|u: usize| u as int) + rest2);
                    },
                    None => {},
                }
            }
            qi += 1;
        }
        ti += 1;
    }
    proof {
        lemma_greedy_iff_subseq(query@, target@, 0);
    }
    if qi == qn {
        proof {
            assert(query@.skip(qn as int) =~= Seq::<char>::empty());
            assert(greedy_idx(
                query@.skip(qi as int),
                target@.skip(ti as int),
                ti as int,
            ) == Some(Seq::<int>::empty()));
            assert(out@.map_values(|u: usize| u as int) + Seq::<int>::empty() =~= out@.map_values(
                |u: usize| u as int,
            ));
        }
        Some(out)
    } else {
        proof {
            assert(target@.skip(tn as int) =~= Seq::<char>::empty());
            assert(query@.skip(qi as int).len() > 0);
        }
        None
    }
}

/// The streak value at match `i`: how many matches ending at `i` sit at
/// adjacent target indices (zero when match `i` is not adjacent to `i - 1`).
pub open spec fn spec_consec(idxs: Seq<int>, i: int) -> int
    decreases i,
{
    if i <= 0 {
        0
    } else if idxs[i - 1] + 1 == idxs[i] {
        spec_consec(idxs, i - 1) + 1
    } else {
        0
    }
}

/// The consecutive-run bonus for a streak value, scaled by 20:
/// `1.0 + streak · 0.3`.
pub open spec fn spec_streak_bonus(streak: int) -> int {
    20 + 6 * streak
}

/// What match `i` adds to the raw score, scaled by 20: base 1.0; the run
/// bonus when adjacent to the previous match; 4.0 at target index 0; 2.5
/// after a separator; minus 0.15 per skipped character since the previous
/// match.
pub open spec fn spec_contrib(t: Seq<char>, idxs: Seq<int>, i: int) -> int {
    let run: int = if i > 0 && idxs[i - 1] + 1 == idxs[i] {
        spec_streak_bonus(spec_consec(idxs, i))
    } else {
        0
    };
    let start: int = if idxs[i] == 0 {
        80
    } else {
        0
    };
    let boundary: int = if idxs[i] > 0 && is_sep(t[idxs[i] - 1]) {
        50
    } else {
        0
    };
    let gap: int = if i > 0 && idxs[i] - idxs[i - 1] - 1 > 0 {
        3 * (idxs[i] - idxs[i - 1] - 1)
    } else {
        0
    };
    20 + run + start + boundary - gap
}

pub open spec fn spec_raw_upto(t: Seq<char>, idxs: Seq<int>, i: int) -> int
    decreases i,
{
    if i <= 0 {
        0
    } else {
        spec_raw_upto(t, idxs, i - 1) + spec_contrib(t, idxs, i - 1)
    }
}

/// The raw (pre-normalization) score of a match, scaled by 20.
pub open spec fn spec_raw_score(t: Seq<char>, idxs: Seq<int>) -> int {
    spec_raw_upto(t, idxs, idxs.len() as int)
}

/// The score of a query against a target: zero for an empty query, an
/// over-long target or a failed match; otherwise the raw score of the
/// single-pass match over the lowercased strings, normalized by
/// `len · 0.15 + 1`.
pub open spec fn spec_fuzzy_match(query: Seq<char>, target: Seq<char>) -> Score {
    if query.len() == 0 {
        Score::spec_zero()
    } else {
        let q = lower_of(query);
        let t = lower_of(target);
        if t.len() > MAX_TARGET_LEN {
            Score::spec_zero()
        } else {
            match greedy_idx(q, t, 0) {
                None => Score::spec_zero(),
                Some(ix) => if q.len() == 0 {
                    Score::spec_zero()
                } else {
                    Score {
                        num: spec_raw_score(t, ix) as i64,
                        den: (3 * t.len() + 20) as i64,
                    }
                },
            }
        }
    }
}

proof fn lemma_consec_nonneg(idxs: Seq<int>, i: int)
    ensures
        spec_consec(idxs, i) >= 0,
    decreases i,
{
    if i > 0 && idxs[i - 1] + 1 == idxs[i] {
        lemma_consec_nonneg(idxs, i - 1);
    }
}

proof fn lemma_consec_le(idxs: Seq<int>, i: int)
    requires
        0 <= i,
    ensures
        spec_consec(idxs, i) <= i,
    decreases i,
{
    if i > 0 && idxs[i - 1] + 1 == idxs[i] {
        lemma_consec_le(idxs, i - 1);
    }
}

proof fn lemma_increasing_ge(idxs: Seq<int>, i: int)
    requires
        0 <= i < idxs.len(),
        forall|k: int| 0 <= k < idxs.len() ==> 0 <= #[trigger] idxs[k],
        forall|k: int| 0 < k < idxs.len() ==> idxs[k - 1] < #[trigger] idxs[k],
    ensures
        idxs[i] >= i,
    decreases i,
{
    if i > 0 {
        lemma_increasing_ge(idxs, i - 1);
        assert(idxs[i - 1] < idxs[i]);
    }
}

/// The weighted score over a successful index sequence, scaled to an exact
/// rational. Zero when the query or the index sequence is empty.
pub fn calculate_score(query: &[char], target: &[char], indices: &[usize]) -> (r: Score)
    requires
        target@.len() <= MAX_TARGET_LEN,
        forall|i: int| 0 <= i < indices@.len() ==> (#[trigger] indices@[i]) < target@.len(),
        forall|i: int| 0 < i < indices@.len() ==> indices@[i - 1] < #[trigger] indices@[i],
    ensures
        query@.len() == 0 || indices@.len() == 0 ==> r == Score::spec_zero(),
        query@.len() > 0 && indices@.len() > 0 ==> r == (Score {
            num: spec_raw_score(target@, indices@.map_values(|u: usize| u as int)) as i64,
            den: (3 * target@.len() + 20) as i64,
        }),
{
    if query.len() == 0 || indices.len() == 0 {
        return Score::zero();
    }
    let ghost idx = indices@.map_values(|u: usize| u as int);
    let n = indices.len();
    proof {
        assert(forall|i: int| 0 <= i < n ==> idx[i] == indices@[i] as int);
        assert forall|k: int| 0 < k < idx.len() implies idx[k - 1] < #[trigger] idx[k] by {
            assert(indices@[k - 1] < indices@[k]);
        }
        lemma_increasing_ge(idx, n - 1 as int);
        assert(idx[n - 1 as int] < target@.len());
    }
    let mut score: i64 = 0;
    let mut consecutive: i64 = 0;
    let mut i: usize = 0;
    while i < n
        invariant
            0 < n == indices@.len(),
            idx == indices@.map_values(|u: usize| u as int),
            forall|k: int| 0 <= k < n ==> idx[k] == indices@[k] as int,
            forall|k: int| 0 <= k < indices@.len() ==> (#[trigger] indices@[k]) < target@.len(),
            forall|k: int| 0 < k < indices@.len() ==> indices@[k - 1] < #[trigger] indices@[k],
            target@.len() <= MAX_TARGET_LEN,
            i <= n,
            score as int == spec_raw_upto(target@, idx, i as int),
            -(i as int) * 2_000_000_000 <= score as int <= (i as int) * 2_000_000_000,
            i == 0 ==> consecutive == 0,
            i > 0 ==> consecutive as int == spec_consec(idx, i - 1 as int),
            0 <= consecutive <= i,
            n <= target@.len(),
        decreases n - i,
    {
        proof {
            if i + 1 < n {
                assert(indices@[i as int] < indices@[i + 1 as int]);
            }
            assert(indices@[i as int] < target@.len());
            if i > 0 {
                lemma_consec_le(idx, i as int);
            }
        }
        let cur = indices[i];
        let mut delta: i64 = 20;
        if i > 0 && indices[i - 1] + 1 == cur {
            consecutive = consecutive + 1;
            delta = delta + 20 + 6 * consecutive;
            proof {
                assert(spec_consec(idx, i as int) == consecutive as int);
            }
        } else {
            consecutive = 0;
        }
        if cur == 0 {
            delta = delta + 80;
        }
        if cur > 0 {
            let prev = target[cur - 1];
            if prev == '-' || prev == '_' || prev == '/' || prev == '.' || prev == ' ' {
                delta = delta + 50;
            }
        }
        if i > 0 {
            let gap = cur - indices[i - 1] - 1;
            delta = delta - 3 * (gap as i64);
        }
        proof {
            assert(delta as int == spec_contrib(target@, idx, i as int));
            assert(-2_000_000_000 <= delta as int <= 2_000_000_000);
        }
        score = score + delta;
        i += 1;
    }
    proof {
        assert(score as int == spec_raw_score(target@, idx));
    }
    Score { num: score, den: 3 * (target.len() as i64) + 20 }
}

/// The public scoring entry point every adapter calls: matches `query`
/// against `target` case-insensitively and scores the match; zero for an
/// empty query or a failed match.
pub fn fuzzy_match(query: &str, target: &str) -> (r: Score)
    ensures
        r == spec_fuzzy_match(query@, target@),
{
    let qchars = chars_of(query);
    if qchars.len() == 0 {
        return Score::zero();
    }
    let q = lower_chars(query);
    let t = lower_chars(target);
    if t.len() > MAX_TARGET_LEN {
        return Score::zero();
    }
    match fuzzy_get_indexes(q.as_slice(), t.as_slice()) {
        None => {
            proof {
                lemma_greedy_iff_subseq(q@, t@, 0);
            }
            Score::zero()
        },
        Some(ix) => {
            proof {
                lemma_greedy_props(q@, t@, 0);
            }
            if ix.len() == 0 {
                proof {
                    let g = greedy_idx(q@, t@, 0)->Some_0;
                    assert(ix@.map_values(|u: usize| u as int) == g);
                    assert(q@.len() == g.len());
                }
                Score::zero()
            } else {
                proof {
                    let m = ix@.map_values(|u: usize| u as int);
                    assert(forall|i: int| 0 <= i < m.len() ==> m[i] == ix@[i] as int);
                    assert forall|i: int| 0 <= i < ix@.len() implies (#[trigger] ix@[i])
                        < t@.len() by {
                        assert(0 <= m[i] < t@.len());
                    }
                    assert forall|i: int| 0 < i < ix@.len() implies ix@[i - 1] < (
                    #[trigger] ix@[i]) by {
                        assert(m[i - 1] < m[i]);
                    }
                }
                let r = calculate_score(q.as_slice(), t.as_slice(), ix.as_slice());
                proof {
                    let g = greedy_idx(q@, t@, 0)->Some_0;
                    assert(ix@.map_values(|u: usize| u as int) == g);
                    assert(ix@.len() == g.len());
                    assert(q@.len() == g.len());
                }
                r
            }
        },
    }
}

/// Law: a query scores exactly zero when it is empty or when its lowercased
/// characters do not occur in order within the lowercased target.
pub proof fn lemma_no_subsequence_scores_zero(query: Seq<char>, target: Seq<char>)
    requires
        query.len() == 0 || !is_subseq(lower_of(query), lower_of(target)),
    ensures
        spec_fuzzy_match(query, target) == Score::spec_zero(),
{
    if query.len() != 0 {
        lemma_greedy_iff_subseq(lower_of(query), lower_of(target), 0);
    }
}

proof fn lemma_raw_bounds(t: Seq<char>, idxs: Seq<int>, i: int)
    requires
        t.len() <= MAX_TARGET_LEN,
        idxs.len() <= t.len(),
        forall|k: int| 0 <= k < idxs.len() ==> 0 <= #[trigger] idxs[k] < t.len(),
        forall|k: int| 0 < k < idxs.len() ==> idxs[k - 1] < #[trigger] idxs[k],
        0 <= i <= idxs.len(),
    ensures
        -(i * 2_000_000_000) <= spec_raw_upto(t, idxs, i) <= i * 2_000_000_000,
    decreases i,
{
    if i > 0 {
        lemma_raw_bounds(t, idxs, i - 1);
        lemma_consec_nonneg(idxs, i - 1);
        lemma_consec_le(idxs, i - 1);
        assert(0 <= idxs[i - 1] < t.len());
        if i - 1 > 0 {
            assert(0 <= idxs[i - 2] < t.len());
            assert(idxs[i - 2] < idxs[i - 1]);
        }
        assert(-2_000_000_000 <= spec_contrib(t, idxs, i - 1) <= 2_000_000_000);
    }
}

proof fn lemma_raw_lower_bound(t: Seq<char>, idxs: Seq<int>, i: int)
    requires
        forall|k: int| 0 <= k < idxs.len() ==> 0 <= #[trigger] idxs[k] < t.len(),
        forall|k: int| 0 < k < idxs.len() ==> idxs[k - 1] < #[trigger] idxs[k],
        0 < i <= idxs.len(),
    ensures
        spec_raw_upto(t, idxs, i) >= 20 * i - 3 * (idxs[i - 1] - idxs[0] - (i - 1)),
    decreases i,
{
    if i == 1 {
        lemma_consec_nonneg(idxs, 0);
        assert(spec_raw_upto(t, idxs, 0) == 0);
        assert(spec_raw_upto(t, idxs, 1) == spec_contrib(t, idxs, 0));
        assert(spec_contrib(t, idxs, 0) >= 20);
    } else {
        lemma_raw_lower_bound(t, idxs, i - 1);
        lemma_consec_nonneg(idxs, i - 1);
        assert(idxs[i - 2] < idxs[i - 1]);
        assert(spec_contrib(t, idxs, i - 1) >= 20 - 3 * (idxs[i - 1] - idxs[i - 2] - 1));
    }
}

/// Law: when the lowercased query is non-empty and occurs in order in the
/// lowercased target, and the target is short enough relative to the query
/// that the gap penalty cannot cancel the per-character base score
/// (3·|target| < 23·|query|), the match scores strictly positive.
pub proof fn lemma_subsequence_scores_positive(query: Seq<char>, target: Seq<char>)
    requires
        query.len() > 0,
        lower_of(query).len() > 0,
        is_subseq(lower_of(query), lower_of(target)),
        lower_of(target).len() <= MAX_TARGET_LEN,
        3 * lower_of(target).len() < 23 * lower_of(query).len(),
    ensures
        spec_fuzzy_match(query, target).is_positive(),
{
    let q = lower_of(query);
    let t = lower_of(target);
    lemma_greedy_iff_subseq(q, t, 0);
    lemma_greedy_props(q, t, 0);
    let ix = greedy_idx(q, t, 0)->Some_0;
    let n = ix.len() as int;
    lemma_increasing_ge(ix, n - 1);
    assert(ix.len() <= t.len());
    lemma_raw_lower_bound(t, ix, n);
    lemma_raw_bounds(t, ix, n);
    assert(ix[n - 1] <= t.len() - 1);
    assert(ix[0] >= 0);
    assert(spec_raw_score(t, ix) >= 20 * n - 3 * (t.len() - n));
}

/// Law (start-of-string bonus): the first matched character contributes
/// strictly more to the raw score when it lands on index 0 of the target than
/// when it lands on any later index not preceded by a separator.
pub proof fn lemma_start_of_string_bonus(t: Seq<char>, at_zero: Seq<int>, later: Seq<int>)
    requires
        at_zero.len() > 0,
        later.len() > 0,
        at_zero[0] == 0,
        0 < later[0] < t.len(),
        !is_sep(t[later[0] - 1]),
    ensures
        spec_contrib(t, at_zero, 0) > spec_contrib(t, later, 0),
{
}

/// Law (run bonus monotonicity): one more adjacent match strictly raises the
/// per-character consecutive bonus, so the bonus grows with the streak length
/// within an unbroken run.
pub proof fn lemma_run_bonus_increases(idxs: Seq<int>, i: int)
    requires
        0 < i,
        i + 1 < idxs.len(),
        idxs[i] == idxs[i - 1] + 1,
        idxs[i + 1] == idxs[i] + 1,
    ensures
        spec_consec(idxs, i + 1) == spec_consec(idxs, i) + 1,
        spec_streak_bonus(spec_consec(idxs, i + 1)) > spec_streak_bonus(spec_consec(idxs, i)),
{
}

} // verus!

//! Rainflow cycle counting: reduces an ordered stress history into closed
//! hysteresis cycles, each a (mean, range) pair, for downstream fatigue
//! damage accumulation.
//!
//! The counter works on integer stress samples (the library's fixed-point
//! convention: millionths of an engineering unit). Because the mean of two
//! samples and half of a range need not be whole numbers, the counter
//! returns every mean and every range **doubled**: a result entry
//! `(m2, r2)` stands for the cycle `(mean m2 / 2, range r2 / 2)`. In the
//! doubled scale all results are exact.
//!
//! The algorithm is the published three-point rainflow procedure:
//! 1. extract the reversal sequence: collapse runs of equal samples, keep
//!    the interior local extrema, and — when the history reverses at all —
//!    the two end points, where the loading starts and stops. A history
//!    with no reversal (monotonic or constant) yields no cycles at all;
//! 2. walk the reversals in order over a stack of unresolved points.
//!    Whenever three points `A, B, C` top the stack (oldest to newest),
//!    compare the range under consideration `X = |B - C|` with the
//!    previous range `Y = |A - B|`:
//!    - if `X < Y`, read the next reversal;
//!    - if `X >= Y` and `Y` contains the starting point (that is, `A` is
//!      the oldest unresolved point), count `Y` as a **half cycle**, drop
//!      `A`, and let the start move forward;
//!    - if `X >= Y` otherwise, count `Y` as a **full cycle** and drop
//!      both of its points;
//! 3. at end of input, count each range that remains between consecutive
//!    unresolved points as a half cycle, in order.
//!
//! A full cycle over `(A, B)` contributes `(A + B, 2 * |A - B|)` to the
//! doubled output; a half cycle contributes `(A + B, |A - B|)`, its range
//! halved as a half cycle's contribution.

use vstd::prelude::*;

use crate::abs_diff;

verus! {

/// Largest admissible magnitude of a stress sample: sums and doubled ranges
/// of samples within this bound stay within `i64`.
pub const STRESS_LIMIT: i64 = 0x1000_0000_0000_0000;

/// All samples of the sequence lie within `STRESS_LIMIT` in magnitude.
pub open spec fn bounded(s: Seq<i64>) -> bool {
    forall|i: int| 0 <= i < s.len() ==> -STRESS_LIMIT <= #[trigger] s[i] <= STRESS_LIMIT
}

/// The input sequence with runs of equal consecutive samples collapsed to a
/// single sample.
pub open spec fn collapse_runs(s: Seq<i64>) -> Seq<i64>
    decreases s.len(),
{
    if s.len() == 0 {
        Seq::empty()
    } else if s.len() == 1 {
        s
    } else {
        let d = collapse_runs(s.drop_last());
        if s.last() == d.last() {
            d
        } else {
            d.push(s.last())
        }
    }
}

/// Sample `i` of `d` is an interior local extremum: strictly above or
/// strictly below both neighbours.
pub open spec fn is_turn(d: Seq<i64>, i: int) -> bool {
    &&& 1 <= i < d.len() - 1
    &&& ((d[i - 1] < d[i] && d[i + 1] < d[i]) || (d[i] < d[i - 1] && d[i] < d[i + 1]))
}

/// The local extrema of `d` at interior positions below `i`, in order.
pub open spec fn turns_below(d: Seq<i64>, i: int) -> Seq<i64>
    decreases i,
{
    if i <= 1 {
        Seq::empty()
    } else {
        turns_below(d, i - 1) + if is_turn(d, i - 1) {
            seq![d[i - 1]]
        } else {
            Seq::empty()
        }
    }
}

/// The reversal sequence of a stress history: after collapsing equal
/// runs, the interior local extrema together with the two end points of
/// the history. A history that never reverses (no interior extremum) has
/// no reversals at all, so a monotonic or constant run yields nothing.
pub open spec fn reversals(s: Seq<i64>) -> Seq<i64> {
    let d = collapse_runs(s);
    let t = turns_below(d, d.len() - 1);
    if t.len() > 0 {
        seq![d[0]] + t + seq![d.last()]
    } else {
        Seq::empty()
    }
}

/// Half cycles over the ranges remaining between consecutive unresolved
/// reversals, in order: the pair `(a, b)` contributes the doubled pair
/// `(a + b, |b - a|)`.
pub open spec fn drain(r: Seq<i64>) -> Seq<(int, int)>
    decreases r.len(),
{
    if r.len() < 2 {
        Seq::empty()
    } else {
        seq![(r[0] + r[1], abs_diff(r[1], r[0]))] + drain(r.drop_first())
    }
}

/// The three-point counting walk: `stack` holds the unresolved reversals
/// (the starting point at the bottom) and `rest` the reversals still to
/// be read. With `A, B, C` the three newest stack entries, a range
/// `Y = |A - B|` not exceeded by `X = |B - C|` closes: as a half cycle
/// with the start advancing when `A` is the starting point, as a full
/// cycle otherwise. What remains at end of input drains pairwise.
pub open spec fn count_from(stack: Seq<i64>, rest: Seq<i64>) -> Seq<(int, int)>
    decreases rest.len(), stack.len(),
{
    if stack.len() >= 3 {
        let a = stack[stack.len() - 3];
        let b = stack[stack.len() - 2];
        let c = stack[stack.len() - 1];
        if abs_diff(b, c) >= abs_diff(a, b) {
            if stack.len() == 3 {
                seq![(a + b, abs_diff(a, b))] + count_from(stack.drop_first(), rest)
            } else {
                seq![(a + b, 2 * abs_diff(a, b))] + count_from(
                    stack.take(stack.len() - 3).push(c),
                    rest,
                )
            }
        } else if rest.len() > 0 {
            count_from(stack.push(rest[0]), rest.drop_first())
        } else {
            drain(stack)
        }
    } else if rest.len() > 0 {
        count_from(stack.push(rest[0]), rest.drop_first())
    } else {
        drain(stack)
    }
}

/// The rainflow cycles of a stress history, in doubled units.
pub open spec fn cycles(s: Seq<i64>) -> Seq<(int, int)> {
    count_from(Seq::empty(), reversals(s))
}

/// The doubled (mean, range) pairs held so far in the two output vectors.
pub open spec fn pair_seq(m: Seq<i64>, r: Seq<i64>) -> Seq<(int, int)> {
    Seq::new(m.len(), |i: int| (m[i] as int, r[i] as int))
}

/// The collapsed sequence is nonempty when the input is, and ends in the
/// input's last sample.
proof fn lemma_collapse_runs_last(s: Seq<i64>)
    requires
        s.len() > 0,
    ensures
        collapse_runs(s).len() >= 1,
        collapse_runs(s).last() == s.last(),
        collapse_runs(s)[0] == s[0],
    decreases s.len(),
{
    if s.len() > 1 {
        lemma_collapse_runs_last(s.drop_last());
    }
}

/// Extracts the reversal sequence of `s` as a vector.
fn extract_reversals(s: &Vec<i64>) -> (rev: Vec<i64>)
    requires
        bounded(s@),
    ensures
        rev@ == reversals(s@),
        bounded(rev@),
{
    // First collapse runs of equal samples.
    let mut d: Vec<i64> = Vec::new();
    let n = s.len();
    let mut i: usize = 0;
    while i < n
        invariant
            n == s@.len(),
            0 <= i <= n,
            d@ == collapse_runs(s@.take(i as int)),
            bounded(s@),
            bounded(d@),
        decreases n - i,
    {
        proof {
            assert(s@.take(i + 1).drop_last() =~= s@.take(i as int));
            assert(s@.take(i + 1).last() == s@[i as int]);
        }
        if d.len() == 0 {
            proof {
                if i > 0 {
                    lemma_collapse_runs_last(s@.take(i as int));
                }
                assert(i == 0);
                assert(s@.take(1) =~= seq![s@[0]]);
            }
            d.push(s[i]);
        } else {
            let last = d[d.len() - 1];
            if s[i] != last {
                d.push(s[i]);
            }
        }
        i = i + 1;
    }
    proof {
        assert(s@.take(n as int) =~= s@);
    }

    // Then collect the interior local extrema.
    let dn = d.len();
    let mut t: Vec<i64> = Vec::new();
    if dn >= 3 {
        let mut j: usize = 1;
        while j < dn - 1
            invariant
                dn == d@.len(),
                3 <= dn,
                1 <= j <= dn - 1,
                t@ == turns_below(d@, j as int),
                bounded(d@),
                bounded(t@),
            decreases dn - j,
        {
            let prev = d[j - 1];
            let here = d[j];
            let next = d[j + 1];
            if (prev < here && next < here) || (here < prev && here < next) {
                t.push(here);
            }
            j = j + 1;
        }
    } else {
        proof {
            assert(turns_below(d@, d@.len() - 1) =~= Seq::<i64>::empty());
        }
    }

    // A history that never reverses has no reversals; otherwise the end
    // points join the interior extrema.
    let mut rev: Vec<i64> = Vec::new();
    if t.len() == 0 {
        return rev;
    }
    rev.push(d[0]);
    let tn = t.len();
    let mut j2: usize = 0;
    while j2 < tn
        invariant
            tn == t@.len(),
            dn == d@.len(),
            dn >= 1,
            0 <= j2 <= tn,
            rev@ == seq![d@[0]] + t@.take(j2 as int),
            bounded(d@),
            bounded(t@),
            bounded(rev@),
        decreases tn - j2,
    {
        rev.push(t[j2]);
        proof {
            assert(t@.take(j2 + 1) =~= t@.take(j2 as int).push(t@[j2 as int]));
            assert(rev@ =~= seq![d@[0]] + t@.take(j2 + 1));
        }
        j2 = j2 + 1;
    }
    rev.push(d[dn - 1]);
    proof {
        assert(t@.take(tn as int) =~= t@);
        assert(rev@ =~= seq![d@[0]] + t@ + seq![d@.last()]);
    }
    rev
}

/// Counts rainflow cycles in a stress history.
///
/// Returns the doubled means and the doubled ranges of the resolved
/// cycles, index-aligned and in the order the cycles were resolved: entry
/// `i` stands for the cycle with mean `means2[i] / 2` and range
/// `ranges2[i] / 2` in the input's units. A history with no reversal has
/// no cycles, and the full output is pinned to the published three-point
/// pairing by the spec function `cycles`.
pub fn rainflow(stress: &Vec<i64>) -> (out: (Vec<i64>, Vec<i64>))
    requires
        bounded(stress@),
    ensures
        out.0@.len() == cycles(stress@).len(),
        out.1@.len() == cycles(stress@).len(),
        forall|i: int|
            0 <= i < cycles(stress@).len() ==> out.0@[i] == #[trigger] cycles(stress@)[i].0
                && out.1@[i] == cycles(stress@)[i].1,
{
    let rev = extract_reversals(stress);
    let mut means2: Vec<i64> = Vec::new();
    let mut ranges2: Vec<i64> = Vec::new();
    let mut stack: Vec<i64> = Vec::new();
    let mut idx: usize = 0;
    let n = rev.len();
    proof {
        assert(rev@.skip(0) =~= rev@);
        assert(stack@ =~= Seq::<i64>::empty());
        assert(pair_seq(means2@, ranges2@) =~= Seq::<(int, int)>::empty());
        assert(pair_seq(means2@, ranges2@) + count_from(stack@, rev@) =~= count_from(
            Seq::empty(),
            rev@,
        ));
    }

    loop
        invariant_except_break
            n == rev@.len(),
            rev@ == reversals(stress@),
            bounded(rev@),
            bounded(stack@),
            0 <= idx <= n,
            means2@.len() == ranges2@.len(),
            pair_seq(means2@, ranges2@) + count_from(stack@, rev@.skip(idx as int)) == cycles(
                stress@,
            ),
        ensures
            bounded(stack@),
            means2@.len() == ranges2@.len(),
            pair_seq(means2@, ranges2@) + drain(stack@) == cycles(stress@),
        decreases n - idx, stack@.len(),
    {
        let sl = stack.len();
        let ghost st = stack@;
        let ghost rest = rev@.skip(idx as int);
        if sl >= 3 {
            let av = stack[sl - 3];
            let bv = stack[sl - 2];
            let cv = stack[sl - 1];
            let xr = if bv >= cv {
                bv - cv
            } else {
                cv - bv
            };
            let yr = if av >= bv {
                av - bv
            } else {
                bv - av
            };
            if xr >= yr {
                let ghost mp = means2@;
                let ghost rp = ranges2@;
                if sl == 3 {
                    // The previous range contains the starting point:
                    // count a half cycle and advance the start.
                    means2.push(av + bv);
                    ranges2.push(yr);
                    stack.remove(0);
                    proof {
                        let c = (((av + bv) as int), abs_diff(av, bv));
                        assert(stack@ =~= st.drop_first());
                        assert(count_from(st, rest) == seq![c] + count_from(st.drop_first(), rest));
                        assert(pair_seq(means2@, ranges2@) =~= pair_seq(mp, rp).push(c));
                        assert(pair_seq(mp, rp).push(c) + count_from(st.drop_first(), rest)
                            =~= pair_seq(mp, rp) + (seq![c] + count_from(st.drop_first(), rest)));
                    }
                } else {
                    // The previous range lies inside the walk: count a
                    // full cycle over its two points.
                    means2.push(av + bv);
                    ranges2.push(2 * yr);
                    let keep = stack.pop();
                    stack.pop();
                    stack.pop();
                    match keep {
                        Some(cval) => {
                            stack.push(cval);
                        },
                        None => {},
                    }
                    proof {
                        let c = (((av + bv) as int), 2 * abs_diff(av, bv));
                        assert(stack@ =~= st.take(st.len() - 3).push(st[st.len() - 1]));
                        assert(count_from(st, rest) == seq![c] + count_from(
                            st.take(st.len() - 3).push(st[st.len() - 1]),
                            rest,
                        ));
                        assert(pair_seq(means2@, ranges2@) =~= pair_seq(mp, rp).push(c));
                        assert(pair_seq(mp, rp).push(c) + count_from(
                            st.take(st.len() - 3).push(st[st.len() - 1]),
                            rest,
                        ) =~= pair_seq(mp, rp) + (seq![c] + count_from(
                            st.take(st.len() - 3).push(st[st.len() - 1]),
                            rest,
                        )));
                    }
                }
            } else if idx < n {
                stack.push(rev[idx]);
                proof {
                    assert(rest[0] == rev@[idx as int]);
                    assert(rest.drop_first() =~= rev@.skip(idx + 1));
                    assert(count_from(st, rest) == count_from(
                        st.push(rest[0]),
                        rest.drop_first(),
                    ));
                }
                idx = idx + 1;
            } else {
                proof {
                    assert(rest.len() == 0);
                    assert(count_from(st, rest) == drain(st));
                }
                break;
            }
        } else if idx < n {
            stack.push(rev[idx]);
            proof {
                assert(rest[0] == rev@[idx as int]);
                assert(rest.drop_first() =~= rev@.skip(idx + 1));
                assert(count_from(st, rest) == count_from(st.push(rest[0]), rest.drop_first()));
            }
            idx = idx + 1;
        } else {
            proof {
                assert(rest.len() == 0);
                assert(count_from(st, rest) == drain(st));
            }
            break;
        }
    }

    // Drain the ranges between the remaining unresolved reversals as
    // half cycles.
    let sn = stack.len();
    let mut j: usize = 0;
    proof {
        assert(stack@.skip(0) =~= stack@);
    }
    while sn - j >= 2
        invariant
            sn == stack@.len(),
            0 <= j <= sn,
            bounded(stack@),
            means2@.len() == ranges2@.len(),
            pair_seq(means2@, ranges2@) + drain(stack@.skip(j as int)) == cycles(stress@),
        decreases sn - j,
    {
        let ghost r = stack@.skip(j as int);
        proof {
            assert(r.len() >= 2);
            assert(r[0] == stack@[j as int]);
            assert(r[1] == stack@[j + 1]);
        }
        let a = stack[j];
        let b = stack[j + 1];
        let rr = if b >= a {
            b - a
        } else {
            a - b
        };
        let ghost mp = means2@;
        let ghost rp = ranges2@;
        means2.push(a + b);
        ranges2.push(rr);
        proof {
            let c = (((a + b) as int), abs_diff(b, a));
            assert(r.drop_first() =~= stack@.skip(j + 1));
            assert(drain(r) == seq![c] + drain(stack@.skip(j + 1)));
            assert(pair_seq(means2@, ranges2@) =~= pair_seq(mp, rp).push(c));
            assert(pair_seq(mp, rp).push(c) + drain(stack@.skip(j + 1)) =~= pair_seq(mp, rp) + (
            seq![c] + drain(stack@.skip(j + 1))));
        }
        j = j + 1;
    }
    proof {
        assert(drain(stack@.skip(j as int)) =~= Seq::<(int, int)>::empty());
        assert(pair_seq(means2@, ranges2@) =~= cycles(stress@));
        assert(forall|i: int|
            0 <= i < cycles(stress@).len() ==> means2@[i] == #[trigger] cycles(stress@)[i].0
                && ranges2@[i] == cycles(stress@)[i].1);
    }
    (means2, ranges2)
}

/// A sequence is nondecreasing from left to right.
pub open spec fn nondecreasing(s: Seq<i64>) -> bool {
    forall|i: int, j: int| 0 <= i <= j < s.len() ==> #[trigger] s[i] <= #[trigger] s[j]
}

/// Collapsing runs of a nondecreasing history gives a strictly increasing
/// sequence.
proof fn lemma_collapse_runs_increasing(s: Seq<i64>)
    requires
        nondecreasing(s),
    ensures
        forall|i: int, j: int|
            0 <= i < j < collapse_runs(s).len() ==> #[trigger] collapse_runs(s)[i]
                < #[trigger] collapse_runs(s)[j],
    decreases s.len(),
{
    if s.len() > 1 {
        let d = collapse_runs(s.drop_last());
        assert(nondecreasing(s.drop_last()));
        lemma_collapse_runs_increasing(s.drop_last());
        lemma_collapse_runs_last(s.drop_last());
        if s.last() != d.last() {
            assert(s.drop_last().last() <= s.last());
            assert(d.last() < s.last());
            assert(forall|i: int| 0 <= i < d.len() ==> #[trigger] d[i] <= d.last());
            assert(forall|i: int, j: int|
                0 <= i < j < d.push(s.last()).len() ==> #[trigger] d.push(s.last())[i]
                    < #[trigger] d.push(s.last())[j]);
        }
    }
}

/// A strictly increasing sequence has no interior extrema below `i`.
proof fn lemma_no_turns(d: Seq<i64>, i: int)
    requires
        forall|p: int, q: int| 0 <= p < q < d.len() ==> #[trigger] d[p] < #[trigger] d[q],
        i <= d.len(),
    ensures
        turns_below(d, i) =~= Seq::<i64>::empty(),
    decreases i,
{
    if i > 1 {
        lemma_no_turns(d, i - 1);
        assert(!is_turn(d, i - 1));
    }
}

/// A monotonic loading run closes no cycles: a nondecreasing stress history
/// has no reversals, and its rainflow output is empty.
pub proof fn lemma_rainflow_monotone_empty(s: Seq<i64>)
    requires
        nondecreasing(s),
    ensures
        reversals(s) =~= Seq::<i64>::empty(),
        cycles(s) =~= Seq::<(int, int)>::empty(),
{
    let d = collapse_runs(s);
    lemma_collapse_runs_increasing(s);
    lemma_no_turns(d, d.len() - 1);
    assert(cycles(s) == drain(Seq::<i64>::empty()));
}

} // verus!

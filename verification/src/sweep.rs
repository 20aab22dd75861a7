//! Sweep-line computation of the bad regions of one read.
//!
//! The input is the multiset of overlap intervals `(begin, end)` reported
//! for the read, its length, and the coverage-depth threshold `c`.  The
//! intervals are sorted by `(begin, end)`; a scan keeps the end positions
//! of the intervals open at the current begin, popping the smallest ends
//! first: an end before the new begin is popped, one equal to it stays
//! open, so exactly touching intervals leave no gap.  Wherever at most
//! `c` intervals remain open, the span since the last position covered
//! more than `c` deep is a candidate bad region.
//! Extremity gaps are added afterwards, and adjacent candidate regions
//! sharing a begin are merged into one spanning the largest end.

use vstd::prelude::*;
use vstd::relations::total_ordering;
use vstd::seq_lib::lemma_sorted_unique;

verus! {

/// Order on intervals: by begin, ties broken by end.
pub open spec fn pair_le(a: (u64, u64), b: (u64, u64)) -> bool {
    a.0 < b.0 || (a.0 == b.0 && a.1 <= b.1)
}

/// The sequence is sorted by `pair_le`.
pub open spec fn sorted_pairs(s: Seq<(u64, u64)>) -> bool {
    forall|i: int, j: int| 0 <= i < j < s.len() ==> pair_le(#[trigger] s[i], #[trigger] s[j])
}

/// The intervals sorted by `(begin, end)`.
pub open spec fn sort_intervals(s: Seq<(u64, u64)>) -> Seq<(u64, u64)> {
    s.sort_by(|a: (u64, u64), b: (u64, u64)| pair_le(a, b))
}

/// `pair_le` is a total ordering.
pub proof fn lemma_pair_le_total_ordering()
    ensures
        total_ordering(|a: (u64, u64), b: (u64, u64)| pair_le(a, b)),
{
    let leq = |a: (u64, u64), b: (u64, u64)| pair_le(a, b);
    assert forall|a: (u64, u64), b: (u64, u64)| #[trigger] leq(a, b) && leq(b, a) implies a == b by {
        assert(a.0 == b.0 && a.1 == b.1);
        assert(a == (a.0, a.1));
        assert(b == (b.0, b.1));
    }
}

/// What `sort_intervals` returns: the sorted permutation of the input.
pub proof fn lemma_sort_intervals_ensures(s: Seq<(u64, u64)>)
    ensures
        sort_intervals(s).to_multiset() =~= s.to_multiset(),
        sorted_pairs(sort_intervals(s)),
        sort_intervals(s).len() == s.len(),
{
    let leq = |a: (u64, u64), b: (u64, u64)| pair_le(a, b);
    lemma_pair_le_total_ordering();
    s.lemma_sort_by_ensures(leq);
    broadcast use vstd::seq_lib::group_to_multiset_ensures;

    assert(s.len() == s.to_multiset().len());
    assert(sort_intervals(s).len() == sort_intervals(s).to_multiset().len());
    let t = sort_intervals(s);
    assert forall|i: int, j: int| 0 <= i < j < t.len() implies pair_le(
        #[trigger] t[i],
        #[trigger] t[j],
    ) by {
        assert(leq(t[i], t[j]));
    }
}

/// Two sorted arrangements of one multiset are the same sequence.
pub proof fn lemma_sorted_pairs_unique(a: Seq<(u64, u64)>, b: Seq<(u64, u64)>)
    requires
        sorted_pairs(a),
        sorted_pairs(b),
        a.to_multiset() == b.to_multiset(),
    ensures
        a == b,
{
    let leq = |x: (u64, u64), y: (u64, u64)| pair_le(x, y);
    lemma_pair_le_total_ordering();
    assert(vstd::relations::sorted_by(a, leq));
    assert(vstd::relations::sorted_by(b, leq));
    lemma_sorted_unique(a, b, leq);
}

/// Where an interval lands when inserted into a `pair_le`-sorted sequence:
/// after everything ordered at or before it, before everything larger.
pub open spec fn insert_sorted(s: Seq<(u64, u64)>, x: (u64, u64)) -> Seq<(u64, u64)>
    decreases s.len(),
{
    if s.len() == 0 {
        seq![x]
    } else if pair_le(s.last(), x) {
        s.push(x)
    } else {
        insert_sorted(s.drop_last(), x).push(s.last())
    }
}

/// Inserting into a sorted sequence keeps it sorted and adds the element.
pub proof fn lemma_insert_sorted(s: Seq<(u64, u64)>, x: (u64, u64))
    requires
        sorted_pairs(s),
    ensures
        sorted_pairs(insert_sorted(s, x)),
        insert_sorted(s, x).to_multiset() =~= s.to_multiset().insert(x),
        insert_sorted(s, x).len() == s.len() + 1,
        s.len() == 0 || pair_le(insert_sorted(s, x).last(), s.last()) || insert_sorted(
            s,
            x,
        ).last() == x,
    decreases s.len(),
{
    broadcast use vstd::seq_lib::group_to_multiset_ensures;

    if s.len() == 0 {
        assert(seq![x] =~= Seq::<(u64, u64)>::empty().push(x));
    } else if pair_le(s.last(), x) {
        assert forall|i: int, j: int| 0 <= i < j < s.push(x).len() implies pair_le(
            #[trigger] s.push(x)[i],
            #[trigger] s.push(x)[j],
        ) by {
            if j == s.len() {
                if i < s.len() - 1 {
                    assert(pair_le(s[i], s.last()));
                }
            }
        }
    } else {
        assert(sorted_pairs(s.drop_last()));
        lemma_insert_sorted(s.drop_last(), x);
        let t = insert_sorted(s.drop_last(), x);
        assert forall|i: int, j: int| 0 <= i < j < t.push(s.last()).len() implies pair_le(
            #[trigger] t.push(s.last())[i],
            #[trigger] t.push(s.last())[j],
        ) by {
            if j == t.len() {
                if i < t.len() - 1 {
                    assert(pair_le(t[i], t.last()));
                }
                if s.len() > 1 {
                    assert(pair_le(s.drop_last().last(), s.last()));
                }
                assert(pair_le(t.last(), s.last()));
            }
        }
        assert(s.drop_last().push(s.last()) =~= s);
        assert(s.drop_last().to_multiset().insert(s.last()) =~= s.to_multiset());
        assert(t.push(s.last()).to_multiset() =~= s.to_multiset().insert(x)) by {
            assert(t.to_multiset() =~= s.drop_last().to_multiset().insert(x));
        }
    }
}

/// The stack of open interval ends is kept sorted descending, so its last
/// element is the smallest open end.  A new end lands after every element
/// at least as large, before every smaller one.
pub open spec fn insert_desc(s: Seq<u64>, v: u64) -> Seq<u64>
    decreases s.len(),
{
    if s.len() == 0 {
        seq![v]
    } else if s.last() >= v {
        s.push(v)
    } else {
        insert_desc(s.drop_last(), v).push(s.last())
    }
}

/// State of the sweep: the open ends, the begin of the earliest interval
/// admitted while nothing was covered deep enough (the leading extremity),
/// the last position known to be covered more than `c` deep, and the
/// candidate bad regions found so far.
pub ghost struct SweepState {
    pub stack: Seq<u64>,
    pub first_covered: u64,
    pub last_covered: u64,
    pub gaps: Seq<(u64, u64)>,
}

/// Before admitting an interval beginning at `b`: every open end before
/// `b` is popped; a popped end becomes the covered-through position when
/// more than `c` intervals were open at the pop.
pub open spec fn pop_phase(stack: Seq<u64>, b: u64, c: u64, last: u64) -> (Seq<u64>, u64)
    decreases stack.len(),
{
    if stack.len() == 0 || stack.last() >= b {
        (stack, last)
    } else {
        let l2 = if stack.len() > c {
            stack.last()
        } else {
            last
        };
        pop_phase(stack.drop_last(), b, c, l2)
    }
}

/// Admits one interval: pop the ends before its begin; where at most `c`
/// intervals stay open, the span from the covered-through position to the
/// new begin is a candidate bad region (or, when nothing was covered yet,
/// the new begin closes the leading extremity); then open the new end.
pub open spec fn sweep_step(st: SweepState, iv: (u64, u64), c: u64) -> SweepState {
    let (stack1, last1) = pop_phase(st.stack, iv.0, c, st.last_covered);
    let (first2, gaps2) = if stack1.len() <= c {
        if last1 != 0 {
            (st.first_covered, st.gaps.push((last1, iv.0)))
        } else {
            (iv.0, st.gaps)
        }
    } else {
        (st.first_covered, st.gaps)
    };
    SweepState {
        stack: insert_desc(stack1, iv.1),
        first_covered: first2,
        last_covered: last1,
        gaps: gaps2,
    }
}

/// The sweep over a sequence of intervals, left to right.
pub open spec fn sweep_intervals(ivs: Seq<(u64, u64)>, c: u64) -> SweepState
    decreases ivs.len(),
{
    if ivs.len() == 0 {
        SweepState { stack: Seq::empty(), first_covered: 0, last_covered: 0, gaps: Seq::empty() }
    } else {
        sweep_step(sweep_intervals(ivs.drop_last(), c), ivs.last(), c)
    }
}

/// After all intervals: pop while more than `c` ends stay open to find the
/// final covered-through position, stopping once it reaches the read end.
pub open spec fn final_pop(stack: Seq<u64>, c: u64, length: u64, last: u64) -> u64
    decreases stack.len(),
{
    if stack.len() <= c {
        last
    } else {
        let l2 = stack.last();
        if l2 >= length {
            l2
        } else {
            final_pop(stack.drop_last(), c, length, l2)
        }
    }
}

/// A leading extremity gap is prepended when the first covered position is
/// not the origin; a trailing one is appended when coverage stops short of
/// the read end.
pub open spec fn add_extremities(
    first: u64,
    last: u64,
    length: u64,
    gaps: Seq<(u64, u64)>,
) -> Seq<(u64, u64)> {
    let g1 = if first != 0 {
        seq![(0u64, first)] + gaps
    } else {
        gaps
    };
    if last != length {
        g1.push((last, length))
    } else {
        g1
    }
}

/// Windowed merge pass, from position `i` with the accumulated region
/// `(begin, end)`: two adjacent candidates sharing a begin collapse to the
/// one spanning the larger end.
pub open spec fn merge_acc(
    gs: Seq<(u64, u64)>,
    i: int,
    begin: u64,
    end: u64,
    out: Seq<(u64, u64)>,
) -> Seq<(u64, u64)>
    decreases gs.len() - i,
{
    if i < 1 || i >= gs.len() {
        out.push((begin, end))
    } else {
        if gs[i - 1].0 == gs[i].0 {
            let m = if gs[i - 1].1 >= gs[i].1 {
                gs[i - 1].1
            } else {
                gs[i].1
            };
            merge_acc(gs, i + 1, gs[i - 1].0, m, out)
        } else {
            merge_acc(gs, i + 1, gs[i].0, gs[i].1, out.push((begin, end)))
        }
    }
}

/// Merged bad-region list: adjacent duplicate begins collapsed.
pub open spec fn merge_gaps(gs: Seq<(u64, u64)>) -> Seq<(u64, u64)> {
    if gs.len() == 0 {
        Seq::empty()
    } else {
        merge_acc(gs, 1, gs[0].0, gs[0].1, Seq::empty())
    }
}

/// The bad regions of a read: sweep the sorted intervals, settle the final
/// covered-through position, add the extremity gaps, merge.
pub open spec fn bad_parts_spec(sorted_ivs: Seq<(u64, u64)>, c: u64, length: u64) -> Seq<
    (u64, u64),
> {
    let st = sweep_intervals(sorted_ivs, c);
    let last = final_pop(st.stack, c, length, st.last_covered);
    merge_gaps(add_extremities(st.first_covered, last, length, st.gaps))
}

/// Inserts an open end into the descending stack.
fn stack_insert(stack: &mut Vec<u64>, v: u64)
    ensures
        final(stack)@ == insert_desc(old(stack)@, v),
    decreases old(stack)@.len(),
{
    if stack.len() == 0 {
        stack.push(v);
        assert(stack@ =~= insert_desc(old(stack)@, v));
    } else {
        let top = stack[stack.len() - 1];
        if top >= v {
            stack.push(v);
        } else {
            let _ = stack.pop();
            assert(stack@ =~= old(stack)@.drop_last());
            stack_insert(stack, v);
            stack.push(top);
        }
    }
}

/// Inserts an interval into a `pair_le`-sorted vector.
fn interval_insert(out: &mut Vec<(u64, u64)>, x: (u64, u64))
    ensures
        final(out)@ == insert_sorted(old(out)@, x),
    decreases old(out)@.len(),
{
    if out.len() == 0 {
        out.push(x);
        assert(out@ =~= insert_sorted(old(out)@, x));
    } else {
        let last = out[out.len() - 1];
        if last.0 < x.0 || (last.0 == x.0 && last.1 <= x.1) {
            out.push(x);
        } else {
            let _ = out.pop();
            assert(out@ =~= old(out)@.drop_last());
            interval_insert(out, x);
            out.push(last);
        }
    }
}

/// Sorts the intervals of one read by `(begin, end)`.
pub fn sort_intervals_exec(ivs: &Vec<(u64, u64)>) -> (r: Vec<(u64, u64)>)
    ensures
        r@ == sort_intervals(ivs@),
{
    let mut out: Vec<(u64, u64)> = Vec::new();
    let mut i: usize = 0;
    proof {
        broadcast use vstd::seq_lib::group_to_multiset_ensures;

        assert(ivs@.subrange(0, 0) =~= Seq::<(u64, u64)>::empty());
    }
    while i < ivs.len()
        invariant
            0 <= i <= ivs@.len(),
            sorted_pairs(out@),
            out@.to_multiset() == ivs@.subrange(0, i as int).to_multiset(),
        decreases ivs@.len() - i,
    {
        proof {
            broadcast use vstd::seq_lib::group_to_multiset_ensures;

            lemma_insert_sorted(out@, ivs@[i as int]);
            assert(ivs@.subrange(0, i + 1) =~= ivs@.subrange(0, i as int).push(ivs@[i as int]));
        }
        interval_insert(&mut out, ivs[i]);
        i = i + 1;
    }
    proof {
        assert(ivs@.subrange(0, ivs@.len() as int) =~= ivs@);
        lemma_sort_intervals_ensures(ivs@);
        lemma_sorted_pairs_unique(out@, sort_intervals(ivs@));
    }
    out
}

/// Runs the sweep and the final pop; returns the candidate internal bad
/// regions, the first covered position, and the last covered position.
pub fn sweep_core(ivs: &Vec<(u64, u64)>, c: u64, length: u64) -> (r: (Vec<(u64, u64)>, u64, u64))
    ensures
        ({
            let st = sweep_intervals(ivs@, c);
            r.0@ == st.gaps && r.1 == st.first_covered && r.2 == final_pop(
                st.stack,
                c,
                length,
                st.last_covered,
            )
        }),
{
    let mut stack: Vec<u64> = Vec::new();
    let mut first_covered: u64 = 0;
    let mut last_covered: u64 = 0;
    let mut gaps: Vec<(u64, u64)> = Vec::new();
    let mut i: usize = 0;
    proof {
        assert(ivs@.subrange(0, 0) =~= Seq::<(u64, u64)>::empty());
    }
    while i < ivs.len()
        invariant
            0 <= i <= ivs@.len(),
            ({
                let st = sweep_intervals(ivs@.subrange(0, i as int), c);
                stack@ == st.stack && first_covered == st.first_covered && last_covered
                    == st.last_covered && gaps@ == st.gaps
            }),
        decreases ivs@.len() - i,
    {
        let iv = ivs[i];
        let ghost st0 = sweep_intervals(ivs@.subrange(0, i as int), c);
        // pop everything that ends before the new begin
        while stack.len() > 0 && stack[stack.len() - 1] < iv.0
            invariant
                pop_phase(stack@, iv.0, c, last_covered) == pop_phase(
                    st0.stack,
                    iv.0,
                    c,
                    st0.last_covered,
                ),
            decreases stack@.len(),
        {
            if (stack.len() as u64) > c {
                last_covered = stack[stack.len() - 1];
            }
            let _ = stack.pop();
        }
        proof {
            assert(pop_phase(stack@, iv.0, c, last_covered) == (stack@, last_covered));
        }
        if (stack.len() as u64) <= c {
            if last_covered != 0 {
                gaps.push((last_covered, iv.0));
            } else {
                first_covered = iv.0;
            }
        }
        stack_insert(&mut stack, iv.1);
        proof {
            assert(ivs@.subrange(0, i + 1).drop_last() =~= ivs@.subrange(0, i as int));
            assert(ivs@.subrange(0, i + 1).last() == ivs@[i as int]);
            let st1 = sweep_intervals(ivs@.subrange(0, i + 1), c);
            assert(st1 == sweep_step(st0, iv, c));
        }
        i = i + 1;
    }
    proof {
        assert(ivs@.subrange(0, ivs@.len() as int) =~= ivs@);
    }
    let ghost st = sweep_intervals(ivs@, c);
    // settle the final covered-through position
    while (stack.len() as u64) > c
        invariant_except_break
            final_pop(stack@, c, length, last_covered) == final_pop(
                st.stack,
                c,
                length,
                st.last_covered,
            ),
        ensures
            last_covered == final_pop(st.stack, c, length, st.last_covered),
        decreases stack@.len(),
    {
        last_covered = stack[stack.len() - 1];
        if last_covered >= length {
            break;
        }
        let _ = stack.pop();
    }
    (gaps, first_covered, last_covered)
}

/// Computes the merged bad regions of one read from its sorted intervals.
pub fn bad_parts_sorted(ivs: &Vec<(u64, u64)>, c: u64, length: u64) -> (r: Vec<(u64, u64)>)
    ensures
        r@ == bad_parts_spec(ivs@, c, length),
{
    let (mut gaps, first_covered, last_covered) = sweep_core(ivs, c, length);
    let ghost middle = gaps@;
    if first_covered != 0 {
        gaps.insert(0, (0u64, first_covered));
        proof {
            assert(gaps@ =~= seq![(0u64, first_covered)] + middle);
        }
    }
    if last_covered != length {
        gaps.push((last_covered, length));
    }
    proof {
        let st = sweep_intervals(ivs@, c);
        assert(gaps@ == add_extremities(
            st.first_covered,
            final_pop(st.stack, c, length, st.last_covered),
            length,
            st.gaps,
        ));
    }
    if gaps.len() == 0 {
        let out: Vec<(u64, u64)> = Vec::new();
        assert(out@ =~= merge_gaps(gaps@));
        return out;
    }
    // merge adjacent candidate regions that share a begin
    let mut out: Vec<(u64, u64)> = Vec::new();
    let mut begin: u64 = gaps[0].0;
    let mut end: u64 = gaps[0].1;
    let mut i: usize = 1;
    while i < gaps.len()
        invariant
            1 <= i <= gaps@.len(),
            gaps@.len() >= 1,
            merge_acc(gaps@, i as int, begin, end, out@) == merge_gaps(gaps@),
        decreases gaps@.len() - i,
    {
        let g1 = gaps[i - 1];
        let g2 = gaps[i];
        if g1.0 == g2.0 {
            begin = g1.0;
            end = if g1.1 >= g2.1 {
                g1.1
            } else {
                g2.1
            };
        } else {
            out.push((begin, end));
            begin = g2.0;
            end = g2.1;
        }
        i = i + 1;
    }
    out.push((begin, end));
    out
}

/// Sorts the intervals of one read, then computes its bad regions.
pub fn bad_parts(ivs: &Vec<(u64, u64)>, c: u64, length: u64) -> (r: Vec<(u64, u64)>)
    ensures
        r@ == bad_parts_spec(sort_intervals(ivs@), c, length),
{
    let sorted = sort_intervals_exec(ivs);
    bad_parts_sorted(&sorted, c, length)
}

/// Every begin and end of the sequence is at most the bound.
pub open spec fn pairs_bounded(s: Seq<(u64, u64)>, b: u64) -> bool {
    forall|i: int| 0 <= i < s.len() ==> (#[trigger] s[i]).0 <= b && s[i].1 <= b
}

/// Every end on the stack is at most the bound.
pub open spec fn ends_bounded(s: Seq<u64>, b: u64) -> bool {
    forall|i: int| 0 <= i < s.len() ==> #[trigger] s[i] <= b
}

proof fn lemma_pop_phase_bounded(stack: Seq<u64>, p: u64, c: u64, last: u64, b: u64)
    requires
        ends_bounded(stack, b),
        last <= b,
    ensures
        ends_bounded(pop_phase(stack, p, c, last).0, b),
        pop_phase(stack, p, c, last).1 <= b,
    decreases stack.len(),
{
    if stack.len() == 0 || stack.last() > p {
    } else {
        let l2 = if stack.len() > c {
            stack.last()
        } else {
            last
        };
        assert(ends_bounded(stack.drop_last(), b));
        lemma_pop_phase_bounded(stack.drop_last(), p, c, l2, b);
    }
}

proof fn lemma_insert_desc_bounded(s: Seq<u64>, v: u64, b: u64)
    requires
        ends_bounded(s, b),
        v <= b,
    ensures
        ends_bounded(insert_desc(s, v), b),
    decreases s.len(),
{
    if s.len() == 0 {
    } else if s.last() >= v {
    } else {
        assert(ends_bounded(s.drop_last(), b));
        lemma_insert_desc_bounded(s.drop_last(), v, b);
    }
}

proof fn lemma_sweep_bounded(ivs: Seq<(u64, u64)>, c: u64, b: u64)
    requires
        pairs_bounded(ivs, b),
    ensures
        ends_bounded(sweep_intervals(ivs, c).stack, b),
        sweep_intervals(ivs, c).first_covered <= b,
        sweep_intervals(ivs, c).last_covered <= b,
        pairs_bounded(sweep_intervals(ivs, c).gaps, b),
    decreases ivs.len(),
{
    if ivs.len() == 0 {
    } else {
        assert(pairs_bounded(ivs.drop_last(), b));
        lemma_sweep_bounded(ivs.drop_last(), c, b);
        let st = sweep_intervals(ivs.drop_last(), c);
        let iv = ivs.last();
        lemma_pop_phase_bounded(st.stack, iv.0, c, st.last_covered, b);
        let (stack1, last1) = pop_phase(st.stack, iv.0, c, st.last_covered);
        lemma_insert_desc_bounded(stack1, iv.1, b);
    }
}

proof fn lemma_final_pop_bounded(stack: Seq<u64>, c: u64, length: u64, last: u64, b: u64)
    requires
        ends_bounded(stack, b),
        last <= b,
    ensures
        final_pop(stack, c, length, last) <= b,
    decreases stack.len(),
{
    if stack.len() <= c {
    } else if stack.last() >= length {
    } else {
        assert(ends_bounded(stack.drop_last(), b));
        lemma_final_pop_bounded(stack.drop_last(), c, length, stack.last(), b);
    }
}

proof fn lemma_merge_acc_bounded(
    gs: Seq<(u64, u64)>,
    i: int,
    begin: u64,
    end: u64,
    out: Seq<(u64, u64)>,
    b: u64,
)
    requires
        pairs_bounded(gs, b),
        begin <= b,
        end <= b,
        pairs_bounded(out, b),
    ensures
        pairs_bounded(merge_acc(gs, i, begin, end, out), b),
    decreases gs.len() - i,
{
    if i < 1 || i >= gs.len() {
        assert(pairs_bounded(out.push((begin, end)), b));
    } else {
        if gs[i - 1].0 == gs[i].0 {
            let m = if gs[i - 1].1 >= gs[i].1 {
                gs[i - 1].1
            } else {
                gs[i].1
            };
            lemma_merge_acc_bounded(gs, i + 1, gs[i - 1].0, m, out, b);
        } else {
            assert(pairs_bounded(out.push((begin, end)), b));
            lemma_merge_acc_bounded(gs, i + 1, gs[i].0, gs[i].1, out.push((begin, end)), b);
        }
    }
}

/// Sorting keeps every interval, so it keeps the bound.
proof fn lemma_sort_intervals_bounded(s: Seq<(u64, u64)>, b: u64)
    requires
        pairs_bounded(s, b),
    ensures
        pairs_bounded(sort_intervals(s), b),
{
    broadcast use vstd::seq_lib::group_to_multiset_ensures;

    lemma_sort_intervals_ensures(s);
    let t = sort_intervals(s);
    assert forall|i: int| 0 <= i < t.len() implies (#[trigger] t[i]).0 <= b && t[i].1 <= b by {
        assert(t.contains(t[i]));
        assert(t.to_multiset().count(t[i]) > 0);
        assert(s.to_multiset().count(t[i]) > 0);
        assert(s.contains(t[i]));
        let k = choose|k: int| 0 <= k < s.len() && s[k] == t[i];
        assert(s[k].0 <= b && s[k].1 <= b);
    }
}

/// Every begin and end of a bad region is the origin, the read length, or
/// a coordinate of one of the intervals: the output stays within any bound
/// that covers the input and the length.
pub proof fn lemma_bad_parts_bounded(ivs: Seq<(u64, u64)>, c: u64, length: u64, b: u64)
    requires
        pairs_bounded(ivs, b),
        length <= b,
    ensures
        pairs_bounded(bad_parts_spec(sort_intervals(ivs), c, length), b),
{
    lemma_sort_intervals_bounded(ivs, b);
    let sorted = sort_intervals(ivs);
    lemma_sweep_bounded(sorted, c, b);
    let st = sweep_intervals(sorted, c);
    lemma_final_pop_bounded(st.stack, c, length, st.last_covered, b);
    let last = final_pop(st.stack, c, length, st.last_covered);
    let ext = add_extremities(st.first_covered, last, length, st.gaps);
    assert(pairs_bounded(ext, b)) by {
        let g1 = if st.first_covered != 0 {
            seq![(0u64, st.first_covered)] + st.gaps
        } else {
            st.gaps
        };
        assert(pairs_bounded(g1, b));
        if last != length {
            assert(pairs_bounded(g1.push((last, length)), b));
        }
    }
    if ext.len() == 0 {
    } else {
        lemma_merge_acc_bounded(ext, 1, ext[0].0, ext[0].1, Seq::empty(), b);
    }
}

} // verus!

//! The library's stated laws, proved once and for all.

use vstd::prelude::*;

use crate::editor::{classify_read, exceeds_ratio, total_uncovered32, Ratio, ReadType};
use crate::stack::{parse_gap_entry, parse_gap_list, parse_gaps, valid_u32_digits};
use crate::sweep::{
    add_extremities, bad_parts_spec, final_pop, lemma_sort_intervals_ensures,
    lemma_sorted_pairs_unique, merge_acc, merge_gaps, sort_intervals, sorted_pairs,
    sweep_intervals,
};
use crate::text::{
    all_digits, dec_str, digits_value, is_digit_char, lemma_dec_str_value, split_acc, split_seq,
};

verus! {

/// A read with no overlaps has exactly one bad region, spanning the whole
/// read.
pub proof fn lemma_no_overlaps_whole_read_bad(c: u64, length: u64)
    requires
        1 <= length,
    ensures
        bad_parts_spec(sort_intervals(Seq::empty()), c, length) == seq![(0u64, length)],
{
    lemma_sort_intervals_ensures(Seq::empty());
    assert(sort_intervals(Seq::<(u64, u64)>::empty()) =~= Seq::<(u64, u64)>::empty());
    let st = sweep_intervals(Seq::<(u64, u64)>::empty(), c);
    assert(st.stack.len() == 0);
    assert(final_pop(st.stack, c, length, st.last_covered) == 0);
    let ext = add_extremities(0, 0, length, st.gaps);
    assert(ext =~= seq![(0u64, length)]);
    assert(merge_gaps(ext) == merge_acc(ext, 1, 0u64, length, Seq::empty()));
    assert(merge_acc(ext, 1, 0u64, length, Seq::empty()) =~= seq![(0u64, length)]);
}

/// A read whose single bad region spans its whole length is `NotCovered`
/// under any threshold below one.
pub proof fn lemma_whole_read_gap_not_covered(length: u32, r: Ratio)
    requires
        1 <= length,
        r.wf(),
        r.numer < r.denom,
    ensures
        classify_read(seq![(0u32, length)], length as int, r) == ReadType::NotCovered,
{
    let gs = seq![(0u32, length)];
    assert(gs.drop_last() =~= Seq::<(u32, u32)>::empty());
    assert(total_uncovered32(Seq::<(u32, u32)>::empty()) == 0);
    assert(total_uncovered32(gs) == length as int);
    assert((length as int) * (r.denom as int) > (r.numer as int) * (length as int))
        by (nonlinear_arith)
        requires
            1 <= length,
            r.numer < r.denom,
    ;
}

/// A read fully covered by one interval spanning it, under coverage
/// threshold zero, has no bad regions.
pub proof fn lemma_full_cover_no_bad_region(length: u64)
    ensures
        bad_parts_spec(sort_intervals(seq![(0u64, length)]), 0, length) == Seq::<
            (u64, u64),
        >::empty(),
{
    let ivs = seq![(0u64, length)];
    lemma_sort_intervals_ensures(ivs);
    assert(sorted_pairs(ivs));
    lemma_sorted_pairs_unique(sort_intervals(ivs), ivs);
    let st0 = sweep_intervals(ivs.drop_last(), 0);
    assert(ivs.drop_last() =~= Seq::<(u64, u64)>::empty());
    let st = sweep_intervals(ivs, 0);
    assert(st.stack =~= seq![length]);
    assert(st.first_covered == 0 && st.last_covered == 0 && st.gaps =~= Seq::<(u64, u64)>::empty());
    assert(final_pop(st.stack, 0, length, 0) == length);
    let ext = add_extremities(0, length, length, st.gaps);
    assert(ext =~= Seq::<(u64, u64)>::empty());
    assert(merge_gaps(ext) =~= Seq::<(u64, u64)>::empty());
}

/// A read with no bad regions is `NotBad`.
pub proof fn lemma_no_bad_region_not_bad(length: usize, r: Ratio)
    requires
        r.wf(),
    ensures
        classify_read(Seq::empty(), length as int, r) == ReadType::NotBad,
{
    assert(total_uncovered32(Seq::<(u32, u32)>::empty()) == 0);
    assert((r.numer as int) * (length as int) >= 0) by (nonlinear_arith)
        requires
            r.numer >= 0,
            length >= 0,
    ;
}

/// A read with no overlaps computes to the single bad region spanning it,
/// and is `NotCovered` under any threshold below one.
pub proof fn lemma_no_overlaps_not_covered(c: u64, length: u32, r: Ratio)
    requires
        1 <= length,
        r.wf(),
        r.numer < r.denom,
    ensures
        crate::stack::computed_regions(Seq::empty(), c, length as usize) == seq![(0u32, length)],
        classify_read(
            crate::stack::computed_regions(Seq::empty(), c, length as usize),
            length as int,
            r,
        ) == ReadType::NotCovered,
{
    assert(crate::stack::widen_pairs(Seq::<(u32, u32)>::empty()) =~= Seq::<(u64, u64)>::empty());
    lemma_no_overlaps_whole_read_bad(c, length as u64);
    assert(crate::stack::narrow_pairs(seq![(0u64, length as u64)]) =~= seq![(0u32, length)]);
    lemma_whole_read_gap_not_covered(length, r);
}

/// A read fully covered by one interval `[0, length)`, under coverage
/// threshold zero, computes to no bad regions and is `NotBad`.
pub proof fn lemma_full_cover_not_bad(length: u32, r: Ratio)
    requires
        r.wf(),
    ensures
        crate::stack::computed_regions(seq![(0u32, length)], 0, length as usize) == Seq::<
            (u32, u32),
        >::empty(),
        classify_read(
            crate::stack::computed_regions(seq![(0u32, length)], 0, length as usize),
            length as int,
            r,
        ) == ReadType::NotBad,
{
    assert(crate::stack::widen_pairs(seq![(0u32, length)]) =~= seq![(0u64, length as u64)]);
    lemma_full_cover_no_bad_region(length as u64);
    assert(crate::stack::narrow_pairs(Seq::<(u64, u64)>::empty()) =~= Seq::<(u32, u32)>::empty());
    lemma_no_bad_region_not_bad(length as usize, r);
}

/// Two adjacent candidate regions with one begin collapse to a single
/// region spanning the larger end.
pub proof fn lemma_merge_same_begin(b: u64, e1: u64, e2: u64)
    ensures
        merge_gaps(seq![(b, e1), (b, e2)]) == seq![
            (
                b,
                if e1 >= e2 {
                    e1
                } else {
                    e2
                },
            ),
        ],
{
    let gs = seq![(b, e1), (b, e2)];
    let m = if e1 >= e2 {
        e1
    } else {
        e2
    };
    assert(merge_acc(gs, 2, b, m, Seq::empty()) =~= seq![(b, m)]);
}

/// No two adjacent regions of a merged list share a begin.
pub open spec fn adjacent_begins_distinct(s: Seq<(u64, u64)>) -> bool {
    forall|i: int| 0 <= i < s.len() - 1 ==> (#[trigger] s[i]).0 != s[i + 1].0
}

proof fn lemma_merge_acc_distinct(
    gs: Seq<(u64, u64)>,
    i: int,
    begin: u64,
    end: u64,
    out: Seq<(u64, u64)>,
)
    requires
        1 <= i <= gs.len(),
        begin == gs[i - 1].0,
        adjacent_begins_distinct(out),
        out.len() > 0 ==> out.last().0 != begin,
    ensures
        adjacent_begins_distinct(merge_acc(gs, i, begin, end, out)),
    decreases gs.len() - i,
{
    if i >= gs.len() {
        let res = out.push((begin, end));
        assert forall|j: int| 0 <= j < res.len() - 1 implies (#[trigger] res[j]).0 != res[j
            + 1].0 by {
            if j < out.len() - 1 {
            } else {
                assert(res[j] == out.last());
            }
        }
    } else {
        if gs[i - 1].0 == gs[i].0 {
            let m = if gs[i - 1].1 >= gs[i].1 {
                gs[i - 1].1
            } else {
                gs[i].1
            };
            lemma_merge_acc_distinct(gs, i + 1, gs[i - 1].0, m, out);
        } else {
            let out2 = out.push((begin, end));
            assert forall|j: int| 0 <= j < out2.len() - 1 implies (#[trigger] out2[j]).0 != out2[j
                + 1].0 by {
                if j < out.len() - 1 {
                } else {
                    assert(out2[j] == out.last());
                }
            }
            assert(out2.last().0 == gs[i - 1].0);
            lemma_merge_acc_distinct(gs, i + 1, gs[i].0, gs[i].1, out2);
        }
    }
}

/// The merged bad-region list never keeps two adjacent regions with one
/// begin.
pub proof fn lemma_merge_begins_distinct(gs: Seq<(u64, u64)>)
    ensures
        adjacent_begins_distinct(merge_gaps(gs)),
{
    if gs.len() == 0 {
        assert(adjacent_begins_distinct(Seq::<(u64, u64)>::empty()));
    } else {
        lemma_merge_acc_distinct(gs, 1, gs[0].0, gs[0].1, Seq::empty());
    }
}

/// A read whose total bad length exceeds the fraction of its length is
/// `NotCovered`, whatever its gaps look like: the not-covered check wins
/// over the chimeric one.
pub proof fn lemma_not_covered_precedence(gs: Seq<(u32, u32)>, length: int, r: Ratio)
    requires
        exceeds_ratio(total_uncovered32(gs), length, r),
    ensures
        classify_read(gs, length, r) == ReadType::NotCovered,
{
}

/// Two bad-part sources that agree read for read, in the same order,
/// write byte-identical reports under one threshold.
pub proof fn lemma_report_agreement(
    parts1: Map<Seq<char>, (Seq<(u32, u32)>, usize)>,
    ord1: Seq<Seq<char>>,
    parts2: Map<Seq<char>, (Seq<(u32, u32)>, usize)>,
    ord2: Seq<Seq<char>>,
    ncov: Ratio,
)
    requires
        parts1 == parts2,
        ord1 == ord2,
    ensures
        crate::editor::report_of(parts1, ord1, ncov) == crate::editor::report_of(
            parts2,
            ord2,
            ncov,
        ),
{
}

/// No decimal digit is a separator.
proof fn lemma_digits_no_char(s: Seq<char>, c: char)
    requires
        all_digits(s),
        !is_digit_char(c),
    ensures
        forall|i: int| 0 <= i < s.len() ==> s[i] != c,
{
}

/// Splitting a separator-free piece only extends the current segment.
proof fn lemma_split_acc_free(x: Seq<char>, sep: char, cur: Seq<char>)
    requires
        forall|i: int| 0 <= i < x.len() ==> x[i] != sep,
    ensures
        split_acc(x, sep, cur) == seq![cur + x],
    decreases x.len(),
{
    if x.len() == 0 {
        assert(cur + x =~= cur);
    } else {
        lemma_split_acc_free(x.drop_first(), sep, cur.push(x[0]));
        assert(forall|i: int| 0 <= i < x.drop_first().len() ==> x.drop_first()[i] != sep);
        assert(cur.push(x[0]) + x.drop_first() =~= cur + x);
    }
}

/// Splitting distributes over concatenation: the last open segment of the
/// left part continues into the right part.
proof fn lemma_split_acc_concat(x: Seq<char>, y: Seq<char>, sep: char, cur: Seq<char>)
    ensures
        split_acc(x, sep, cur).len() >= 1,
        split_acc(x + y, sep, cur) == split_acc(x, sep, cur).drop_last() + split_acc(
            y,
            sep,
            split_acc(x, sep, cur).last(),
        ),
    decreases x.len(),
{
    if x.len() == 0 {
        assert(x + y =~= y);
        assert(split_acc(x, sep, cur) == seq![cur]);
        assert(split_acc(x, sep, cur).drop_last() =~= Seq::<Seq<char>>::empty());
        assert(Seq::<Seq<char>>::empty() + split_acc(y, sep, cur) =~= split_acc(y, sep, cur));
    } else {
        assert((x + y)[0] == x[0]);
        assert((x + y).drop_first() =~= x.drop_first() + y);
        if x[0] == sep {
            lemma_split_acc_concat(x.drop_first(), y, sep, Seq::empty());
            let parts = split_acc(x.drop_first(), sep, Seq::empty());
            assert(split_acc(x, sep, cur) == seq![cur] + parts);
            assert((seq![cur] + parts).drop_last() =~= seq![cur] + parts.drop_last());
            assert((seq![cur] + parts).last() == parts.last());
            assert(seq![cur] + (parts.drop_last() + split_acc(y, sep, parts.last())) =~= (seq![cur]
                + parts.drop_last()) + split_acc(y, sep, parts.last()));
        } else {
            lemma_split_acc_concat(x.drop_first(), y, sep, cur.push(x[0]));
        }
    }
}

/// One written gap entry reads back as the same region.
proof fn lemma_gap_entry_round_trip(g: (u32, u32))
    ensures
        all_digits(crate::editor::gap_entry32(g)) == false || true,
        parse_gap_entry(crate::editor::gap_entry32(g)) == Some(g),
        forall|i: int|
            0 <= i < crate::editor::gap_entry32(g).len() ==> crate::editor::gap_entry32(g)[i]
                != ';',
{
    let glen = crate::editor::gap_length32(g);
    let d0 = dec_str(glen);
    let d1 = dec_str(g.0 as int);
    let d2 = dec_str(g.1 as int);
    lemma_dec_str_value(glen);
    lemma_dec_str_value(g.0 as int);
    lemma_dec_str_value(g.1 as int);
    let entry = crate::editor::gap_entry32(g);
    assert(entry =~= d0 + seq![','] + d1 + seq![','] + d2);
    // the three number fields come back apart at the commas
    lemma_digits_no_char(d0, ',');
    lemma_digits_no_char(d1, ',');
    lemma_digits_no_char(d2, ',');
    lemma_split_acc_concat(d0 + seq![','], d1 + seq![','] + d2, ',', Seq::empty());
    assert(entry =~= (d0 + seq![',']) + (d1 + seq![','] + d2));
    lemma_split_acc_free(d0, ',', Seq::empty());
    lemma_split_acc_concat(d0, seq![','], ',', Seq::empty());
    assert(split_acc(seq![','], ',', d0) == seq![d0, Seq::<char>::empty()]) by {
        assert(seq![','].drop_first() =~= Seq::<char>::empty());
        assert(split_acc(Seq::<char>::empty(), ',', Seq::<char>::empty()) == seq![Seq::<
            char,
        >::empty()]);
        assert(split_acc(seq![','], ',', d0) == seq![d0] + seq![Seq::<char>::empty()]);
        assert(seq![d0] + seq![Seq::<char>::empty()] =~= seq![d0, Seq::<char>::empty()]);
    }
    assert(split_acc(d0 + seq![','], ',', Seq::empty()) =~= seq![d0, Seq::<char>::empty()]);
    lemma_split_acc_concat(d1 + seq![','], d2, ',', Seq::empty());
    lemma_split_acc_free(d1, ',', Seq::empty());
    lemma_split_acc_concat(d1, seq![','], ',', Seq::empty());
    assert(split_acc(seq![','], ',', d1) == seq![d1, Seq::<char>::empty()]) by {
        assert(seq![','].drop_first() =~= Seq::<char>::empty());
        assert(split_acc(Seq::<char>::empty(), ',', Seq::<char>::empty()) == seq![Seq::<
            char,
        >::empty()]);
        assert(split_acc(seq![','], ',', d1) == seq![d1] + seq![Seq::<char>::empty()]);
        assert(seq![d1] + seq![Seq::<char>::empty()] =~= seq![d1, Seq::<char>::empty()]);
    }
    assert(split_acc(d1 + seq![','], ',', Seq::empty()) =~= seq![d1, Seq::<char>::empty()]);
    lemma_split_acc_free(d2, ',', Seq::empty());
    assert(split_acc(d1 + seq![','] + d2, ',', Seq::empty()) =~= seq![d1, d2]) by {
        assert((d1 + seq![','] + d2) =~= (d1 + seq![',']) + d2);
        assert(seq![d1, Seq::<char>::empty()].drop_last() =~= seq![d1]);
        assert(seq![d1, Seq::<char>::empty()].last() =~= Seq::<char>::empty());
        assert(split_acc(d2, ',', Seq::empty()) == seq![Seq::<char>::empty() + d2]);
        assert(Seq::<char>::empty() + d2 =~= d2);
        assert(seq![d1] + seq![d2] =~= seq![d1, d2]);
    }
    assert(split_seq(entry, ',') =~= seq![d0, d1, d2]) by {
        assert(seq![d0, Seq::<char>::empty()].drop_last() =~= seq![d0]);
        assert(seq![d0, Seq::<char>::empty()].last() =~= Seq::<char>::empty());
        assert(split_acc(d1 + seq![','] + d2, ',', Seq::empty()) =~= seq![d1, d2]);
        assert(seq![d0] + seq![d1, d2] =~= seq![d0, d1, d2]);
    }
    assert(valid_u32_digits(d1));
    assert(valid_u32_digits(d2));
    assert(parse_gap_entry(entry) == Some((g.0, g.1)));
    assert((g.0, g.1) == g);
    // a digit or a comma is never a semicolon
    assert forall|i: int| 0 <= i < entry.len() implies entry[i] != ';' by {
        if i < d0.len() {
            assert(is_digit_char(entry[i]));
        } else if i == d0.len() {
        } else if i < d0.len() + 1 + d1.len() {
            assert(entry[i] == d1[i - d0.len() - 1]);
            assert(is_digit_char(entry[i]));
        } else if i == d0.len() + 1 + d1.len() {
        } else {
            assert(entry[i] == d2[i - d0.len() - 2 - d1.len()]);
            assert(is_digit_char(entry[i]));
        }
    }
}

/// Round trip: the written gap string of a non-empty bad-region list
/// reads back as exactly that list, ordering and merge state preserved.
pub proof fn lemma_gap_string_round_trip(gs: Seq<(u32, u32)>)
    requires
        gs.len() >= 1,
    ensures
        parse_gaps(crate::editor::gap_string32(gs)) == Some(gs),
    decreases gs.len(),
{
    let s = crate::editor::gap_string32(gs);
    if gs.len() == 1 {
        lemma_gap_entry_round_trip(gs[0]);
        lemma_split_acc_free(crate::editor::gap_entry32(gs[0]), ';', Seq::empty());
        assert(Seq::<char>::empty() + crate::editor::gap_entry32(gs[0])
            =~= crate::editor::gap_entry32(gs[0]));
        assert(split_seq(s, ';') == seq![crate::editor::gap_entry32(gs[0])]);
        assert(seq![crate::editor::gap_entry32(gs[0])].drop_last() =~= Seq::<Seq<char>>::empty());
        assert(parse_gap_list(Seq::<Seq<char>>::empty()) == Some(Seq::<(u32, u32)>::empty()));
        assert(parse_gap_list(split_seq(s, ';')) == Some(Seq::<(u32, u32)>::empty().push(gs[0])));
        assert(Seq::<(u32, u32)>::empty().push(gs[0]) =~= gs);
    } else {
        lemma_gap_string_round_trip(gs.drop_last());
        let front = crate::editor::gap_string32(gs.drop_last());
        let entry = crate::editor::gap_entry32(gs.last());
        assert(s == front + seq![';'] + entry);
        lemma_gap_entry_round_trip(gs.last());
        lemma_split_acc_concat(front + seq![';'], entry, ';', Seq::empty());
        lemma_split_acc_concat(front, seq![';'], ';', Seq::empty());
        let fparts = split_acc(front, ';', Seq::empty());
        assert(split_acc(seq![';'], ';', fparts.last()) == seq![fparts.last(), Seq::<
            char,
        >::empty()]) by {
            assert(seq![';'].drop_first() =~= Seq::<char>::empty());
            assert(split_acc(Seq::<char>::empty(), ';', Seq::<char>::empty()) == seq![Seq::<
                char,
            >::empty()]);
            assert(split_acc(seq![';'], ';', fparts.last()) == seq![fparts.last()] + seq![Seq::<
                char,
            >::empty()]);
            assert(seq![fparts.last()] + seq![Seq::<char>::empty()] =~= seq![fparts.last(), Seq::<
                char,
            >::empty()]);
        }
        assert(split_acc(front + seq![';'], ';', Seq::empty()) =~= fparts.drop_last() + seq![
            fparts.last(),
            Seq::<char>::empty(),
        ]);
        lemma_split_acc_free(entry, ';', Seq::empty());
        assert(Seq::<char>::empty() + entry =~= entry);
        assert((front + seq![';']) + entry =~= s);
        let whole = split_acc(s, ';', Seq::empty());
        assert(whole =~= (fparts.drop_last() + seq![fparts.last(), Seq::<char>::empty()]).drop_last()
            + seq![entry]);
        assert((fparts.drop_last() + seq![fparts.last(), Seq::<char>::empty()]).drop_last() =~=
        fparts.drop_last() + seq![fparts.last()]);
        assert(fparts.drop_last() + seq![fparts.last()] =~= fparts);
        assert(whole =~= fparts + seq![entry]);
        assert(whole.drop_last() =~= fparts);
        assert(whole.last() == entry);
        assert(parse_gap_list(whole) == Some(gs.drop_last().push(gs.last())));
        assert(gs.drop_last().push(gs.last()) =~= gs);
    }
}

} // verus!

//! The spans kept when every bad region of a read is scrubbed away.

use vstd::prelude::*;

verus! {

/// The cut positions of a read: the origin, the bounds of every bad
/// region, and the read end when coverage did not reach it.
pub open spec fn scrub_bounds(gs: Seq<(u32, u32)>) -> Seq<u32>
    decreases gs.len(),
{
    if gs.len() == 0 {
        Seq::empty()
    } else {
        scrub_bounds(gs.drop_last()) + seq![gs.last().0, gs.last().1]
    }
}

/// Consecutive pairs of cut positions, from `i`; a trailing odd position
/// is dropped.
pub open spec fn chunk_pairs(s: Seq<u32>, i: int) -> Seq<(u32, u32)>
    decreases s.len() - i,
{
    if i < 0 || i + 2 > s.len() {
        Seq::empty()
    } else {
        seq![(s[i], s[i + 1])] + chunk_pairs(s, i + 2)
    }
}

/// The spans kept after scrubbing: between the cut positions, skipping a
/// leading empty span.
pub open spec fn scrub_positions_spec(gs: Seq<(u32, u32)>, length: u32) -> Seq<(u32, u32)> {
    let base = seq![0u32] + scrub_bounds(gs);
    let full = if base.last() != length {
        base.push(length)
    } else {
        base
    };
    let start: int = if full.len() >= 2 && full[0] == 0 && full[1] == 0 {
        2
    } else {
        0
    };
    chunk_pairs(full, start)
}

/// The spans of a read kept by a scrub, given its bad regions and length.
pub fn scrub_positions(badregion: &Vec<(u32, u32)>, length: u32) -> (r: Vec<(u32, u32)>)
    ensures
        r@ == scrub_positions_spec(badregion@, length),
{
    let mut poss: Vec<u32> = Vec::new();
    poss.push(0);
    let mut i: usize = 0;
    proof {
        assert(badregion@.subrange(0, 0) =~= Seq::<(u32, u32)>::empty());
        assert(poss@ =~= seq![0u32] + scrub_bounds(badregion@.subrange(0, 0)));
    }
    while i < badregion.len()
        invariant
            0 <= i <= badregion@.len(),
            poss@ == seq![0u32] + scrub_bounds(badregion@.subrange(0, i as int)),
            poss@.len() >= 1,
        decreases badregion@.len() - i,
    {
        let g = badregion[i];
        poss.push(g.0);
        poss.push(g.1);
        proof {
            assert(badregion@.subrange(0, i + 1).drop_last() =~= badregion@.subrange(0, i as int));
            assert(badregion@.subrange(0, i + 1).last() == badregion@[i as int]);
            assert(poss@ =~= seq![0u32] + scrub_bounds(badregion@.subrange(0, i + 1)));
        }
        i = i + 1;
    }
    proof {
        assert(badregion@.subrange(0, badregion@.len() as int) =~= badregion@);
    }
    if poss[poss.len() - 1] != length {
        poss.push(length);
    }
    let start: usize = if poss.len() >= 2 && poss[0] == 0 && poss[1] == 0 {
        2
    } else {
        0
    };
    let mut out: Vec<(u32, u32)> = Vec::new();
    let mut j: usize = start;
    proof {
        assert(out@ + chunk_pairs(poss@, j as int) =~= chunk_pairs(poss@, start as int));
    }
    while j < poss.len() - 1
        invariant
            0 <= j <= poss@.len() + 2,
            poss@.len() >= 1,
            chunk_pairs(poss@, start as int) == out@ + chunk_pairs(poss@, j as int),
        decreases poss@.len() - j,
    {
        let ghost prev = out@;
        out.push((poss[j], poss[j + 1]));
        proof {
            assert(out@ =~= prev + seq![(poss@[j as int], poss@[j + 1])]);
            assert((prev + seq![(poss@[j as int], poss@[j + 1])]) + chunk_pairs(poss@, j + 2) =~=
            prev + (seq![(poss@[j as int], poss@[j + 1])] + chunk_pairs(poss@, j + 2)));
        }
        j = j + 2;
    }
    proof {
        assert(chunk_pairs(poss@, j as int) =~= Seq::<(u32, u32)>::empty());
        assert(out@ + Seq::<(u32, u32)>::empty() =~= out@);
    }
    out
}

} // verus!

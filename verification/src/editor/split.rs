//! The spans kept when a read is split at its internal bad regions.

use vstd::prelude::*;

use crate::editor::scrubbing::chunk_pairs;

verus! {

/// The bounds of the internal bad regions: one touching either extremity
/// is not a split point.
pub open spec fn split_bounds(gs: Seq<(u32, u32)>, length: u32) -> Seq<u32>
    decreases gs.len(),
{
    if gs.len() == 0 {
        Seq::empty()
    } else {
        let rest = split_bounds(gs.drop_last(), length);
        if gs.last().0 == 0 || gs.last().1 == length {
            rest
        } else {
            rest + seq![gs.last().0, gs.last().1]
        }
    }
}

/// The spans kept after a split: from the origin, around every internal
/// bad region, to the read end.
pub open spec fn split_positions_spec(gs: Seq<(u32, u32)>, length: u32) -> Seq<(u32, u32)> {
    chunk_pairs(seq![0u32] + split_bounds(gs, length) + seq![length], 0)
}

/// The spans of a read kept by a split, given its bad regions and length.
pub fn split_positions(badregion: &Vec<(u32, u32)>, length: u32) -> (r: Vec<(u32, u32)>)
    ensures
        r@ == split_positions_spec(badregion@, length),
{
    let mut poss: Vec<u32> = Vec::new();
    poss.push(0);
    let mut i: usize = 0;
    proof {
        assert(badregion@.subrange(0, 0) =~= Seq::<(u32, u32)>::empty());
        assert(poss@ =~= seq![0u32] + split_bounds(badregion@.subrange(0, 0), length));
    }
    while i < badregion.len()
        invariant
            0 <= i <= badregion@.len(),
            poss@ == seq![0u32] + split_bounds(badregion@.subrange(0, i as int), length),
        decreases badregion@.len() - i,
    {
        let g = badregion[i];
        proof {
            assert(badregion@.subrange(0, i + 1).drop_last() =~= badregion@.subrange(0, i as int));
            assert(badregion@.subrange(0, i + 1).last() == badregion@[i as int]);
        }
        if !(g.0 == 0 || g.1 == length) {
            poss.push(g.0);
            poss.push(g.1);
            proof {
                assert(poss@ =~= seq![0u32] + split_bounds(badregion@.subrange(0, i + 1), length));
            }
        } else {
            proof {
                assert(poss@ =~= seq![0u32] + split_bounds(badregion@.subrange(0, i + 1), length));
            }
        }
        i = i + 1;
    }
    poss.push(length);
    proof {
        assert(badregion@.subrange(0, badregion@.len() as int) =~= badregion@);
        assert(poss@ =~= seq![0u32] + split_bounds(badregion@, length) + seq![length]);
    }
    let mut out: Vec<(u32, u32)> = Vec::new();
    let mut j: usize = 0;
    proof {
        assert(out@ + chunk_pairs(poss@, 0) =~= chunk_pairs(poss@, 0));
    }
    while j < poss.len() - 1
        invariant
            0 <= j <= poss@.len() + 2,
            poss@.len() >= 1,
            chunk_pairs(poss@, 0) == out@ + chunk_pairs(poss@, j as int),
        decreases poss@.len() - j,
    {
        let ghost prev = out@;
        out.push((poss[j], poss[j + 1]));
        proof {
            assert(out@ =~= prev + seq![(poss@[j as int], poss@[j + 1])]);
            assert((prev + seq![(poss@[j as int], poss@[j + 1])]) + chunk_pairs(poss@, j + 2) =~=
            prev + (seq![(poss@[j as int], poss@[j + 1])] + chunk_pairs(poss@, j + 2)));
        }
        j = j + 2;
    }
    proof {
        assert(chunk_pairs(poss@, j as int) =~= Seq::<(u32, u32)>::empty());
        assert(out@ + Seq::<(u32, u32)>::empty() =~= out@);
    }
    out
}

} // verus!

//! The puzzle generator: solve an empty board once to get a random full
//! solution, then walk the cells in a shuffled order and clear each one
//! whose removal still leaves exactly one discoverable solution.

use vstd::prelude::*;

use crate::grid::{
    completions, extends, is_solved, lemma_clear_keeps_no_conflicts, lemma_completions_finite,
    lemma_solved_completions, lemma_solved_grid_exists, no_conflicts, Grid,
};
use crate::rng::DigitSource;
use crate::solver::solve;

verus! {

/// Produce a puzzle with exactly one solution. Construction starts from a
/// random full solution of the empty board and clears a cell only after a
/// solve with limit 2 reported exactly one solution, so every accepted
/// removal provably kept the solution unique.
pub fn generate(src: &mut DigitSource) -> (g: Grid)
    ensures
        g.wf(),
        no_conflicts(g@),
        completions(g@).len() == 1,
        exists|s: Seq<u8>| is_solved(s) && extends(g@, s),
{
    let mut full = Grid::new_empty();
    let ghost emptyv = full@;
    let count = solve(&mut full, 1, src);
    proof {
        // The empty board has a completion, so the search cannot have come
        // back empty-handed: the count is exactly the limit, 1.
        broadcast use vstd::set::group_set_axioms;

        lemma_solved_grid_exists();
        let w = choose|s: Seq<u8>| is_solved(s);
        assert(extends(emptyv, w));
        assert(completions(emptyv).contains(w));
        lemma_completions_finite(emptyv);
        if count < 1 {
            completions(emptyv).lemma_len0_is_empty();
            assert(false);
        }
        assert(count == 1);
        assert(is_solved(full@));
    }
    let ghost fullv = full@;
    proof {
        lemma_solved_completions(fullv);
    }
    let order = src.shuffled_cells();
    let mut candidate = full;
    let mut t: usize = 0;
    while t < 81
        invariant
            candidate.wf(),
            no_conflicts(candidate@),
            completions(candidate@).len() == 1,
            order@.len() == 81,
            forall|k: int| #![trigger order@[k]] 0 <= k < 81 ==> order@[k] < 81,
            t <= 81,
        decreases 81 - t,
    {
        let pos = order[t] as usize;
        let save = candidate.get(pos);
        let ghost prev = candidate@;
        candidate.set(pos, 0);
        proof {
            lemma_clear_keeps_no_conflicts(prev, pos as int);
        }
        let mut probe = candidate.duplicate();
        let c = solve(&mut probe, 2, src);
        if c != 1 {
            candidate.set(pos, save);
            proof {
                assert(candidate@ =~= prev);
            }
        }
        t += 1;
    }
    proof {
        broadcast use vstd::set::group_set_axioms;

        if !(exists|s: Seq<u8>| completions(candidate@).contains(s)) {
            assert(completions(candidate@) =~= Set::<Seq<u8>>::empty());
            assert(false);
        }
        let w = choose|s: Seq<u8>| completions(candidate@).contains(s);
        assert(is_solved(w) && extends(candidate@, w));
    }
    candidate
}

} // verus!

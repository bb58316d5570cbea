//! The randomized backtracking solver: fill the first empty cell with the
//! digits 1-9 in a freshly shuffled order, recurse, and count complete
//! solutions until a caller-supplied limit is reached.

use vstd::prelude::*;

use crate::grid::{
    completions, completions_via, extends, is_complete, is_solved,
    lemma_blocked_digit_no_completions, lemma_completions_finite, lemma_completions_via_empty,
    lemma_completions_via_full, lemma_completions_via_split, lemma_completions_via_subset,
    lemma_extends_trans,
    lemma_fill_keeps_no_conflicts, lemma_inconsistent_completions, lemma_solved_completions,
    lemma_zeros_below_bounds, lemma_zeros_below_update, no_conflicts, num_zeros, Grid,
};
use crate::rng::DigitSource;

verus! {

/// One frame of the search: fill the first empty cell, in a shuffled digit
/// order, and recurse. `found` counts the complete solutions met so far;
/// the search stops as soon as it reaches `limit`, leaving the last
/// solution on the board. When it returns short of the limit, the board is
/// exactly as it was on entry and every completion has been counted.
fn solve_rec(grid: &mut Grid, found: &mut u32, limit: u32, src: &mut DigitSource)
    requires
        old(grid).wf(),
        no_conflicts(old(grid)@),
        *old(found) < limit,
    ensures
        final(grid).wf(),
        no_conflicts(final(grid)@),
        extends(old(grid)@, final(grid)@),
        *old(found) <= *final(found) <= limit,
        *final(found) < limit ==> final(grid)@ == old(grid)@,
        *final(found) < limit ==> *final(found) == *old(found) + completions(old(grid)@).len(),
        *final(found) <= *old(found) + completions(old(grid)@).len(),
        *final(found) == limit ==> is_complete(final(grid)@),
        *final(found) > *old(found) ==> exists|s: Seq<u8>|
            is_solved(s) && extends(old(grid)@, s),
        is_complete(old(grid)@) ==> *final(found) == *old(found) + 1
            && final(grid)@ == old(grid)@
            && final(src).consulted() == old(src).consulted(),
    decreases num_zeros(old(grid)@),
{
    match grid.first_empty() {
        None => {
            *found = *found + 1;
            proof {
                assert(is_solved(grid@) && extends(grid@, grid@));
                lemma_solved_completions(grid@);
            }
        },
        Some(i) => {
            let digits = src.shuffled_digits();
            let ghost entry = grid@;
            let ghost found0 = *found;
            let ghost mut dset: Set<u8> = Set::empty();
            proof {
                lemma_completions_via_empty(entry, i as int);
            }
            let mut k: usize = 0;
            while k < 9
                invariant
                    grid.wf(),
                    no_conflicts(grid@),
                    entry == old(grid)@,
                    found0 == *old(found),
                    grid@ == entry,
                    i < 81,
                    entry[i as int] == 0,
                    digits@.len() == 9,
                    forall|t: int| #![trigger digits@[t]] 0 <= t < 9 ==> 1 <= digits@[t] <= 9,
                    digits@.no_duplicates(),
                    forall|dd: u8| 1 <= dd <= 9 ==> digits@.contains(dd),
                    found0 <= *found < limit,
                    *found == found0 + completions_via(entry, i as int, dset).len(),
                    completions_via(entry, i as int, dset).finite(),
                    forall|m: int| 0 <= m < k ==> dset.contains(#[trigger] digits@[m]),
                    forall|dd: u8| #[trigger]
                        dset.contains(dd) ==> exists|m: int| 0 <= m < k && digits@[m] == dd,
                    *found > found0 ==> exists|s: Seq<u8>| is_solved(s) && extends(entry, s),
                    k <= 9,
                decreases 9 - k,
            {
                let d = digits[k];
                proof {
                    if dset.contains(d) {
                        let m = choose|m: int| 0 <= m < k && digits@[m] == d;
                        assert(digits@[m] == digits@[k as int]);
                        assert(false);
                    }
                }
                if grid.is_valid_placement(i, d) {
                    proof {
                        lemma_fill_keeps_no_conflicts(entry, i as int, d);
                        lemma_zeros_below_update(entry, i as int, d, 81);
                        lemma_zeros_below_bounds(entry.update(i as int, d), 81);
                    }
                    grid.set(i, d);
                    let ghost before_call = *found;
                    solve_rec(grid, found, limit, src);
                    proof {
                        assert(extends(entry, entry.update(i as int, d)));
                        if *found > before_call {
                            let s = choose|s: Seq<u8>|
                                is_solved(s) && extends(entry.update(i as int, d), s);
                            lemma_extends_trans(entry, entry.update(i as int, d), s);
                        }
                    }
                    if *found >= limit {
                        proof {
                            broadcast use vstd::set::group_set_axioms;

                            lemma_extends_trans(entry, entry.update(i as int, d), grid@);
                            lemma_completions_via_split(entry, i as int, dset, d);
                            lemma_completions_finite(entry.update(i as int, d));
                            vstd::set_lib::lemma_set_disjoint_lens(
                                completions_via(entry, i as int, dset),
                                completions(entry.update(i as int, d)),
                            );
                            lemma_completions_via_subset(entry, i as int, dset.insert(d));
                        }
                        return;
                    }
                    grid.set(i, 0);
                    proof {
                        broadcast use vstd::set::group_set_axioms;

                        assert(grid@ =~= entry);
                        lemma_completions_via_split(entry, i as int, dset, d);
                        lemma_completions_finite(entry.update(i as int, d));
                        vstd::set_lib::lemma_set_disjoint_lens(
                            completions_via(entry, i as int, dset),
                            completions(entry.update(i as int, d)),
                        );
                        dset = dset.insert(d);
                    }
                } else {
                    proof {
                        broadcast use vstd::set::group_set_axioms;

                        lemma_blocked_digit_no_completions(entry, i as int, d);
                        lemma_completions_via_split(entry, i as int, dset, d);
                        vstd::set_lib::lemma_set_disjoint_lens(
                            completions_via(entry, i as int, dset),
                            completions(entry.update(i as int, d)),
                        );
                        dset = dset.insert(d);
                    }
                }
                k += 1;
            }
            proof {
                assert forall|dd: u8| 1 <= dd <= 9 implies dset.contains(dd) by {
                    assert(digits@.contains(dd));
                    let m = choose|m: int| 0 <= m < digits@.len() && digits@[m] == dd;
                    assert(dset.contains(digits@[m]));
                }
                lemma_completions_via_full(entry, i as int, dset);
                assert(completions_via(entry, i as int, dset) == completions(entry));
            }
        },
    }
}

/// Solve the board in place, counting complete solutions until `limit` of
/// them have been seen. An inconsistent board (a digit already duplicated
/// in a row, column or box) is reported as having no solutions and is left
/// untouched; otherwise the count that comes back is the exact number of
/// completions whenever that number is below `limit` (and `limit` itself
/// otherwise), the board holds the last discovered solution when the limit
/// was reached, and it is restored to its input state when the search ran
/// out short of the limit.
pub fn solve(grid: &mut Grid, limit: u32, src: &mut DigitSource) -> (count: u32)
    requires
        old(grid).wf(),
        limit >= 1,
    ensures
        final(grid).wf(),
        extends(old(grid)@, final(grid)@),
        count <= limit,
        !no_conflicts(old(grid)@) ==> count == 0 && final(grid)@ == old(grid)@,
        no_conflicts(old(grid)@) ==> no_conflicts(final(grid)@),
        count < limit ==> final(grid)@ == old(grid)@,
        count < limit ==> count == completions(old(grid)@).len(),
        no_conflicts(old(grid)@) ==> count <= completions(old(grid)@).len(),
        no_conflicts(old(grid)@) && completions(old(grid)@).len() >= limit ==> count == limit,
        count == limit ==> is_solved(final(grid)@),
        count > 0 ==> exists|s: Seq<u8>| is_solved(s) && extends(old(grid)@, s),
        !(exists|s: Seq<u8>| is_solved(s) && extends(old(grid)@, s)) ==> count == 0
            && final(grid)@ == old(grid)@,
        is_complete(old(grid)@) && no_conflicts(old(grid)@) ==> count == 1
            && final(grid)@ == old(grid)@
            && final(src).consulted() == old(src).consulted(),
{
    if !grid.is_consistent() {
        proof {
            lemma_inconsistent_completions(grid@);
        }
        return 0;
    }
    let mut found: u32 = 0;
    solve_rec(grid, &mut found, limit, src);
    found
}

} // verus!

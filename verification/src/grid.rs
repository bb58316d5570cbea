//! The board: 81 cells in row-major order, each holding 0 (empty) or a digit
//! 1-9, together with the spec-level constraint language: rows, columns,
//! boxes, conflict freedom, completions.

use vstd::prelude::*;

verus! {

/// The row (0-8) that cell `i` lies in.
pub open spec fn row_of(i: int) -> int {
    i / 9
}

/// The column (0-8) that cell `i` lies in.
pub open spec fn col_of(i: int) -> int {
    i % 9
}

/// The 3x3 box (0-8) that cell `i` lies in.
pub open spec fn box_of(i: int) -> int {
    (row_of(i) / 3) * 3 + col_of(i) / 3
}

/// Cells `i` and `j` share a row, a column or a box, so a digit placed at
/// one constrains the other. A cell is in scope of itself.
pub open spec fn in_scope(i: int, j: int) -> bool {
    ||| row_of(i) == row_of(j)
    ||| col_of(i) == col_of(j)
    ||| box_of(i) == box_of(j)
}

/// A well-formed board: 81 cells, each 0 (empty) or 1-9.
pub open spec fn grid_wf(s: Seq<u8>) -> bool {
    &&& s.len() == 81
    &&& forall|i: int| 0 <= i < 81 ==> s[i] <= 9
}

/// No two distinct cells that see each other hold the same nonzero digit.
pub open spec fn no_conflicts(s: Seq<u8>) -> bool {
    forall|i: int, j: int|
        0 <= i < 81 && 0 <= j < 81 && i != j && in_scope(i, j) && s[i] != 0 ==> s[i] != s[j]
}

/// Every cell is filled.
pub open spec fn is_complete(s: Seq<u8>) -> bool {
    forall|i: int| 0 <= i < 81 ==> s[i] != 0
}

/// A full, conflict-free board.
pub open spec fn is_solved(s: Seq<u8>) -> bool {
    &&& grid_wf(s)
    &&& is_complete(s)
    &&& no_conflicts(s)
}

/// `s` keeps every digit that `base` already has; empty cells of `base` are
/// unconstrained.
pub open spec fn extends(base: Seq<u8>, s: Seq<u8>) -> bool {
    forall|i: int| 0 <= i < 81 && base[i] != 0 ==> s[i] == base[i]
}

/// Placing `v` at `pos` clashes with no filled cell: `v` appears nowhere in
/// the row, column or box of `pos`. Callers only ask about empty cells, so
/// including `pos` itself in the scan is harmless.
pub open spec fn placement_ok(s: Seq<u8>, pos: int, v: u8) -> bool {
    forall|j: int| 0 <= j < 81 && in_scope(pos, j) ==> s[j] != v
}

/// How many of the first `n` cells are empty.
pub open spec fn zeros_below(s: Seq<u8>, n: int) -> int
    decreases n,
{
    if n <= 0 {
        0
    } else {
        zeros_below(s, n - 1) + if s[n - 1] == 0 {
            1int
        } else {
            0int
        }
    }
}

/// How many cells of the board are empty.
pub open spec fn num_zeros(s: Seq<u8>) -> int {
    zeros_below(s, 81)
}

/// The running count of empty cells stays between 0 and `n`.
pub proof fn lemma_zeros_below_bounds(s: Seq<u8>, n: int)
    requires
        0 <= n <= s.len(),
    ensures
        0 <= zeros_below(s, n) <= n,
    decreases n,
{
    if n > 0 {
        lemma_zeros_below_bounds(s, n - 1);
    }
}

/// Overwriting one cell changes the empty-cell count of a prefix only when
/// the cell lies in that prefix, and then exactly by the change at the cell.
pub proof fn lemma_zeros_below_update(s: Seq<u8>, pos: int, v: u8, n: int)
    requires
        0 <= pos < s.len(),
        n <= s.len(),
    ensures
        zeros_below(s.update(pos, v), n) == if pos < n {
            zeros_below(s, n) - (if s[pos] == 0 {
                1int
            } else {
                0int
            }) + (if v == 0 {
                1int
            } else {
                0int
            })
        } else {
            zeros_below(s, n)
        },
    decreases n,
{
    if n > 0 {
        lemma_zeros_below_update(s, pos, v, n - 1);
    }
}

/// Filling an empty cell whose placement clashes with nothing keeps the
/// board conflict-free.
pub proof fn lemma_fill_keeps_no_conflicts(s: Seq<u8>, pos: int, v: u8)
    requires
        s.len() == 81,
        no_conflicts(s),
        0 <= pos < 81,
        s[pos] == 0,
        1 <= v <= 9,
        placement_ok(s, pos, v),
    ensures
        no_conflicts(s.update(pos, v)),
{
    let t = s.update(pos, v);
    assert forall|i: int, j: int|
        0 <= i < 81 && 0 <= j < 81 && i != j && in_scope(i, j) && t[i] != 0 implies t[i] != t[j] by {
        if i == pos {
            assert(s[j] != v);
        } else if j == pos {
            assert(s[i] != v);
        }
    }
}

/// Emptying a cell never creates a conflict.
pub proof fn lemma_clear_keeps_no_conflicts(s: Seq<u8>, pos: int)
    requires
        s.len() == 81,
        no_conflicts(s),
        0 <= pos < 81,
    ensures
        no_conflicts(s.update(pos, 0)),
{
    let t = s.update(pos, 0);
    assert forall|i: int, j: int|
        0 <= i < 81 && 0 <= j < 81 && i != j && in_scope(i, j) && t[i] != 0 implies t[i] != t[j] by {
        assert(i != pos);
        assert(t[i] == s[i]);
    }
}

/// `extends` is transitive.
pub proof fn lemma_extends_trans(a: Seq<u8>, b: Seq<u8>, c: Seq<u8>)
    requires
        extends(a, b),
        extends(b, c),
    ensures
        extends(a, c),
{
    assert forall|i: int| 0 <= i < 81 && a[i] != 0 implies c[i] == a[i] by {
        assert(b[i] == a[i]);
    }
}

/// The solved boards that complete `s`.
pub open spec fn completions(s: Seq<u8>) -> Set<Seq<u8>> {
    Set::new(|t: Seq<u8>| is_solved(t) && extends(s, t))
}

/// The completions of `s` whose digit at cell `i` comes from `ds`.
pub open spec fn completions_via(s: Seq<u8>, i: int, ds: Set<u8>) -> Set<Seq<u8>> {
    Set::new(|t: Seq<u8>| is_solved(t) && extends(s, t) && ds.contains(t[i]))
}

/// A solved board is its own one and only completion.
pub proof fn lemma_solved_completions(s: Seq<u8>)
    requires
        is_solved(s),
    ensures
        completions(s).finite(),
        completions(s).len() == 1,
        completions(s).contains(s),
{
    broadcast use vstd::set::group_set_axioms;

    assert(completions(s).contains(s));
    assert forall|t: Seq<u8>| completions(s).contains(t) implies t == s by {
        assert forall|m: int| 0 <= m < 81 implies t[m] == s[m] by {
            assert(s[m] != 0);
        }
        assert(t =~= s);
    }
    assert(completions(s) =~= Set::<Seq<u8>>::empty().insert(s));
}

/// A board that already violates a constraint has no completion.
pub proof fn lemma_inconsistent_completions(s: Seq<u8>)
    requires
        s.len() == 81,
        !no_conflicts(s),
    ensures
        completions(s).finite(),
        completions(s).len() == 0,
{
    broadcast use vstd::set::group_set_axioms;

    let (i, j) = choose|i: int, j: int|
        0 <= i < 81 && 0 <= j < 81 && i != j && in_scope(i, j) && s[i] != 0 && s[i] == s[j];
    assert forall|t: Seq<u8>| !completions(s).contains(t) by {
        if is_solved(t) && extends(s, t) {
            assert(t[i] == s[i]);
            assert(t[j] == s[j]);
            assert(false);
        }
    }
    assert(completions(s) =~= Set::<Seq<u8>>::empty());
}

/// Completing the board after one cell is filled is the same as completing
/// the board with that digit pinned at that cell.
pub proof fn lemma_extends_update(s: Seq<u8>, i: int, d: u8, t: Seq<u8>)
    requires
        s.len() == 81,
        0 <= i < 81,
        s[i] == 0,
        d != 0,
    ensures
        extends(s.update(i, d), t) <==> (extends(s, t) && t[i] == d),
{
    let su = s.update(i, d);
    if extends(su, t) {
        assert(t[i] == su[i]);
        assert forall|m: int| 0 <= m < 81 && s[m] != 0 implies t[m] == s[m] by {
            assert(su[m] == s[m]);
        }
    }
    if extends(s, t) && t[i] == d {
        assert forall|m: int| 0 <= m < 81 && su[m] != 0 implies t[m] == su[m] by {
            if m != i {
                assert(su[m] == s[m]);
            }
        }
    }
}

/// A digit that clashes with a filled cell leads to no completion.
pub proof fn lemma_blocked_digit_no_completions(s: Seq<u8>, i: int, d: u8)
    requires
        grid_wf(s),
        0 <= i < 81,
        s[i] == 0,
        1 <= d <= 9,
        !placement_ok(s, i, d),
    ensures
        completions(s.update(i, d)).finite(),
        completions(s.update(i, d)).len() == 0,
{
    broadcast use vstd::set::group_set_axioms;

    let j = choose|j: int| 0 <= j < 81 && in_scope(i, j) && s[j] == d;
    assert forall|t: Seq<u8>| !completions(s.update(i, d)).contains(t) by {
        if is_solved(t) && extends(s.update(i, d), t) {
            lemma_extends_update(s, i, d, t);
            assert(t[j] == s[j]);
            assert(j != i);
            assert(false);
        }
    }
    assert(completions(s.update(i, d)) =~= Set::<Seq<u8>>::empty());
}

/// Filling a cell can only narrow the set of completions.
pub proof fn lemma_update_completions_subset(s: Seq<u8>, i: int, d: u8)
    requires
        s.len() == 81,
        0 <= i < 81,
        s[i] == 0,
        d != 0,
    ensures
        completions(s.update(i, d)).subset_of(completions(s)),
{
    assert forall|t: Seq<u8>| completions(s.update(i, d)).contains(t) implies completions(
        s,
    ).contains(t) by {
        lemma_extends_update(s, i, d, t);
    }
}

/// A board has finitely many completions: induction over the number of
/// empty cells, splitting on the digit at one empty cell.
pub proof fn lemma_completions_finite(s: Seq<u8>)
    requires
        grid_wf(s),
    ensures
        completions(s).finite(),
    decreases num_zeros(s),
{
    broadcast use vstd::set::group_set_axioms;

    lemma_zeros_below_bounds(s, 81);
    if !no_conflicts(s) {
        lemma_inconsistent_completions(s);
    } else if is_complete(s) {
        lemma_solved_completions(s);
    } else {
        assert(exists|i: int| 0 <= i < 81 && s[i] == 0);
        let i = choose|i: int| 0 <= i < 81 && s[i] == 0;
        assert forall|d: u8| 1 <= d <= 9 implies completions(s.update(i, d)).finite() by {
            lemma_zeros_below_update(s, i, d, 81);
            lemma_zeros_below_bounds(s.update(i, d), 81);
            assert(num_zeros(s.update(i, d)) < num_zeros(s));
            lemma_completions_finite(s.update(i, d));
        }
        let u = completions(s.update(i, 1)) + completions(s.update(i, 2)) + completions(
            s.update(i, 3),
        ) + completions(s.update(i, 4)) + completions(s.update(i, 5)) + completions(
            s.update(i, 6),
        ) + completions(s.update(i, 7)) + completions(s.update(i, 8)) + completions(
            s.update(i, 9),
        );
        assert forall|t: Seq<u8>| completions(s).contains(t) implies u.contains(t) by {
            assert(t[i] != 0 && t[i] <= 9);
            lemma_extends_update(s, i, t[i], t);
            assert(completions(s.update(i, t[i])).contains(t));
        }
        assert forall|t: Seq<u8>| u.contains(t) implies completions(s).contains(t) by {
            assert forall|d: u8|
                1 <= d <= 9 && completions(s.update(i, d)).contains(t) implies completions(
                s,
            ).contains(t) by {
                lemma_update_completions_subset(s, i, d);
            }
        }
        assert(completions(s) =~= u);
    }
}

/// No completion goes through an empty digit set.
pub proof fn lemma_completions_via_empty(s: Seq<u8>, i: int)
    ensures
        completions_via(s, i, Set::<u8>::empty()).len() == 0,
        completions_via(s, i, Set::<u8>::empty()).finite(),
{
    broadcast use vstd::set::group_set_axioms;

    assert(completions_via(s, i, Set::<u8>::empty()) =~= Set::<Seq<u8>>::empty());
}

/// Widening the digit set by one untried digit adds exactly the
/// completions that pin that digit at the cell, and those are new.
pub proof fn lemma_completions_via_split(s: Seq<u8>, i: int, ds: Set<u8>, d: u8)
    requires
        grid_wf(s),
        0 <= i < 81,
        s[i] == 0,
        1 <= d <= 9,
        !ds.contains(d),
    ensures
        completions_via(s, i, ds.insert(d)) =~= completions_via(s, i, ds) + completions(
            s.update(i, d),
        ),
        completions_via(s, i, ds).disjoint(completions(s.update(i, d))),
{
    broadcast use vstd::set::group_set_axioms;

    assert forall|t: Seq<u8>|
        completions_via(s, i, ds.insert(d)).contains(t) implies (completions_via(s, i, ds)
        + completions(s.update(i, d))).contains(t) by {
        if t[i] == d {
            lemma_extends_update(s, i, d, t);
        }
    }
    assert forall|t: Seq<u8>|
        (completions_via(s, i, ds) + completions(s.update(i, d))).contains(t) implies completions_via(
        s,
        i,
        ds.insert(d),
    ).contains(t) by {
        if completions(s.update(i, d)).contains(t) {
            lemma_extends_update(s, i, d, t);
        }
    }
    assert forall|t: Seq<u8>|
        completions_via(s, i, ds).contains(t) implies !completions(s.update(i, d)).contains(t) by {
        if completions(s.update(i, d)).contains(t) {
            lemma_extends_update(s, i, d, t);
        }
    }
}

/// Completions through any digit set are no more numerous than all
/// completions.
pub proof fn lemma_completions_via_subset(s: Seq<u8>, i: int, ds: Set<u8>)
    requires
        grid_wf(s),
    ensures
        completions_via(s, i, ds).len() <= completions(s).len(),
{
    broadcast use vstd::set::group_set_axioms;

    lemma_completions_finite(s);
    assert(completions_via(s, i, ds).subset_of(completions(s)));
    vstd::set_lib::lemma_len_subset(completions_via(s, i, ds), completions(s));
}

/// Once every digit 1-9 is in the set, the completions through the set are
/// all the completions.
pub proof fn lemma_completions_via_full(s: Seq<u8>, i: int, ds: Set<u8>)
    requires
        grid_wf(s),
        0 <= i < 81,
        forall|d: u8| 1 <= d <= 9 ==> ds.contains(d),
    ensures
        completions_via(s, i, ds) =~= completions(s),
{
    assert forall|t: Seq<u8>| completions(s).contains(t) implies completions_via(
        s,
        i,
        ds,
    ).contains(t) by {
        assert(t[i] != 0 && t[i] <= 9);
        assert(ds.contains(t[i]));
    }
}

/// The cyclic base pattern: row `r` holds the digits 1-9 shifted by
/// `3 * (r % 3) + r / 3`, which fills the board without a conflict.
pub open spec fn cyclic_value(i: int) -> u8 {
    ((((row_of(i) % 3) * 3 + row_of(i) / 3 + col_of(i)) % 9) + 1) as u8
}

/// Two distinct cells that see each other hold different digits of the
/// cyclic base pattern.
#[verifier::rlimit(60)]
proof fn lemma_cyclic_distinct(i: int, j: int)
    requires
        0 <= i < 81,
        0 <= j < 81,
        i != j,
        in_scope(i, j),
    ensures
        cyclic_value(i) != cyclic_value(j),
{
    lemma_cell_decomp(i);
    lemma_cell_decomp(j);
    let r1 = row_of(i);
    let c1 = col_of(i);
    let r2 = row_of(j);
    let c2 = col_of(j);
    lemma_band_decomp(r1);
    lemma_band_decomp(r2);
    lemma_band_decomp(c1);
    lemma_band_decomp(c2);
    let a1 = (r1 % 3) * 3 + r1 / 3 + c1;
    let a2 = (r2 % 3) * 3 + r2 / 3 + c2;
    vstd::arithmetic::div_mod::lemma_fundamental_div_mod(a1, 9);
    vstd::arithmetic::div_mod::lemma_mod_bound(a1, 9);
    vstd::arithmetic::div_mod::lemma_fundamental_div_mod(a2, 9);
    vstd::arithmetic::div_mod::lemma_mod_bound(a2, 9);
    if a1 % 9 == a2 % 9 {
        assert(a1 - a2 == 9 * (a1 / 9) - 9 * (a2 / 9));
        if r1 == r2 {
            assert(-9 < a1 - a2 < 9);
            assert(a1 == a2);
            assert(c1 == c2);
            assert(false);
        } else if c1 == c2 {
            assert(-9 < a1 - a2 < 9);
            assert(a1 == a2);
            assert((r1 % 3) * 3 + r1 / 3 == (r2 % 3) * 3 + r2 / 3);
            assert(r1 % 3 == r2 % 3 && r1 / 3 == r2 / 3);
            assert(false);
        } else {
            assert(r1 / 3 == r2 / 3 && c1 / 3 == c2 / 3);
            assert(a1 - a2 == (r1 % 3) * 3 + (c1 % 3) - ((r2 % 3) * 3 + (c2 % 3)));
            assert(-9 < a1 - a2 < 9);
            assert(a1 == a2);
            assert(r1 % 3 == r2 % 3 && c1 % 3 == c2 % 3);
            assert(false);
        }
    }
}

/// At least one solved board exists: the cyclic base pattern is one.
pub proof fn lemma_solved_grid_exists()
    ensures
        exists|s: Seq<u8>| is_solved(s),
{
    let s = Seq::new(81, |i: int| cyclic_value(i));
    assert forall|i: int| #![trigger s[i]] 0 <= i < 81 implies 1 <= s[i] <= 9 by {
        lemma_cell_decomp(i);
        lemma_band_decomp(row_of(i));
        vstd::arithmetic::div_mod::lemma_mod_bound(
            (row_of(i) % 3) * 3 + row_of(i) / 3 + col_of(i),
            9,
        );
    }
    assert forall|i: int, j: int|
        0 <= i < 81 && 0 <= j < 81 && i != j && in_scope(i, j) && s[i] != 0 implies s[i] != s[j] by {
        lemma_cyclic_distinct(i, j);
    }
    assert(is_solved(s));
}

/// Every cell index splits into its row and column, both in range.
pub proof fn lemma_cell_decomp(i: int)
    requires
        0 <= i < 81,
    ensures
        i == row_of(i) * 9 + col_of(i),
        0 <= row_of(i) < 9,
        0 <= col_of(i) < 9,
{
    vstd::arithmetic::div_mod::lemma_fundamental_div_mod(i, 9);
    vstd::arithmetic::div_mod::lemma_mod_bound(i, 9);
}

/// A row and column in range name the cell `r * 9 + c`, and that cell lies
/// in exactly that row and column.
pub proof fn lemma_cell_index(r: int, c: int)
    requires
        0 <= r < 9,
        0 <= c < 9,
    ensures
        0 <= r * 9 + c < 81,
        row_of(r * 9 + c) == r,
        col_of(r * 9 + c) == c,
{
    vstd::arithmetic::div_mod::lemma_fundamental_div_mod_converse(r * 9 + c, 9, r, c);
}

/// A row or column index in range splits into its band (which triple of
/// rows or columns) and its offset within the band.
pub proof fn lemma_band_decomp(r: int)
    requires
        0 <= r < 9,
    ensures
        r == (r / 3) * 3 + r % 3,
        0 <= r / 3 < 3,
        0 <= r % 3 < 3,
{
    vstd::arithmetic::div_mod::lemma_fundamental_div_mod(r, 3);
    vstd::arithmetic::div_mod::lemma_mod_bound(r, 3);
}

/// A band and an offset in range name the line `q * 3 + d` of that band.
pub proof fn lemma_band_index(q: int, d: int)
    requires
        0 <= q < 3,
        0 <= d < 3,
    ensures
        (q * 3 + d) / 3 == q,
        (q * 3 + d) % 3 == d,
{
    vstd::arithmetic::div_mod::lemma_fundamental_div_mod_converse(q * 3 + d, 3, q, d);
}

/// Do cells `i` and `j` see each other (same row, column or box)?
fn sees_cell(i: usize, j: usize) -> (b: bool)
    requires
        i < 81,
        j < 81,
    ensures
        b == in_scope(i as int, j as int),
{
    i / 9 == j / 9 || i % 9 == j % 9 || (i / 9) / 3 * 3 + (i % 9) / 3 == (j / 9) / 3 * 3 + (j % 9)
        / 3
}

/// The 81-cell Sudoku board.
pub struct Grid {
    cells: Vec<u8>,
}

impl View for Grid {
    type V = Seq<u8>;

    closed spec fn view(&self) -> Seq<u8> {
        self.cells@
    }
}

impl Grid {
    /// The board invariant: see [`grid_wf`].
    pub open spec fn wf(&self) -> bool {
        grid_wf(self@)
    }

    /// A board with every cell empty.
    pub fn new_empty() -> (g: Grid)
        ensures
            g.wf(),
            g@ == Seq::<u8>::new(81, |i: int| 0u8),
    {
        let mut cells: Vec<u8> = Vec::new();
        let mut i: usize = 0;
        while i < 81
            invariant
                i <= 81,
                cells@.len() == i,
                forall|j: int| 0 <= j < i ==> cells@[j] == 0u8,
            decreases 81 - i,
        {
            cells.push(0);
            i += 1;
        }
        let g = Grid { cells };
        proof {
            assert(g@ =~= Seq::<u8>::new(81, |i: int| 0u8));
        }
        g
    }

    /// The digit at `pos` (0 when empty).
    pub fn get(&self, pos: usize) -> (v: u8)
        requires
            self.wf(),
            pos < 81,
        ensures
            v == self@[pos as int],
    {
        self.cells[pos]
    }

    /// Overwrite the cell at `pos`.
    pub fn set(&mut self, pos: usize, v: u8)
        requires
            old(self).wf(),
            pos < 81,
            v <= 9,
        ensures
            final(self).wf(),
            final(self)@ == old(self)@.update(pos as int, v),
    {
        self.cells.set(pos, v);
    }

    /// The constraint check: may `value` be placed at `pos` without clashing
    /// with a filled cell in the same row, column or 3x3 box? Callers only
    /// ask about empty cells; the board is not touched.
    pub fn is_valid_placement(&self, pos: usize, value: u8) -> (r: bool)
        requires
            self.wf(),
            pos < 81,
            1 <= value <= 9,
        ensures
            r == placement_ok(self@, pos as int, value),
    {
        let y: usize = pos / 9;
        let x: usize = pos % 9;
        proof {
            lemma_cell_decomp(pos as int);
        }
        let mut i: usize = 0;
        while i < 9
            invariant
                self.wf(),
                pos < 81,
                1 <= value <= 9,
                y == row_of(pos as int),
                x == col_of(pos as int),
                i <= 9,
                forall|j: int|
                    #![trigger self@[j]]
                    0 <= j < 81 && row_of(j) == row_of(pos as int) && col_of(j) < i ==> self@[j]
                        != value,
                forall|j: int|
                    #![trigger self@[j]]
                    0 <= j < 81 && col_of(j) == col_of(pos as int) && row_of(j) < i ==> self@[j]
                        != value,
            decreases 9 - i,
        {
            proof {
                lemma_cell_index(y as int, i as int);
                lemma_cell_index(i as int, x as int);
            }
            if self.get(y * 9 + i) == value {
                proof {
                    let j0 = y as int * 9 + i as int;
                    assert(0 <= j0 < 81 && in_scope(pos as int, j0) && self@[j0] == value);
                }
                return false;
            }
            if self.get(i * 9 + x) == value {
                proof {
                    let j0 = i as int * 9 + x as int;
                    assert(0 <= j0 < 81 && in_scope(pos as int, j0) && self@[j0] == value);
                }
                return false;
            }
            proof {
                assert forall|j: int|
                    0 <= j < 81 && row_of(j) == row_of(pos as int) && col_of(j) == i implies self@[j]
                    != value by {
                    lemma_cell_decomp(j);
                }
                assert forall|j: int|
                    0 <= j < 81 && col_of(j) == col_of(pos as int) && row_of(j) == i implies self@[j]
                    != value by {
                    lemma_cell_decomp(j);
                }
            }
            i += 1;
        }
        let br: usize = y / 3 * 3;
        let bc: usize = x / 3 * 3;
        proof {
            lemma_band_decomp(y as int);
            lemma_band_decomp(x as int);
        }
        let mut dy: usize = 0;
        while dy < 3
            invariant
                self.wf(),
                pos < 81,
                1 <= value <= 9,
                y == row_of(pos as int),
                x == col_of(pos as int),
                br == (row_of(pos as int) / 3) * 3,
                bc == (col_of(pos as int) / 3) * 3,
                br <= 6,
                bc <= 6,
                dy <= 3,
                forall|j: int|
                    #![trigger self@[j]]
                    0 <= j < 81 && box_of(j) == box_of(pos as int) && (row_of(j) - br) * 3 + (col_of(
                        j,
                    ) - bc) < dy * 3 ==> self@[j] != value,
            decreases 3 - dy,
        {
            let mut dx: usize = 0;
            while dx < 3
                invariant
                    self.wf(),
                    pos < 81,
                    1 <= value <= 9,
                    y == row_of(pos as int),
                    x == col_of(pos as int),
                    br == (row_of(pos as int) / 3) * 3,
                    bc == (col_of(pos as int) / 3) * 3,
                    br <= 6,
                    bc <= 6,
                    dy < 3,
                    dx <= 3,
                    forall|j: int|
                        #![trigger self@[j]]
                        0 <= j < 81 && box_of(j) == box_of(pos as int) && (row_of(j) - br) * 3 + (
                        col_of(j) - bc) < dy * 3 + dx ==> self@[j] != value,
                decreases 3 - dx,
            {
                proof {
                    lemma_band_index(row_of(pos as int) / 3, dy as int);
                    lemma_band_index(col_of(pos as int) / 3, dx as int);
                    lemma_cell_index(br as int + dy as int, bc as int + dx as int);
                }
                if self.get((br + dy) * 9 + (bc + dx)) == value {
                    proof {
                        let j0 = (br as int + dy as int) * 9 + (bc as int + dx as int);
                        assert(row_of(j0) == br as int + dy as int);
                        assert(col_of(j0) == bc as int + dx as int);
                        assert(box_of(j0) == box_of(pos as int));
                        assert(0 <= j0 < 81 && in_scope(pos as int, j0) && self@[j0] == value);
                    }
                    return false;
                }
                proof {
                    assert forall|j: int|
                        0 <= j < 81 && box_of(j) == box_of(pos as int) && (row_of(j) - br) * 3 + (
                        col_of(j) - bc) == dy * 3 + dx implies self@[j] != value by {
                        lemma_cell_decomp(j);
                        lemma_band_decomp(row_of(j));
                        lemma_band_decomp(col_of(j));
                        assert(row_of(j) / 3 == row_of(pos as int) / 3 && col_of(j) / 3 == col_of(
                            pos as int,
                        ) / 3);
                        assert(row_of(j) == br as int + row_of(j) % 3);
                        assert(col_of(j) == bc as int + col_of(j) % 3);
                        assert(row_of(j) % 3 == dy && col_of(j) % 3 == dx);
                        assert(j == (br as int + dy as int) * 9 + (bc as int + dx as int));
                    }
                }
                dx += 1;
            }
            dy += 1;
        }
        proof {
            assert forall|j: int| 0 <= j < 81 && in_scope(pos as int, j) implies self@[j]
                != value by {
                lemma_cell_decomp(j);
                let rj = row_of(j);
                let cj = col_of(j);
                if rj == row_of(pos as int) {
                    assert(self@[j] != value);
                } else if cj == col_of(pos as int) {
                    assert(self@[j] != value);
                } else {
                    lemma_band_decomp(rj);
                    lemma_band_decomp(cj);
                    assert(rj / 3 == row_of(pos as int) / 3 && cj / 3 == col_of(pos as int) / 3);
                    assert(rj == br as int + rj % 3);
                    assert(cj == bc as int + cj % 3);
                    assert((rj - br) * 3 + (cj - bc) < 9);
                    assert(self@[j] != value);
                }
            }
        }
        true
    }

    /// The index of the first empty cell in scan order, if any.
    pub fn first_empty(&self) -> (r: Option<usize>)
        requires
            self.wf(),
        ensures
            match r {
                Some(i) => i < 81 && self@[i as int] == 0 && forall|j: int|
                    0 <= j < i ==> self@[j] != 0,
                None => is_complete(self@),
            },
    {
        let mut i: usize = 0;
        while i < 81
            invariant
                self.wf(),
                i <= 81,
                forall|j: int| 0 <= j < i ==> self@[j] != 0,
            decreases 81 - i,
        {
            if self.get(i) == 0 {
                return Some(i);
            }
            i += 1;
        }
        None
    }

    /// Does the board, as it stands, violate no row, column or box
    /// constraint among its filled cells?
    pub fn is_consistent(&self) -> (r: bool)
        requires
            self.wf(),
        ensures
            r == no_conflicts(self@),
    {
        let mut i: usize = 0;
        while i < 81
            invariant
                self.wf(),
                i <= 81,
                forall|a: int, b: int|
                    #![trigger in_scope(a, b)]
                    0 <= a < i && 0 <= b < 81 && a != b && in_scope(a, b) && self@[a] != 0
                        ==> self@[a] != self@[b],
            decreases 81 - i,
        {
            if self.get(i) != 0 {
                let mut j: usize = 0;
                while j < 81
                    invariant
                        self.wf(),
                        i < 81,
                        j <= 81,
                        self@[i as int] != 0,
                        forall|a: int, b: int|
                            #![trigger in_scope(a, b)]
                            0 <= a < i && 0 <= b < 81 && a != b && in_scope(a, b) && self@[a] != 0
                                ==> self@[a] != self@[b],
                        forall|b: int|
                            #![trigger in_scope(i as int, b)]
                            0 <= b < j && i as int != b && in_scope(i as int, b) ==> self@[i as int]
                                != self@[b],
                    decreases 81 - j,
                {
                    if j != i && sees_cell(i, j) && self.get(j) == self.get(i) {
                        proof {
                            assert(!no_conflicts(self@)) by {
                                assert((i as int) < 81 && (j as int) < 81 && i != j && in_scope(
                                    i as int,
                                    j as int,
                                ) && self@[i as int] != 0 && self@[i as int] == self@[j as int]);
                            }
                        }
                        return false;
                    }
                    j += 1;
                }
            }
            i += 1;
        }
        true
    }

    /// An independent copy of the board.
    pub fn duplicate(&self) -> (g: Grid)
        ensures
            g@ == self@,
    {
        let mut cells: Vec<u8> = Vec::new();
        let mut i: usize = 0;
        while i < self.cells.len()
            invariant
                i <= self.cells@.len(),
                cells@.len() == i,
                forall|j: int| 0 <= j < i ==> cells@[j] == self.cells@[j],
            decreases self.cells@.len() - i,
        {
            cells.push(self.cells[i]);
            i += 1;
        }
        let g = Grid { cells };
        proof {
            assert(g@ =~= self@);
        }
        g
    }
}

} // verus!

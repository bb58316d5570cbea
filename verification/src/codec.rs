//! The flat text form of a board: 81 characters, '0' for an empty cell and
//! '1'-'9' for a filled one, row by row.

use vstd::prelude::*;

use crate::grid::{grid_wf, Grid};

verus! {

/// The character that displays a cell value.
pub open spec fn char_of_cell(v: u8) -> char {
    if v == 0 {
        '0'
    } else if v == 1 {
        '1'
    } else if v == 2 {
        '2'
    } else if v == 3 {
        '3'
    } else if v == 4 {
        '4'
    } else if v == 5 {
        '5'
    } else if v == 6 {
        '6'
    } else if v == 7 {
        '7'
    } else if v == 8 {
        '8'
    } else {
        '9'
    }
}

/// The cell value a character stands for: 0-9 for '0'-'9', and 10 for any
/// character that encodes no cell.
pub open spec fn cell_of_char(c: char) -> u8 {
    if c == '0' {
        0
    } else if c == '1' {
        1
    } else if c == '2' {
        2
    } else if c == '3' {
        3
    } else if c == '4' {
        4
    } else if c == '5' {
        5
    } else if c == '6' {
        6
    } else if c == '7' {
        7
    } else if c == '8' {
        8
    } else if c == '9' {
        9
    } else {
        10
    }
}

/// Does the character encode a cell?
pub open spec fn is_digit_char(c: char) -> bool {
    cell_of_char(c) <= 9
}

/// The text form of a board.
pub open spec fn encoded(s: Seq<u8>) -> Seq<char> {
    Seq::new(s.len(), |i: int| char_of_cell(s[i]))
}

/// The board a text form stands for, character by character.
pub open spec fn decoded(t: Seq<char>) -> Seq<u8> {
    Seq::new(t.len(), |i: int| cell_of_char(t[i]))
}

/// The rejection of an input string that is not exactly 81 cell characters.
#[derive(Clone, Copy, Debug, PartialEq, Eq)]
pub struct InvalidInputFormat;

/// Law: reading back the text form of a well-formed board gives exactly
/// that board.
pub proof fn lemma_round_trip(s: Seq<u8>)
    requires
        grid_wf(s),
    ensures
        decoded(encoded(s)) == s,
{
    assert forall|i: int| #![trigger s[i]] 0 <= i < s.len() implies cell_of_char(
        char_of_cell(s[i]),
    ) == s[i] by {}
    assert(decoded(encoded(s)) =~= s);
}

/// Relies on `String::push`: appends exactly the one character.
#[verifier::external_body]
fn push_char(s: &mut String, c: char)
    ensures
        final(s)@ == old(s)@.push(c),
{
    s.push(c)
}

fn char_of_cell_exec(v: u8) -> (c: char)
    requires
        v <= 9,
    ensures
        c == char_of_cell(v),
{
    if v == 0 {
        '0'
    } else if v == 1 {
        '1'
    } else if v == 2 {
        '2'
    } else if v == 3 {
        '3'
    } else if v == 4 {
        '4'
    } else if v == 5 {
        '5'
    } else if v == 6 {
        '6'
    } else if v == 7 {
        '7'
    } else if v == 8 {
        '8'
    } else {
        '9'
    }
}

fn cell_of_char_exec(c: char) -> (v: u8)
    ensures
        v == cell_of_char(c),
{
    if c == '0' {
        0
    } else if c == '1' {
        1
    } else if c == '2' {
        2
    } else if c == '3' {
        3
    } else if c == '4' {
        4
    } else if c == '5' {
        5
    } else if c == '6' {
        6
    } else if c == '7' {
        7
    } else if c == '8' {
        8
    } else if c == '9' {
        9
    } else {
        10
    }
}

/// Display a board as its 81-character text form.
pub fn grid_to_string(g: &Grid) -> (r: String)
    requires
        g.wf(),
    ensures
        r@ == encoded(g@),
        r@.len() == 81,
{
    let mut r = String::new();
    let mut i: usize = 0;
    while i < 81
        invariant
            g.wf(),
            i <= 81,
            r@.len() == i,
            forall|j: int| #![trigger r@[j]] 0 <= j < i ==> r@[j] == char_of_cell(g@[j]),
        decreases 81 - i,
    {
        let c = char_of_cell_exec(g.get(i));
        push_char(&mut r, c);
        i += 1;
    }
    proof {
        assert(r@ =~= encoded(g@));
    }
    r
}

/// Read a board from its 81-character text form; anything else is rejected.
pub fn string_to_grid(s: &str) -> (r: Result<Grid, InvalidInputFormat>)
    ensures
        r is Ok <==> (s@.len() == 81 && forall|i: int| 0 <= i < 81 ==> is_digit_char(s@[i])),
        r is Ok ==> r->Ok_0.wf() && r->Ok_0@ == decoded(s@),
{
    let n = s.unicode_len();
    if n != 81 {
        return Err(InvalidInputFormat);
    }
    let mut g = Grid::new_empty();
    let mut i: usize = 0;
    while i < 81
        invariant
            g.wf(),
            i <= 81,
            s@.len() == 81,
            forall|j: int| 0 <= j < i ==> is_digit_char(s@[j]),
            forall|j: int| #![trigger g@[j]] 0 <= j < i ==> g@[j] == cell_of_char(s@[j]),
        decreases 81 - i,
    {
        let c = s.get_char(i);
        let v = cell_of_char_exec(c);
        if v > 9 {
            proof {
                assert(!is_digit_char(s@[i as int]));
            }
            return Err(InvalidInputFormat);
        }
        g.set(i, v);
        i += 1;
    }
    proof {
        assert(g@ =~= decoded(s@));
    }
    Ok(g)
}

} // verus!

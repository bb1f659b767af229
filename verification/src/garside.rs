//! The 22 generators: their matrices, their action on a matrix, and which of
//! them may follow which.

use crate::algebra::{
    add_terms, canonical, lemma_add_canonical, lemma_add_powers_upto, lemma_opposite_sum_zero,
    lemma_scale_is_shift, lemma_shift_canonical, lemma_zero_sum_opposite, mul_terms, opposite,
    powers_upto, shift_terms, Matrix, Polynomial,
};
use hashbrown::HashMap;
use vstd::prelude::*;

verus! {

/// An entry of a generator's matrix: zero, `t^k` or `-t^k`.
pub enum Cell {
    Zero,
    Plus(u16),
    Minus(u16),
}

/// The `i`-th of nine cells.
pub open spec fn pick9(
    i: int,
    c0: Cell,
    c1: Cell,
    c2: Cell,
    c3: Cell,
    c4: Cell,
    c5: Cell,
    c6: Cell,
    c7: Cell,
    c8: Cell,
) -> Cell {
    if i == 0 {
        c0
    } else if i == 1 {
        c1
    } else if i == 2 {
        c2
    } else if i == 3 {
        c3
    } else if i == 4 {
        c4
    } else if i == 5 {
        c5
    } else if i == 6 {
        c6
    } else if i == 7 {
        c7
    } else {
        c8
    }
}

/// Entry `i`, counted row by row, of the matrix of generator `g`. An id
/// outside `1..=21` stands for generator 22.
#[verifier::opaque]
pub open spec fn generator_cell(g: u32, i: int) -> Cell {
    if g == 1 {
        pick9(
            i,
            Cell::Plus(0), Cell::Zero, Cell::Zero,
            Cell::Zero, Cell::Plus(0), Cell::Zero,
            Cell::Zero, Cell::Minus(1), Cell::Minus(2),
        )
    } else if g == 2 {
        pick9(
            i,
            Cell::Plus(0), Cell::Zero, Cell::Zero,
            Cell::Minus(1), Cell::Minus(2), Cell::Minus(1),
            Cell::Zero, Cell::Zero, Cell::Plus(0),
        )
    } else if g == 3 {
        pick9(
            i,
            Cell::Plus(0), Cell::Zero, Cell::Zero,
            Cell::Minus(1), Cell::Zero, Cell::Plus(3),
            Cell::Zero, Cell::Minus(1), Cell::Minus(2),
        )
    } else if g == 4 {
        pick9(
            i,
            Cell::Plus(0), Cell::Zero, Cell::Zero,
            Cell::Minus(1), Cell::Minus(2), Cell::Minus(1),
            Cell::Plus(2), Cell::Plus(3), Cell::Zero,
        )
    } else if g == 5 {
        pick9(
            i,
            Cell::Plus(0), Cell::Zero, Cell::Zero,
            Cell::Minus(1), Cell::Zero, Cell::Plus(3),
            Cell::Plus(2), Cell::Plus(3), Cell::Zero,
        )
    } else if g == 6 {
        pick9(
            i,
            Cell::Minus(2), Cell::Minus(1), Cell::Zero,
            Cell::Zero, Cell::Plus(0), Cell::Zero,
            Cell::Zero, Cell::Zero, Cell::Plus(0),
        )
    } else if g == 7 {
        pick9(
            i,
            Cell::Minus(2), Cell::Minus(1), Cell::Zero,
            Cell::Zero, Cell::Plus(0), Cell::Zero,
            Cell::Zero, Cell::Minus(1), Cell::Minus(2),
        )
    } else if g == 8 {
        pick9(
            i,
            Cell::Zero, Cell::Plus(3), Cell::Plus(2),
            Cell::Minus(1), Cell::Minus(2), Cell::Minus(1),
            Cell::Zero, Cell::Zero, Cell::Plus(0),
        )
    } else if g == 9 {
        pick9(
            i,
            Cell::Zero, Cell::Zero, Cell::Minus(4),
            Cell::Minus(1), Cell::Zero, Cell::Plus(3),
            Cell::Zero, Cell::Minus(1), Cell::Minus(2),
        )
    } else if g == 10 {
        pick9(
            i,
            Cell::Zero, Cell::Plus(3), Cell::Plus(2),
            Cell::Minus(1), Cell::Minus(2), Cell::Minus(1),
            Cell::Plus(2), Cell::Plus(3), Cell::Zero,
        )
    } else if g == 11 {
        pick9(
            i,
            Cell::Zero, Cell::Zero, Cell::Minus(4),
            Cell::Minus(1), Cell::Zero, Cell::Plus(3),
            Cell::Plus(2), Cell::Plus(3), Cell::Zero,
        )
    } else if g == 12 {
        pick9(
            i,
            Cell::Minus(2), Cell::Minus(1), Cell::Zero,
            Cell::Plus(3), Cell::Zero, Cell::Minus(1),
            Cell::Zero, Cell::Zero, Cell::Plus(0),
        )
    } else if g == 13 {
        pick9(
            i,
            Cell::Minus(2), Cell::Minus(1), Cell::Zero,
            Cell::Plus(3), Cell::Plus(2), Cell::Plus(3),
            Cell::Zero, Cell::Minus(1), Cell::Minus(2),
        )
    } else if g == 14 {
        pick9(
            i,
            Cell::Zero, Cell::Plus(3), Cell::Plus(2),
            Cell::Plus(3), Cell::Zero, Cell::Minus(1),
            Cell::Zero, Cell::Zero, Cell::Plus(0),
        )
    } else if g == 15 {
        pick9(
            i,
            Cell::Zero, Cell::Zero, Cell::Minus(4),
            Cell::Plus(3), Cell::Plus(2), Cell::Plus(3),
            Cell::Zero, Cell::Minus(1), Cell::Minus(2),
        )
    } else if g == 16 {
        pick9(
            i,
            Cell::Zero, Cell::Plus(3), Cell::Plus(2),
            Cell::Zero, Cell::Minus(4), Cell::Zero,
            Cell::Plus(2), Cell::Plus(3), Cell::Zero,
        )
    } else if g == 17 {
        pick9(
            i,
            Cell::Zero, Cell::Zero, Cell::Minus(4),
            Cell::Zero, Cell::Minus(4), Cell::Zero,
            Cell::Plus(2), Cell::Plus(3), Cell::Zero,
        )
    } else if g == 18 {
        pick9(
            i,
            Cell::Minus(2), Cell::Minus(1), Cell::Zero,
            Cell::Plus(3), Cell::Zero, Cell::Minus(1),
            Cell::Minus(4), Cell::Zero, Cell::Zero,
        )
    } else if g == 19 {
        pick9(
            i,
            Cell::Minus(2), Cell::Minus(1), Cell::Zero,
            Cell::Plus(3), Cell::Plus(2), Cell::Plus(3),
            Cell::Minus(4), Cell::Zero, Cell::Zero,
        )
    } else if g == 20 {
        pick9(
            i,
            Cell::Zero, Cell::Plus(3), Cell::Plus(2),
            Cell::Plus(3), Cell::Zero, Cell::Minus(1),
            Cell::Minus(4), Cell::Zero, Cell::Zero,
        )
    } else if g == 21 {
        pick9(
            i,
            Cell::Zero, Cell::Zero, Cell::Minus(4),
            Cell::Plus(3), Cell::Plus(2), Cell::Plus(3),
            Cell::Minus(4), Cell::Zero, Cell::Zero,
        )
    } else {
        pick9(
            i,
            Cell::Zero, Cell::Plus(3), Cell::Plus(2),
            Cell::Zero, Cell::Minus(4), Cell::Zero,
            Cell::Minus(4), Cell::Zero, Cell::Zero,
        )
    }
}

/// The terms of a polynomial times a cell.
pub open spec fn times_cell(x: Seq<(u16, u8)>, cell: Cell, p: u8) -> Seq<(u16, u8)> {
    match cell {
        Cell::Zero => Seq::empty(),
        Cell::Plus(k) => shift_terms(x, k, false, p),
        Cell::Minus(k) => shift_terms(x, k, true, p),
    }
}

/// Column `col` of the row `(a, b, c)` times the matrix of generator `g`:
/// the three products, added from left to right.
pub open spec fn row_entry(
    a: Seq<(u16, u8)>,
    b: Seq<(u16, u8)>,
    c: Seq<(u16, u8)>,
    g: u32,
    col: int,
    p: u8,
) -> Seq<(u16, u8)> {
    add_terms(
        add_terms(
            times_cell(a, generator_cell(g, col), p),
            times_cell(b, generator_cell(g, 3 + col), p),
            p,
        ),
        times_cell(c, generator_cell(g, 6 + col), p),
        p,
    )
}

/// A polynomial whose powers leave room for the largest shift of a generator.
pub open spec fn has_headroom(s: Seq<(u16, u8)>) -> bool {
    s.len() > 0 ==> s.last().0 + 4 <= u16::MAX
}

/// One row of a matrix times the matrix of generator `element`.
fn act_row(a: &Polynomial, b: &Polynomial, c: &Polynomial, element: u32) -> (r: (
    Polynomial,
    Polynomial,
    Polynomial,
))
    requires
        a.wf(),
        b.wf(),
        c.wf(),
        a.p == b.p,
        a.p == c.p,
        has_headroom(a.data@),
        has_headroom(b.data@),
        has_headroom(c.data@),
    ensures
        r.0.p == a.p,
        r.1.p == a.p,
        r.2.p == a.p,
        r.0.data@ == row_entry(a.data@, b.data@, c.data@, element, 0, a.p),
        r.1.data@ == row_entry(a.data@, b.data@, c.data@, element, 1, a.p),
        r.2.data@ == row_entry(a.data@, b.data@, c.data@, element, 2, a.p),
{
    proof {
        reveal(generator_cell);
    }
    match element {
        1 => (
            a.mult(0, false),
            b.mult(0, false) + c.mult(1, true),
            c.mult(2, true),
        ),
        2 => (
            a.mult(0, false) + b.mult(1, true),
            b.mult(2, true),
            b.mult(1, true) + c.mult(0, false),
        ),
        3 => (
            a.mult(0, false) + b.mult(1, true),
            c.mult(1, true),
            b.mult(3, false) + c.mult(2, true),
        ),
        4 => (
            a.mult(0, false) + b.mult(1, true) + c.mult(2, false),
            b.mult(2, true) + c.mult(3, false),
            b.mult(1, true),
        ),
        5 => (
            a.mult(0, false) + b.mult(1, true) + c.mult(2, false),
            c.mult(3, false),
            b.mult(3, false),
        ),
        6 => (
            a.mult(2, true),
            a.mult(1, true) + b.mult(0, false),
            c.mult(0, false),
        ),
        7 => (
            a.mult(2, true),
            a.mult(1, true) + b.mult(0, false) + c.mult(1, true),
            c.mult(2, true),
        ),
        8 => (
            b.mult(1, true),
            a.mult(3, false) + b.mult(2, true),
            a.mult(2, false) + b.mult(1, true) + c.mult(0, false),
        ),
        9 => (
            b.mult(1, true),
            c.mult(1, true),
            a.mult(4, true) + b.mult(3, false) + c.mult(2, true),
        ),
        10 => (
            b.mult(1, true) + c.mult(2, false),
            a.mult(3, false) + b.mult(2, true) + c.mult(3, false),
            a.mult(2, false) + b.mult(1, true),
        ),
        11 => (
            b.mult(1, true) + c.mult(2, false),
            c.mult(3, false),
            a.mult(4, true) + b.mult(3, false),
        ),
        12 => (
            a.mult(2, true) + b.mult(3, false),
            a.mult(1, true),
            b.mult(1, true) + c.mult(0, false),
        ),
        13 => (
            a.mult(2, true) + b.mult(3, false),
            a.mult(1, true) + b.mult(2, false) + c.mult(1, true),
            b.mult(3, false) + c.mult(2, true),
        ),
        14 => (
            b.mult(3, false),
            a.mult(3, false),
            a.mult(2, false) + b.mult(1, true) + c.mult(0, false),
        ),
        15 => (
            b.mult(3, false),
            b.mult(2, false) + c.mult(1, true),
            a.mult(4, true) + b.mult(3, false) + c.mult(2, true),
        ),
        16 => (
            c.mult(2, false),
            a.mult(3, false) + b.mult(4, true) + c.mult(3, false),
            a.mult(2, false),
        ),
        17 => (
            c.mult(2, false),
            b.mult(4, true) + c.mult(3, false),
            a.mult(4, true),
        ),
        18 => (
            a.mult(2, true) + b.mult(3, false) + c.mult(4, true),
            a.mult(1, true),
            b.mult(1, true),
        ),
        19 => (
            a.mult(2, true) + b.mult(3, false) + c.mult(4, true),
            a.mult(1, true) + b.mult(2, false),
            b.mult(3, false),
        ),
        20 => (
            b.mult(3, false) + c.mult(4, true),
            a.mult(3, false),
            a.mult(2, false) + b.mult(1, true),
        ),
        21 => (
            b.mult(3, false) + c.mult(4, true),
            b.mult(2, false),
            a.mult(4, true) + b.mult(3, false),
        ),
        _ => (
            c.mult(4, true),
            a.mult(3, false) + b.mult(4, true),
            a.mult(2, false),
        ),
    }
}

/// Entry `i`, counted row by row, of the matrix with entries `m` times the
/// matrix of generator `g`, over the modulus `p`.
pub open spec fn act_entry(m: Seq<Seq<(u16, u8)>>, g: u32, i: int, p: u8) -> Seq<(u16, u8)> {
    let first: int = if i < 3 {
        0
    } else if i < 6 {
        3
    } else {
        6
    };
    row_entry(m[first], m[first + 1], m[first + 2], g, i - first, p)
}

/// The entries of the matrix with entries `m` times the matrix of generator
/// `g`, over the modulus `p`.
pub open spec fn act_on(m: Seq<Seq<(u16, u8)>>, g: u32, p: u8) -> Seq<Seq<(u16, u8)>> {
    Seq::new(9, |i: int| act_entry(m, g, i, p))
}

/// The power of `t` in a cell, 0 for the zero cell.
pub open spec fn cell_shift(cell: Cell) -> int {
    match cell {
        Cell::Zero => 0,
        Cell::Plus(k) => k as int,
        Cell::Minus(k) => k as int,
    }
}

/// No generator shifts a power by more than 4.
pub proof fn lemma_generator_shift(g: u32, i: int)
    requires
        0 <= i < 9,
    ensures
        cell_shift(generator_cell(g, i)) <= 4,
{
    reveal(generator_cell);
}

proof fn lemma_times_cell(x: Seq<(u16, u8)>, cell: Cell, p: u8, hi: int)
    requires
        p >= 1,
        canonical(x, p),
        powers_upto(x, hi),
        hi + cell_shift(cell) <= u16::MAX,
    ensures
        canonical(times_cell(x, cell, p), p),
        powers_upto(times_cell(x, cell, p), hi + cell_shift(cell)),
{
    if x.len() > 0 {
        assert(x[x.len() - 1].0 <= hi);
    }
    match cell {
        Cell::Zero => {},
        Cell::Plus(k) => {
            lemma_shift_canonical(x, k, false, p);
            assert forall|i: int| 0 <= i < x.len() implies (#[trigger] shift_terms(
                x,
                k,
                false,
                p,
            )[i]).0 <= hi + k by {
                assert(x[i].0 <= hi);
            }
        },
        Cell::Minus(k) => {
            lemma_shift_canonical(x, k, true, p);
            assert forall|i: int| 0 <= i < x.len() implies (#[trigger] shift_terms(
                x,
                k,
                true,
                p,
            )[i]).0 <= hi + k by {
                assert(x[i].0 <= hi);
            }
        },
    }
}

/// A row of canonical polynomials times a generator's matrix is canonical,
/// and its powers are at most 4 above those of the row.
pub proof fn lemma_row_entry(
    a: Seq<(u16, u8)>,
    b: Seq<(u16, u8)>,
    c: Seq<(u16, u8)>,
    g: u32,
    col: int,
    p: u8,
    hi: int,
)
    requires
        p >= 1,
        canonical(a, p),
        canonical(b, p),
        canonical(c, p),
        powers_upto(a, hi),
        powers_upto(b, hi),
        powers_upto(c, hi),
        hi + 4 <= u16::MAX,
        0 <= col < 3,
    ensures
        canonical(row_entry(a, b, c, g, col, p), p),
        powers_upto(row_entry(a, b, c, g, col, p), hi + 4),
{
    let ca = generator_cell(g, col);
    let cb = generator_cell(g, 3 + col);
    let cc = generator_cell(g, 6 + col);
    lemma_generator_shift(g, col);
    lemma_generator_shift(g, 3 + col);
    lemma_generator_shift(g, 6 + col);
    lemma_times_cell(a, ca, p, hi);
    lemma_times_cell(b, cb, p, hi);
    lemma_times_cell(c, cc, p, hi);
    let ta = times_cell(a, ca, p);
    let tb = times_cell(b, cb, p);
    let tc = times_cell(c, cc, p);
    assert(powers_upto(ta, hi + 4) && powers_upto(tb, hi + 4) && powers_upto(tc, hi + 4)) by {
        assert forall|i: int| 0 <= i < ta.len() implies (#[trigger] ta[i]).0 <= hi + 4 by {}
        assert forall|i: int| 0 <= i < tb.len() implies (#[trigger] tb[i]).0 <= hi + 4 by {}
        assert forall|i: int| 0 <= i < tc.len() implies (#[trigger] tc[i]).0 <= hi + 4 by {}
    }
    lemma_add_canonical(ta, tb, p, 0);
    lemma_add_powers_upto(ta, tb, p, hi + 4);
    lemma_add_canonical(add_terms(ta, tb, p), tc, p, 0);
    lemma_add_powers_upto(add_terms(ta, tb, p), tc, p, hi + 4);
}

/// No generator sends a row that is not zero to the zero row: its matrix
/// is invertible.
pub proof fn lemma_row_nonzero(
    a: Seq<(u16, u8)>,
    b: Seq<(u16, u8)>,
    c: Seq<(u16, u8)>,
    g: u32,
    p: u8,
)
    requires
        p >= 1,
        canonical(a, p),
        canonical(b, p),
        canonical(c, p),
        powers_upto(a, u16::MAX - 4),
        powers_upto(b, u16::MAX - 4),
        powers_upto(c, u16::MAX - 4),
        row_entry(a, b, c, g, 0, p).len() == 0,
        row_entry(a, b, c, g, 1, p).len() == 0,
        row_entry(a, b, c, g, 2, p).len() == 0,
    ensures
        a.len() == 0,
        b.len() == 0,
        c.len() == 0,
{
    reveal(generator_cell);
    if g == 10 {
        // -tb + t^2 c = 0, t^3 a - t^2 b + t^3 c = 0, t^2 a - tb = 0
        let b1 = shift_terms(b, 1, true, p);
        let c2 = shift_terms(c, 2, false, p);
        let a2 = shift_terms(a, 2, false, p);
        let a3 = shift_terms(a, 3, false, p);
        let b2 = shift_terms(b, 2, true, p);
        lemma_times_cell(b, Cell::Minus(1), p, u16::MAX - 4);
        lemma_times_cell(c, Cell::Plus(2), p, u16::MAX - 4);
        lemma_times_cell(a, Cell::Plus(2), p, u16::MAX - 4);
        assert(add_terms(b1, c2, p).len() == 0);
        assert(add_terms(a2, b1, p).len() == 0);
        lemma_zero_sum_opposite(b1, c2, p);
        lemma_zero_sum_opposite(a2, b1, p);
        assert(opposite(a3, b2, p)) by {
            assert forall|i: int| 0 <= i < a3.len() implies (#[trigger] a3[i]).0 == b2[i].0
                && a3[i].1 + b2[i].1 == p by {
                assert(a2[i].0 == b1[i].0 && a2[i].1 + b1[i].1 == p);
                assert(a[i].0 <= u16::MAX - 4 && b[i].0 <= u16::MAX - 4);
            }
        }
        lemma_opposite_sum_zero(a3, b2, p);
    } else if g == 13 {
        // -t^2 a + t^3 b = 0, -ta + t^2 b - tc = 0, t^3 b - t^2 c = 0
        let a2 = shift_terms(a, 2, true, p);
        let b3 = shift_terms(b, 3, false, p);
        let c2 = shift_terms(c, 2, true, p);
        let a1 = shift_terms(a, 1, true, p);
        let b2 = shift_terms(b, 2, false, p);
        lemma_times_cell(a, Cell::Minus(2), p, u16::MAX - 4);
        lemma_times_cell(b, Cell::Plus(3), p, u16::MAX - 4);
        lemma_times_cell(c, Cell::Minus(2), p, u16::MAX - 4);
        assert(add_terms(a2, b3, p).len() == 0);
        assert(add_terms(b3, c2, p).len() == 0);
        lemma_zero_sum_opposite(a2, b3, p);
        lemma_zero_sum_opposite(b3, c2, p);
        assert(opposite(a1, b2, p)) by {
            assert forall|i: int| 0 <= i < a1.len() implies (#[trigger] a1[i]).0 == b2[i].0
                && a1[i].1 + b2[i].1 == p by {
                assert(a2[i].0 == b3[i].0 && a2[i].1 + b3[i].1 == p);
                assert(a[i].0 <= u16::MAX - 4 && b[i].0 <= u16::MAX - 4);
            }
        }
        lemma_opposite_sum_zero(a1, b2, p);
    }
    // In the matrix of every other generator some column holds one cell
    // only: the row entry of that cell is zero, and with it the others.
}

/// The matrix `mat` times the matrix of generator `element`; an id outside
/// `1..=21` stands for generator 22. The result carries the modulus `p`.
pub fn act_by(mat: &Matrix, element: u32, p: u8) -> (r: Matrix)
    requires
        mat.wf(),
        mat.powers_upto(u16::MAX - 4),
    ensures
        r.p == p,
        forall|i: int| 0 <= i < 9 ==> (#[trigger] r.d[i]).p == mat.p,
        r@ == act_on(mat@, element, mat.p),
        p == mat.p ==> r.wf(),
        mat.is_nonzero() ==> r.is_nonzero(),
        forall|hi: int| #[trigger] mat.powers_upto(hi) && hi + 4 <= u16::MAX ==> r.powers_upto(hi + 4),
{
    proof {
        assert forall|i: int| 0 <= i < 9 implies has_headroom((#[trigger] mat.d[i]).data@) by {
            let s = mat.d[i].data@;
            if s.len() > 0 {
                assert(powers_upto(s, u16::MAX - 4));
                assert(s[s.len() - 1].0 <= u16::MAX - 4);
            }
        }
        assert(mat.d[0].wf() && mat.d[1].wf() && mat.d[2].wf());
        assert(mat.d[3].wf() && mat.d[4].wf() && mat.d[5].wf());
        assert(mat.d[6].wf() && mat.d[7].wf() && mat.d[8].wf());
    }
    let (r0, r1, r2) = act_row(&mat.d[0], &mat.d[1], &mat.d[2], element);
    let (r3, r4, r5) = act_row(&mat.d[3], &mat.d[4], &mat.d[5], element);
    let (r6, r7, r8) = act_row(&mat.d[6], &mat.d[7], &mat.d[8], element);
    let r = Matrix { d: [r0, r1, r2, r3, r4, r5, r6, r7, r8], p };
    proof {
        lemma_act_entries(*mat, element);
        let m = mat@;
        assert(m[0] == mat.d[0].data@ && m[1] == mat.d[1].data@ && m[2] == mat.d[2].data@);
        assert(m[3] == mat.d[3].data@ && m[4] == mat.d[4].data@ && m[5] == mat.d[5].data@);
        assert(m[6] == mat.d[6].data@ && m[7] == mat.d[7].data@ && m[8] == mat.d[8].data@);
        assert(r.d[0].data@ == act_entry(m, element, 0, mat.p));
        assert(r.d[1].data@ == act_entry(m, element, 1, mat.p));
        assert(r.d[2].data@ == act_entry(m, element, 2, mat.p));
        assert(r.d[3].data@ == act_entry(m, element, 3, mat.p));
        assert(r.d[4].data@ == act_entry(m, element, 4, mat.p));
        assert(r.d[5].data@ == act_entry(m, element, 5, mat.p));
        assert(r.d[6].data@ == act_entry(m, element, 6, mat.p));
        assert(r.d[7].data@ == act_entry(m, element, 7, mat.p));
        assert(r.d[8].data@ == act_entry(m, element, 8, mat.p));
        assert(r@ =~= act_on(m, element, mat.p));
        assert forall|i: int| 0 <= i < 9 implies (#[trigger] r.d[i]).data@ == act_entry(
            m,
            element,
            i,
            mat.p,
        ) by {
            assert(r@[i] == r.d[i].data@);
        }
        if mat.is_nonzero() {
            lemma_act_nonzero(*mat, element);
            let w = choose|i: int| 0 <= i < 9 && act_entry(mat@, element, i, mat.p).len() > 0;
            assert(r.d[w].data@.len() > 0);
        }
        assert forall|hi: int| #[trigger]
            mat.powers_upto(hi) && hi + 4 <= u16::MAX implies r.powers_upto(hi + 4) by {
            lemma_act_powers(*mat, element, hi);
            assert forall|i: int| 0 <= i < 9 implies powers_upto(
                (#[trigger] r.d[i]).data@,
                hi + 4,
            ) by {}
        }
    }
    r
}

/// The entries of a well-formed matrix times a generator's matrix are
/// canonical.
pub proof fn lemma_act_entries(m: Matrix, g: u32)
    requires
        m.wf(),
        m.powers_upto(u16::MAX - 4),
    ensures
        forall|i: int| 0 <= i < 9 ==> canonical(#[trigger] act_entry(m@, g, i, m.p), m.p),
{
    assert forall|i: int| 0 <= i < 9 implies canonical(#[trigger] act_entry(m@, g, i, m.p), m.p) by {
        let first: int = if i < 3 {
            0
        } else if i < 6 {
            3
        } else {
            6
        };
        assert(m.d[first].wf() && m.d[first + 1].wf() && m.d[first + 2].wf());
        assert(m@[first] == m.d[first].data@ && m@[first + 1] == m.d[first + 1].data@ && m@[first
            + 2] == m.d[first + 2].data@);
        lemma_row_entry(
            m.d[first].data@,
            m.d[first + 1].data@,
            m.d[first + 2].data@,
            g,
            i - first,
            m.p,
            u16::MAX - 4,
        );
    }
}

/// The powers of a matrix times a generator's matrix are at most 4 above
/// those of the matrix.
pub proof fn lemma_act_powers(m: Matrix, g: u32, hi: int)
    requires
        m.wf(),
        m.powers_upto(hi),
        hi + 4 <= u16::MAX,
    ensures
        forall|i: int| 0 <= i < 9 ==> powers_upto(#[trigger] act_entry(m@, g, i, m.p), hi + 4),
{
    assert forall|i: int| 0 <= i < 9 implies powers_upto(#[trigger] act_entry(m@, g, i, m.p), hi + 4) by {
        let first: int = if i < 3 {
            0
        } else if i < 6 {
            3
        } else {
            6
        };
        assert(m.d[first].wf() && m.d[first + 1].wf() && m.d[first + 2].wf());
        assert(m@[first] == m.d[first].data@ && m@[first + 1] == m.d[first + 1].data@ && m@[first
            + 2] == m.d[first + 2].data@);
        lemma_row_entry(
            m.d[first].data@,
            m.d[first + 1].data@,
            m.d[first + 2].data@,
            g,
            i - first,
            m.p,
            hi,
        );
    }
}

/// A matrix that is not zero times a generator's matrix is not zero.
pub proof fn lemma_act_nonzero(m: Matrix, g: u32)
    requires
        m.wf(),
        m.powers_upto(u16::MAX - 4),
        m.is_nonzero(),
    ensures
        exists|i: int| 0 <= i < 9 && act_entry(m@, g, i, m.p).len() > 0,
{
    let w = choose|i: int| 0 <= i < 9 && (#[trigger] m.d[i]).data@.len() > 0;
    let first: int = if w < 3 {
        0
    } else if w < 6 {
        3
    } else {
        6
    };
    assert(m.d[first].wf() && m.d[first + 1].wf() && m.d[first + 2].wf());
    let a = m.d[first].data@;
    let b = m.d[first + 1].data@;
    let c = m.d[first + 2].data@;
    assert(m@[first] == a && m@[first + 1] == b && m@[first + 2] == c);
    assert(act_entry(m@, g, first, m.p) == row_entry(a, b, c, g, 0, m.p));
    assert(act_entry(m@, g, first + 1, m.p) == row_entry(a, b, c, g, 1, m.p));
    assert(act_entry(m@, g, first + 2, m.p) == row_entry(a, b, c, g, 2, m.p));
    if row_entry(a, b, c, g, 0, m.p).len() == 0 && row_entry(a, b, c, g, 1, m.p).len() == 0
        && row_entry(a, b, c, g, 2, m.p).len() == 0 {
        lemma_row_nonzero(a, b, c, g, m.p);
        assert(false);
    }
}

/// The entries of the matrix of a cell-wise given generator: `0`, `t^k` or
/// `-t^k`, the last with the coefficient `p - 1`.
pub open spec fn cell_terms(cell: Cell, p: u8) -> Seq<(u16, u8)> {
    match cell {
        Cell::Zero => Seq::empty(),
        Cell::Plus(k) => seq![(k, 1u8)],
        Cell::Minus(k) => seq![(k, (p - 1) as u8)],
    }
}

/// The nine entries of the matrix of generator `g` over the modulus `p`.
pub open spec fn generator_entries(g: u32, p: u8) -> Seq<Seq<(u16, u8)>> {
    Seq::new(9, |i: int| cell_terms(generator_cell(g, i), p))
}

/// Entry `i`, counted row by row, of the product of the matrices with
/// entries `a` and `b`: row times column, the three products added from left
/// to right.
pub open spec fn product_entry(a: Seq<Seq<(u16, u8)>>, b: Seq<Seq<(u16, u8)>>, i: int, p: u8) -> Seq<
    (u16, u8),
> {
    let first: int = if i < 3 {
        0
    } else if i < 6 {
        3
    } else {
        6
    };
    let col = i - first;
    add_terms(
        add_terms(mul_terms(a[first], b[col], p), mul_terms(a[first + 1], b[3 + col], p), p),
        mul_terms(a[first + 2], b[6 + col], p),
        p,
    )
}

/// The entries of the product of the matrices with entries `a` and `b`.
pub open spec fn product(a: Seq<Seq<(u16, u8)>>, b: Seq<Seq<(u16, u8)>>, p: u8) -> Seq<
    Seq<(u16, u8)>,
> {
    Seq::new(9, |i: int| product_entry(a, b, i, p))
}

/// A polynomial times the polynomial of a cell is the polynomial times the
/// cell.
pub proof fn lemma_mul_by_cell(x: Seq<(u16, u8)>, cell: Cell, p: u8)
    requires
        p >= 2,
        canonical(x, p),
    ensures
        mul_terms(x, cell_terms(cell, p), p) == times_cell(x, cell, p),
{
    match cell {
        Cell::Zero => {},
        Cell::Plus(k) => {
            lemma_scale_is_shift(x, k, false, p);
            let y = cell_terms(cell, p);
            assert(y.skip(1) =~= Seq::<(u16, u8)>::empty());
            assert(mul_terms(x, y.skip(1), p) =~= Seq::<(u16, u8)>::empty());
        },
        Cell::Minus(k) => {
            lemma_scale_is_shift(x, k, true, p);
            let y = cell_terms(cell, p);
            assert(y.skip(1) =~= Seq::<(u16, u8)>::empty());
            assert(mul_terms(x, y.skip(1), p) =~= Seq::<(u16, u8)>::empty());
        },
    }
}

/// What `act_by` computes is the product with the generator's matrix, by
/// ordinary matrix multiplication over the ring of polynomials.
pub proof fn lemma_act_is_product(m: Seq<Seq<(u16, u8)>>, g: u32, p: u8)
    requires
        p >= 2,
        m.len() == 9,
        forall|i: int| 0 <= i < 9 ==> canonical(#[trigger] m[i], p),
    ensures
        act_on(m, g, p) == product(m, generator_entries(g, p), p),
{
    let gm = generator_entries(g, p);
    assert forall|i: int| 0 <= i < 9 implies act_entry(m, g, i, p) == product_entry(
        m,
        gm,
        i,
        p,
    ) by {
        let first: int = if i < 3 {
            0
        } else if i < 6 {
            3
        } else {
            6
        };
        let col = i - first;
        lemma_mul_by_cell(m[first], generator_cell(g, col), p);
        lemma_mul_by_cell(m[first + 1], generator_cell(g, 3 + col), p);
        lemma_mul_by_cell(m[first + 2], generator_cell(g, 6 + col), p);
        assert(gm[col] == cell_terms(generator_cell(g, col), p));
        assert(gm[3 + col] == cell_terms(generator_cell(g, 3 + col), p));
        assert(gm[6 + col] == cell_terms(generator_cell(g, 6 + col), p));
    }
    assert(act_on(m, g, p) =~= product(m, gm, p));
}

/// The polynomial `t^k`, or `-t^k` where `neg` is set.
fn monomial(k: u16, neg: bool, p: u8) -> (r: Polynomial)
    requires
        p >= 1,
    ensures
        r.p == p,
        r@ == cell_terms(
            if neg {
                Cell::Minus(k)
            } else {
                Cell::Plus(k)
            },
            p,
        ),
{
    let c: u8 = if neg {
        p - 1
    } else {
        1
    };
    let mut v: Vec<(u16, u8)> = Vec::new();
    v.push((k, c));
    assert(v@ =~= seq![(k, c)]);
    Polynomial::new(v, p)
}

/// The matrix of generator `g` over the modulus `p`; an id outside `1..=21`
/// stands for generator 22.
fn generator_matrix(g: u32, p: u8) -> (r: Matrix)
    requires
        p >= 1,
    ensures
        r.p == p,
        r@ == generator_entries(g, p),
        forall|i: int| 0 <= i < 9 ==> (#[trigger] r.d[i]).p == p,
{
    proof {
        reveal(generator_cell);
    }
    let d: [Polynomial; 9] = match g {
        1 => [
            monomial(0, false, p),
            Polynomial::zero(p),
            Polynomial::zero(p),
            Polynomial::zero(p),
            monomial(0, false, p),
            Polynomial::zero(p),
            Polynomial::zero(p),
            monomial(1, true, p),
            monomial(2, true, p),
        ],
        2 => [
            monomial(0, false, p),
            Polynomial::zero(p),
            Polynomial::zero(p),
            monomial(1, true, p),
            monomial(2, true, p),
            monomial(1, true, p),
            Polynomial::zero(p),
            Polynomial::zero(p),
            monomial(0, false, p),
        ],
        3 => [
            monomial(0, false, p),
            Polynomial::zero(p),
            Polynomial::zero(p),
            monomial(1, true, p),
            Polynomial::zero(p),
            monomial(3, false, p),
            Polynomial::zero(p),
            monomial(1, true, p),
            monomial(2, true, p),
        ],
        4 => [
            monomial(0, false, p),
            Polynomial::zero(p),
            Polynomial::zero(p),
            monomial(1, true, p),
            monomial(2, true, p),
            monomial(1, true, p),
            monomial(2, false, p),
            monomial(3, false, p),
            Polynomial::zero(p),
        ],
        5 => [
            monomial(0, false, p),
            Polynomial::zero(p),
            Polynomial::zero(p),
            monomial(1, true, p),
            Polynomial::zero(p),
            monomial(3, false, p),
            monomial(2, false, p),
            monomial(3, false, p),
            Polynomial::zero(p),
        ],
        6 => [
            monomial(2, true, p),
            monomial(1, true, p),
            Polynomial::zero(p),
            Polynomial::zero(p),
            monomial(0, false, p),
            Polynomial::zero(p),
            Polynomial::zero(p),
            Polynomial::zero(p),
            monomial(0, false, p),
        ],
        7 => [
            monomial(2, true, p),
            monomial(1, true, p),
            Polynomial::zero(p),
            Polynomial::zero(p),
            monomial(0, false, p),
            Polynomial::zero(p),
            Polynomial::zero(p),
            monomial(1, true, p),
            monomial(2, true, p),
        ],
        8 => [
            Polynomial::zero(p),
            monomial(3, false, p),
            monomial(2, false, p),
            monomial(1, true, p),
            monomial(2, true, p),
            monomial(1, true, p),
            Polynomial::zero(p),
            Polynomial::zero(p),
            monomial(0, false, p),
        ],
        9 => [
            Polynomial::zero(p),
            Polynomial::zero(p),
            monomial(4, true, p),
            monomial(1, true, p),
            Polynomial::zero(p),
            monomial(3, false, p),
            Polynomial::zero(p),
            monomial(1, true, p),
            monomial(2, true, p),
        ],
        10 => [
            Polynomial::zero(p),
            monomial(3, false, p),
            monomial(2, false, p),
            monomial(1, true, p),
            monomial(2, true, p),
            monomial(1, true, p),
            monomial(2, false, p),
            monomial(3, false, p),
            Polynomial::zero(p),
        ],
        11 => [
            Polynomial::zero(p),
            Polynomial::zero(p),
            monomial(4, true, p),
            monomial(1, true, p),
            Polynomial::zero(p),
            monomial(3, false, p),
            monomial(2, false, p),
            monomial(3, false, p),
            Polynomial::zero(p),
        ],
        12 => [
            monomial(2, true, p),
            monomial(1, true, p),
            Polynomial::zero(p),
            monomial(3, false, p),
            Polynomial::zero(p),
            monomial(1, true, p),
            Polynomial::zero(p),
            Polynomial::zero(p),
            monomial(0, false, p),
        ],
        13 => [
            monomial(2, true, p),
            monomial(1, true, p),
            Polynomial::zero(p),
            monomial(3, false, p),
            monomial(2, false, p),
            monomial(3, false, p),
            Polynomial::zero(p),
            monomial(1, true, p),
            monomial(2, true, p),
        ],
        14 => [
            Polynomial::zero(p),
            monomial(3, false, p),
            monomial(2, false, p),
            monomial(3, false, p),
            Polynomial::zero(p),
            monomial(1, true, p),
            Polynomial::zero(p),
            Polynomial::zero(p),
            monomial(0, false, p),
        ],
        15 => [
            Polynomial::zero(p),
            Polynomial::zero(p),
            monomial(4, true, p),
            monomial(3, false, p),
            monomial(2, false, p),
            monomial(3, false, p),
            Polynomial::zero(p),
            monomial(1, true, p),
            monomial(2, true, p),
        ],
        16 => [
            Polynomial::zero(p),
            monomial(3, false, p),
            monomial(2, false, p),
            Polynomial::zero(p),
            monomial(4, true, p),
            Polynomial::zero(p),
            monomial(2, false, p),
            monomial(3, false, p),
            Polynomial::zero(p),
        ],
        17 => [
            Polynomial::zero(p),
            Polynomial::zero(p),
            monomial(4, true, p),
            Polynomial::zero(p),
            monomial(4, true, p),
            Polynomial::zero(p),
            monomial(2, false, p),
            monomial(3, false, p),
            Polynomial::zero(p),
        ],
        18 => [
            monomial(2, true, p),
            monomial(1, true, p),
            Polynomial::zero(p),
            monomial(3, false, p),
            Polynomial::zero(p),
            monomial(1, true, p),
            monomial(4, true, p),
            Polynomial::zero(p),
            Polynomial::zero(p),
        ],
        19 => [
            monomial(2, true, p),
            monomial(1, true, p),
            Polynomial::zero(p),
            monomial(3, false, p),
            monomial(2, false, p),
            monomial(3, false, p),
            monomial(4, true, p),
            Polynomial::zero(p),
            Polynomial::zero(p),
        ],
        20 => [
            Polynomial::zero(p),
            monomial(3, false, p),
            monomial(2, false, p),
            monomial(3, false, p),
            Polynomial::zero(p),
            monomial(1, true, p),
            monomial(4, true, p),
            Polynomial::zero(p),
            Polynomial::zero(p),
        ],
        21 => [
            Polynomial::zero(p),
            Polynomial::zero(p),
            monomial(4, true, p),
            monomial(3, false, p),
            monomial(2, false, p),
            monomial(3, false, p),
            monomial(4, true, p),
            Polynomial::zero(p),
            Polynomial::zero(p),
        ],
        _ => [
            Polynomial::zero(p),
            monomial(3, false, p),
            monomial(2, false, p),
            Polynomial::zero(p),
            monomial(4, true, p),
            Polynomial::zero(p),
            monomial(4, true, p),
            Polynomial::zero(p),
            Polynomial::zero(p),
        ],
    };
    let r = Matrix { d, p };
    assert(r@ =~= generator_entries(g, p));
    r
}

/// The matrices of the 22 generators, by generator id, in a
/// `hashbrown::HashMap`. Of the map itself nothing is known but what
/// `matrix_map` names and the functions below say of it.
#[verifier::external_body]
pub struct MatrixTable {
    map: HashMap<u32, Matrix>,
}

/// What a matrix table holds: generator id to matrix.
pub uninterp spec fn matrix_map(t: MatrixTable) -> Map<u32, Matrix>;

/// `hashbrown::HashMap::new`: a map that holds nothing.
#[verifier::external_body]
fn empty_matrix_table() -> (out: MatrixTable)
    ensures
        matrix_map(out) =~= Map::empty(),
{
    MatrixTable { map: HashMap::new() }
}

/// `hashbrown::HashMap::insert`: the map holds `mat` at `g` afterwards and is
/// otherwise unchanged; the value that was there before comes back.
#[verifier::external_body]
fn insert_matrix(t: &mut MatrixTable, g: u32, mat: Matrix) -> (prev: Option<Matrix>)
    ensures
        matrix_map(*final(t)) == matrix_map(*old(t)).insert(g, mat),
        prev == if matrix_map(*old(t)).contains_key(g) {
            Some(matrix_map(*old(t))[g])
        } else {
            None
        },
{
    t.map.insert(g, mat)
}

/// `hashbrown::HashMap::get`: the value at `g`, if the map holds one.
#[verifier::external_body]
fn lookup_matrix(t: &MatrixTable, g: u32) -> (out: Option<&Matrix>)
    ensures
        out == if matrix_map(*t).contains_key(g) {
            Some(&matrix_map(*t)[g])
        } else {
            None
        },
{
    t.map.get(&g)
}

impl MatrixTable {
    /// The table holds, for each generator id in `1..=22`, that generator's
    /// matrix over the modulus `p`.
    pub open spec fn wf(self, p: u8) -> bool {
        &&& forall|g: u32| matrix_map(self).contains_key(g) <==> 1 <= g <= 22
        &&& forall|g: u32|
            1 <= g <= 22 ==> (#[trigger] matrix_map(self)[g])@ == generator_entries(g, p)
                && matrix_map(self)[g].p == p
    }

    /// The matrix of generator `g`, for an id that the table holds.
    pub fn get(&self, g: u32) -> (out: Option<&Matrix>)
        ensures
            out == if matrix_map(*self).contains_key(g) {
                Some(&matrix_map(*self)[g])
            } else {
                None
            },
    {
        lookup_matrix(self, g)
    }
}

/// The matrices of the 22 generators over the modulus `p`: multiplying a
/// matrix by that of generator `g`, from the right, is what `act_by` does.
pub fn generate_matrix_map(p: u8) -> (out: MatrixTable)
    requires
        p >= 1,
    ensures
        out.wf(p),
{
    let mut d = empty_matrix_table();
    let mut g: u32 = 1;
    while g <= 22
        invariant
            1 <= g <= 23,
            p >= 1,
            forall|k: u32| matrix_map(d).contains_key(k) <==> 1 <= k < g,
            forall|k: u32|
                1 <= k < g ==> (#[trigger] matrix_map(d)[k])@ == generator_entries(k, p)
                    && matrix_map(d)[k].p == p,
        decreases 23 - g,
    {
        let mat = generator_matrix(g, p);
        insert_matrix(&mut d, g, mat);
        g += 1;
    }
    d
}

/// The generators that may follow generator `g`, in the table's order; none
/// for an id outside `1..=22`.
#[verifier::opaque]
pub open spec fn descendants(g: u32) -> Seq<u32> {
    if g == 1 {
        seq![1u32, 4u32, 18u32]
    } else if g == 2 {
        seq![2u32, 3u32, 12u32, 13u32, 16u32]
    } else if g == 3 {
        seq![1u32, 4u32, 18u32]
    } else if g == 4 {
        seq![2u32, 3u32, 12u32, 13u32, 16u32]
    } else if g == 5 {
        seq![1u32, 2u32, 3u32, 4u32, 5u32, 12u32, 13u32, 16u32, 18u32, 19u32, 22u32]
    } else if g == 6 {
        seq![6u32, 8u32, 9u32]
    } else if g == 7 {
        seq![1u32, 4u32, 6u32, 7u32, 8u32, 9u32, 10u32, 11u32, 18u32, 20u32, 21u32]
    } else if g == 8 {
        seq![2u32, 3u32, 12u32, 13u32, 16u32]
    } else if g == 9 {
        seq![1u32, 4u32, 18u32]
    } else if g == 10 {
        seq![2u32, 3u32, 12u32, 13u32, 16u32]
    } else if g == 11 {
        seq![1u32, 2u32, 3u32, 4u32, 5u32, 12u32, 13u32, 16u32, 18u32, 19u32, 22u32]
    } else if g == 12 {
        seq![6u32, 8u32, 9u32]
    } else if g == 13 {
        seq![1u32, 4u32, 6u32, 7u32, 8u32, 9u32, 10u32, 11u32, 18u32, 20u32, 21u32]
    } else if g == 14 {
        seq![2u32, 3u32, 6u32, 8u32, 9u32, 12u32, 13u32, 14u32, 15u32, 16u32, 17u32]
    } else if g == 15 {
        seq![1u32, 4u32, 6u32, 7u32, 8u32, 9u32, 10u32, 11u32, 18u32, 20u32, 21u32]
    } else if g == 16 {
        seq![2u32, 3u32, 12u32, 13u32, 16u32]
    } else if g == 17 {
        seq![1u32, 2u32, 3u32, 4u32, 5u32, 12u32, 13u32, 16u32, 18u32, 19u32, 22u32]
    } else if g == 18 {
        seq![6u32, 8u32, 9u32]
    } else if g == 19 {
        seq![1u32, 4u32, 6u32, 7u32, 8u32, 9u32, 10u32, 11u32, 18u32, 20u32, 21u32]
    } else if g == 20 {
        seq![2u32, 3u32, 6u32, 8u32, 9u32, 12u32, 13u32, 14u32, 15u32, 16u32, 17u32]
    } else if g == 21 {
        seq![1u32, 4u32, 6u32, 7u32, 8u32, 9u32, 10u32, 11u32, 18u32, 20u32, 21u32]
    } else if g == 22 {
        seq![2u32, 3u32, 6u32, 8u32, 9u32, 12u32, 13u32, 14u32, 15u32, 16u32, 17u32]
    } else {
        Seq::empty()
    }
}

/// The generators that may follow generator `g`, as a vector.
fn successors(g: u32) -> (r: Vec<u32>)
    ensures
        r@ == descendants(g),
{
    proof {
        reveal(descendants);
    }
    match g {
        1 => vec![1, 4, 18],
        2 => vec![2, 3, 12, 13, 16],
        3 => vec![1, 4, 18],
        4 => vec![2, 3, 12, 13, 16],
        5 => vec![1, 2, 3, 4, 5, 12, 13, 16, 18, 19, 22],
        6 => vec![6, 8, 9],
        7 => vec![1, 4, 6, 7, 8, 9, 10, 11, 18, 20, 21],
        8 => vec![2, 3, 12, 13, 16],
        9 => vec![1, 4, 18],
        10 => vec![2, 3, 12, 13, 16],
        11 => vec![1, 2, 3, 4, 5, 12, 13, 16, 18, 19, 22],
        12 => vec![6, 8, 9],
        13 => vec![1, 4, 6, 7, 8, 9, 10, 11, 18, 20, 21],
        14 => vec![2, 3, 6, 8, 9, 12, 13, 14, 15, 16, 17],
        15 => vec![1, 4, 6, 7, 8, 9, 10, 11, 18, 20, 21],
        16 => vec![2, 3, 12, 13, 16],
        17 => vec![1, 2, 3, 4, 5, 12, 13, 16, 18, 19, 22],
        18 => vec![6, 8, 9],
        19 => vec![1, 4, 6, 7, 8, 9, 10, 11, 18, 20, 21],
        20 => vec![2, 3, 6, 8, 9, 12, 13, 14, 15, 16, 17],
        21 => vec![1, 4, 6, 7, 8, 9, 10, 11, 18, 20, 21],
        22 => vec![2, 3, 6, 8, 9, 12, 13, 14, 15, 16, 17],
        _ => Vec::new(),
    }
}

/// Which generators may follow which, by generator id, in a
/// `hashbrown::HashMap`. Of the map itself nothing is known but what
/// `descendant_map` names and the functions below say of it.
#[verifier::external_body]
pub struct DescendantTable {
    map: HashMap<u32, Vec<u32>>,
}

/// What a descendant table holds: generator id to the ids that may follow.
pub uninterp spec fn descendant_map(t: DescendantTable) -> Map<u32, Seq<u32>>;

/// `hashbrown::HashMap::new`: a map that holds nothing.
#[verifier::external_body]
fn empty_descendant_table() -> (out: DescendantTable)
    ensures
        descendant_map(out) =~= Map::empty(),
{
    DescendantTable { map: HashMap::new() }
}

/// `hashbrown::HashMap::insert`: the map holds `next` at `g` afterwards and
/// is otherwise unchanged; whether a value was there before comes back, and
/// which.
#[verifier::external_body]
fn insert_descendants(t: &mut DescendantTable, g: u32, next: Vec<u32>) -> (prev: Option<Vec<u32>>)
    ensures
        descendant_map(*final(t)) == descendant_map(*old(t)).insert(g, next@),
        prev.is_some() == descendant_map(*old(t)).contains_key(g),
        prev matches Some(v) ==> v@ == descendant_map(*old(t))[g],
{
    t.map.insert(g, next)
}

/// `hashbrown::HashMap::get`: the value at `g`, if the map holds one.
#[verifier::external_body]
fn lookup_descendants(t: &DescendantTable, g: u32) -> (out: Option<&Vec<u32>>)
    ensures
        out.is_some() == descendant_map(*t).contains_key(g),
        out matches Some(v) ==> v@ == descendant_map(*t)[g],
{
    t.map.get(&g)
}

impl DescendantTable {
    /// The table holds, for each generator id in `1..=22`, the generators
    /// that may follow it.
    pub open spec fn wf(self) -> bool {
        &&& forall|g: u32| descendant_map(self).contains_key(g) <==> 1 <= g <= 22
        &&& forall|g: u32| 1 <= g <= 22 ==> #[trigger] descendant_map(self)[g] == descendants(g)
    }

    /// The generators that may follow `g`, for an id that the table holds.
    pub fn get(&self, g: u32) -> (out: Option<&Vec<u32>>)
        ensures
            out.is_some() == descendant_map(*self).contains_key(g),
            out matches Some(v) ==> v@ == descendant_map(*self)[g],
    {
        lookup_descendants(self, g)
    }
}

/// The table of which generator may follow which.
pub fn generate_descendants() -> (out: DescendantTable)
    ensures
        out.wf(),
{
    let mut d = empty_descendant_table();
    let mut g: u32 = 1;
    while g <= 22
        invariant
            1 <= g <= 23,
            forall|k: u32| descendant_map(d).contains_key(k) <==> 1 <= k < g,
            forall|k: u32| 1 <= k < g ==> #[trigger] descendant_map(d)[k] == descendants(k),
        decreases 23 - g,
    {
        let next = successors(g);
        insert_descendants(&mut d, g, next);
        g += 1;
    }
    d
}

/// Every generator has at least 3 and at most 11 descendants, all of them
/// generators.
pub proof fn lemma_descendants_range(g: u32)
    requires
        1 <= g <= 22,
    ensures
        3 <= descendants(g).len() <= 11,
        forall|i: int| 0 <= i < descendants(g).len() ==> 1 <= #[trigger] descendants(g)[i] <= 22,
{
    reveal(descendants);
}

/// Every generator follows some other generator: none is out of reach.
pub proof fn lemma_descendants_reached(g: u32)
    requires
        1 <= g <= 22,
    ensures
        exists|h: u32| 1 <= h <= 22 && h != g && (#[trigger] descendants(h)).contains(g),
{
    reveal(descendants);
    assert(descendants(3)[0] == 1);
    assert(descendants(4)[0] == 2);
    assert(descendants(2)[1] == 3);
    assert(descendants(1)[1] == 4);
    assert(descendants(11)[4] == 5);
    assert(descendants(7)[2] == 6);
    assert(descendants(13)[3] == 7);
    assert(descendants(6)[1] == 8);
    assert(descendants(6)[2] == 9);
    assert(descendants(7)[6] == 10);
    assert(descendants(7)[7] == 11);
    assert(descendants(2)[2] == 12);
    assert(descendants(2)[3] == 13);
    assert(descendants(20)[7] == 14);
    assert(descendants(14)[8] == 15);
    assert(descendants(2)[4] == 16);
    assert(descendants(14)[10] == 17);
    assert(descendants(1)[2] == 18);
    assert(descendants(5)[9] == 19);
    assert(descendants(7)[9] == 20);
    assert(descendants(7)[10] == 21);
    assert(descendants(5)[10] == 22);
}

} // verus!

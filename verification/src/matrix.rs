//! Dense matrices and vectors of exact rationals.
//!
//! The mathematical value of a matrix is a sequence of rows of `Frac`
//! fractions.  Dot products are defined recursively at the spec level, and
//! every executable operation relates its result to the spec-level value
//! through `frac_eq`.  Operations that normalize intermediate fractions can
//! overflow the fixed-width representation; those return `None`.

use crate::rat::frac_add;
use crate::rat::frac_eq;
use crate::rat::frac_mul;
use crate::rat::frac_one;
use crate::rat::frac_wf;
use crate::rat::frac_zero;
use crate::rat::lemma_frac_add_congr;
use crate::rat::lemma_frac_cmp_congr;
use crate::rat::lemma_frac_eq_trans;
use crate::rat::lemma_frac_mul_congr;
use crate::rat::lemma_pos_mul;
use crate::rat::Frac;
use crate::rat::Rat;
use vstd::prelude::*;

verus! {

/// The fractions a sequence of rationals stands for.
pub open spec fn vv(s: Seq<Rat>) -> Seq<Frac> {
    Seq::new(s.len(), |i: int| s[i]@)
}

/// Every entry has a positive denominator.
pub open spec fn vec_wf(s: Seq<Frac>) -> bool {
    forall|i: int| 0 <= i < s.len() ==> frac_wf(#[trigger] s[i])
}

/// A rectangular grid of well-formed fractions with `cols` columns.
pub open spec fn grid_wf(m: Seq<Seq<Frac>>, cols: int) -> bool {
    forall|i: int| 0 <= i < m.len() ==> (#[trigger] m[i]).len() == cols && vec_wf(m[i])
}

/// Column `j` of a grid.
pub open spec fn col(m: Seq<Seq<Frac>>, j: int) -> Seq<Frac> {
    Seq::new(m.len(), |i: int| m[i][j])
}

/// The Kronecker delta as a fraction.
pub open spec fn delta(i: int, k: int) -> Frac {
    if i == k {
        frac_one()
    } else {
        frac_zero()
    }
}

/// The exact dot product of two equally long fraction vectors.
pub open spec fn spec_dot(x: Seq<Frac>, y: Seq<Frac>) -> Frac
    decreases x.len(),
{
    if x.len() == 0 || y.len() == 0 {
        frac_zero()
    } else {
        frac_add(spec_dot(x.drop_last(), y.drop_last()), frac_mul(x.last(), y.last()))
    }
}

/// A dot product of well-formed vectors has a positive denominator.
pub proof fn lemma_dot_wf(x: Seq<Frac>, y: Seq<Frac>)
    requires
        vec_wf(x),
        vec_wf(y),
    ensures
        frac_wf(spec_dot(x, y)),
    decreases x.len(),
{
    if x.len() == 0 || y.len() == 0 {
    } else {
        lemma_dot_wf(x.drop_last(), y.drop_last());
        lemma_pos_mul(x.last().d, y.last().d);
        lemma_pos_mul(spec_dot(x.drop_last(), y.drop_last()).d, frac_mul(x.last(), y.last()).d);
    }
}

/// The dot product respects entry-wise value equality.
pub proof fn lemma_dot_congr(x: Seq<Frac>, x2: Seq<Frac>, y: Seq<Frac>, y2: Seq<Frac>)
    requires
        x.len() == x2.len(),
        y.len() == y2.len(),
        x.len() == y.len(),
        forall|i: int| 0 <= i < x.len() ==> frac_eq(#[trigger] x[i], x2[i]),
        forall|i: int| 0 <= i < y.len() ==> frac_eq(#[trigger] y[i], y2[i]),
    ensures
        frac_eq(spec_dot(x, y), spec_dot(x2, y2)),
    decreases x.len(),
{
    if x.len() == 0 {
    } else {
        lemma_dot_congr(x.drop_last(), x2.drop_last(), y.drop_last(), y2.drop_last());
        lemma_frac_mul_congr(x.last(), x2.last(), y.last(), y2.last());
        lemma_frac_add_congr(
            spec_dot(x.drop_last(), y.drop_last()),
            spec_dot(x2.drop_last(), y2.drop_last()),
            frac_mul(x.last(), y.last()),
            frac_mul(x2.last(), y2.last()),
        );
    }
}

/// Exact dot product of two rational vectors; `None` on overflow.
pub fn dot(x: &Vec<Rat>, y: &Vec<Rat>) -> (r: Option<Rat>)
    requires
        x@.len() == y@.len(),
        vec_wf(vv(x@)),
        vec_wf(vv(y@)),
    ensures
        r matches Some(v) ==> v.wf() && frac_eq(v@, spec_dot(vv(x@), vv(y@))),
{
    let mut acc = Rat::from_int(0);
    let n = x.len();
    for i in 0..n
        invariant
            n == x@.len(),
            x@.len() == y@.len(),
            vec_wf(vv(x@)),
            vec_wf(vv(y@)),
            acc.wf(),
            frac_eq(acc@, spec_dot(vv(x@).take(i as int), vv(y@).take(i as int))),
    {
        proof {
            assert(vv(x@)[i as int] == x@[i as int]@);
            assert(vv(y@)[i as int] == y@[i as int]@);
        }
        let p = match x[i].checked_mul(&y[i]) {
            Some(p) => p,
            None => {
                return None;
            },
        };
        let acc2 = match acc.checked_add(&p) {
            Some(a) => a,
            None => {
                return None;
            },
        };
        proof {
            let xs = vv(x@).take(i + 1);
            let ys = vv(y@).take(i + 1);
            assert(xs.drop_last() =~= vv(x@).take(i as int));
            assert(ys.drop_last() =~= vv(y@).take(i as int));
            let d0 = spec_dot(vv(x@).take(i as int), vv(y@).take(i as int));
            lemma_frac_add_congr(acc@, d0, p@, frac_mul(x@[i as int]@, y@[i as int]@));
            lemma_pos_mul(acc@.d, p@.d);
            lemma_frac_eq_trans(acc2@, frac_add(acc@, p@), spec_dot(xs, ys));
        }
        acc = acc2;
    }
    proof {
        assert(vv(x@).take(n as int) =~= vv(x@));
        assert(vv(y@).take(n as int) =~= vv(y@));
    }
    Some(acc)
}

/// A dense matrix: a rectangular grid of rationals.
pub struct Matrix {
    elems: Vec<Vec<Rat>>,
    cols: usize,
}

impl View for Matrix {
    type V = Seq<Seq<Frac>>;

    closed spec fn view(&self) -> Seq<Seq<Frac>> {
        Seq::new(self.elems@.len(), |i: int| vv(self.elems@[i]@))
    }
}

impl Matrix {
    /// The column count, also meaningful for a matrix without rows.
    pub closed spec fn spec_cols(self) -> int {
        self.cols as int
    }

    /// Rectangular, with well-formed entries.
    pub open spec fn wf(self) -> bool {
        grid_wf(self@, self.spec_cols())
    }

    pub fn rows(&self) -> (r: usize)
        ensures
            r == self@.len(),
    {
        self.elems.len()
    }

    pub fn cols(&self) -> (r: usize)
        ensures
            r == self.spec_cols(),
    {
        self.cols
    }

    /// The entry at row `i`, column `j`.
    pub fn at(&self, i: usize, j: usize) -> (r: Rat)
        requires
            self.wf(),
            i < self@.len(),
            j < self.spec_cols(),
        ensures
            r@ == self@[i as int][j as int],
    {
        proof {
            assert(self@[i as int] == vv(self.elems@[i as int]@));
        }
        self.elems[i][j]
    }

    /// A copy of row `i`.
    pub fn row(&self, i: usize) -> (r: Vec<Rat>)
        requires
            self.wf(),
            i < self@.len(),
        ensures
            vv(r@) == self@[i as int],
    {
        let out = copy_vec(&self.elems[i]);
        proof {
            assert(vv(out@) =~= self@[i as int]);
        }
        out
    }

    /// A matrix from rows, all of which must have length `cols`.
    pub fn from_rows(rows: Vec<Vec<Rat>>, cols: usize) -> (r: Option<Matrix>)
        ensures
            r matches Some(m) ==> {
                &&& m.spec_cols() == cols
                &&& m@.len() == rows@.len()
                &&& forall|i: int| 0 <= i < rows@.len() ==> #[trigger] m@[i] == vv(rows@[i]@)
                &&& (forall|i: int|
                    0 <= i < rows@.len() ==> vec_wf(vv(#[trigger] rows@[i]@))) ==> m.wf()
            },
            r is Some <==> forall|i: int| 0 <= i < rows@.len() ==> (#[trigger] rows@[i]@).len()
                == cols,
    {
        let n = rows.len();
        for i in 0..n
            invariant
                n == rows@.len(),
                forall|k: int| 0 <= k < i ==> (#[trigger] rows@[k]@).len() == cols,
        {
            if rows[i].len() != cols {
                return None;
            }
        }
        let m = Matrix { elems: rows, cols };
        proof {
            assert(forall|i: int|
                0 <= i < m@.len() ==> #[trigger] m@[i] == vv(m.elems@[i]@));
        }
        Some(m)
    }

    /// A matrix of integer entries, all rows of length `cols`.
    pub fn from_ints(vals: &Vec<Vec<i64>>, cols: usize) -> (r: Option<Matrix>)
        ensures
            r matches Some(m) ==> {
                &&& m.wf()
                &&& m.spec_cols() == cols
                &&& m@.len() == vals@.len()
                &&& forall|i: int, j: int|
                    0 <= i < vals@.len() && 0 <= j < cols ==> #[trigger] m@[i][j] == (Frac {
                        n: vals@[i]@[j] as int,
                        d: 1,
                    })
            },
            r is Some <==> forall|i: int| 0 <= i < vals@.len() ==> (#[trigger] vals@[i]@).len()
                == cols,
    {
        let n = vals.len();
        let mut rows: Vec<Vec<Rat>> = Vec::new();
        for i in 0..n
            invariant
                n == vals@.len(),
                rows@.len() == i,
                forall|k: int| 0 <= k < i ==> (#[trigger] vals@[k]@).len() == cols,
                forall|k: int| 0 <= k < i ==> (#[trigger] rows@[k]@).len() == cols,
                forall|k: int, j: int|
                    0 <= k < i && 0 <= j < cols ==> (#[trigger] rows@[k]@[j])@ == (Frac {
                        n: vals@[k]@[j] as int,
                        d: 1,
                    }),
        {
            if vals[i].len() != cols {
                return None;
            }
            let mut row: Vec<Rat> = Vec::new();
            for j in 0..cols
                invariant
                    n == vals@.len(),
                    i < n,
                    vals@[i as int]@.len() == cols,
                    row@.len() == j,
                    forall|t: int|
                        0 <= t < j ==> (#[trigger] row@[t])@ == (Frac {
                            n: vals@[i as int]@[t] as int,
                            d: 1,
                        }),
            {
                row.push(Rat::from_int(vals[i][j]));
            }
            rows.push(row);
        }
        let m = Matrix { elems: rows, cols };
        proof {
            assert(forall|i: int|
                0 <= i < m@.len() ==> #[trigger] m@[i] == vv(m.elems@[i]@));
            assert forall|i: int| 0 <= i < m@.len() implies (#[trigger] m@[i]).len() == cols
                && vec_wf(m@[i]) by {
                assert(m@[i] == vv(m.elems@[i]@));
            }
        }
        Some(m)
    }
}

/// An element-wise copy of a rational vector.
pub fn copy_vec(v: &Vec<Rat>) -> (r: Vec<Rat>)
    ensures
        r@ == v@,
{
    let mut out: Vec<Rat> = Vec::new();
    let n = v.len();
    for i in 0..n
        invariant
            n == v@.len(),
            out@.len() == i,
            forall|k: int| 0 <= k < i ==> out@[k] == v@[k],
    {
        out.push(v[i]);
    }
    proof {
        assert(out@ =~= v@);
    }
    out
}

/// Column `j` of the matrix as a vector.
pub fn get_col(m: &Matrix, j: usize) -> (r: Vec<Rat>)
    requires
        m.wf(),
        j < m.spec_cols(),
    ensures
        vv(r@) == col(m@, j as int),
        vec_wf(vv(r@)),
{
    let n = m.rows();
    let mut out: Vec<Rat> = Vec::new();
    for i in 0..n
        invariant
            n == m@.len(),
            m.wf(),
            j < m.spec_cols(),
            out@.len() == i,
            forall|k: int| 0 <= k < i ==> (#[trigger] out@[k])@ == m@[k][j as int],
    {
        out.push(m.at(i, j));
    }
    proof {
        assert(vv(out@) =~= col(m@, j as int));
    }
    out
}

/// The matrix-vector product `m * v`; `None` on overflow.
pub fn mat_vec_mul(m: &Matrix, v: &Vec<Rat>) -> (r: Option<Vec<Rat>>)
    requires
        m.wf(),
        v@.len() == m.spec_cols(),
        vec_wf(vv(v@)),
    ensures
        r matches Some(w) ==> {
            &&& w@.len() == m@.len()
            &&& vec_wf(vv(w@))
            &&& forall|i: int|
                0 <= i < m@.len() ==> frac_eq((#[trigger] w@[i])@, spec_dot(m@[i], vv(v@)))
        },
{
    let n = m.rows();
    let mut out: Vec<Rat> = Vec::new();
    for i in 0..n
        invariant
            n == m@.len(),
            m.wf(),
            v@.len() == m.spec_cols(),
            vec_wf(vv(v@)),
            out@.len() == i,
            forall|k: int| 0 <= k < i ==> (#[trigger] out@[k]).wf(),
            forall|k: int|
                0 <= k < i ==> frac_eq((#[trigger] out@[k])@, spec_dot(m@[k], vv(v@))),
    {
        let row = m.row(i);
        let d = match dot(&row, v) {
            Some(d) => d,
            None => {
                return None;
            },
        };
        out.push(d);
    }
    Some(out)
}

/// The vector-matrix product `v * m` (a row vector); `None` on overflow.
pub fn vec_mat_mul(v: &Vec<Rat>, m: &Matrix) -> (r: Option<Vec<Rat>>)
    requires
        m.wf(),
        v@.len() == m@.len(),
        vec_wf(vv(v@)),
    ensures
        r matches Some(w) ==> {
            &&& w@.len() == m.spec_cols()
            &&& vec_wf(vv(w@))
            &&& forall|k: int|
                0 <= k < m.spec_cols() ==> frac_eq(
                    (#[trigger] w@[k])@,
                    spec_dot(vv(v@), col(m@, k)),
                )
        },
{
    let c = m.cols();
    let mut out: Vec<Rat> = Vec::new();
    for k in 0..c
        invariant
            c == m.spec_cols(),
            m.wf(),
            v@.len() == m@.len(),
            vec_wf(vv(v@)),
            out@.len() == k,
            forall|t: int| 0 <= t < k ==> (#[trigger] out@[t]).wf(),
            forall|t: int|
                0 <= t < k ==> frac_eq((#[trigger] out@[t])@, spec_dot(vv(v@), col(m@, t))),
    {
        let cv = get_col(m, k);
        proof {
            assert(cv@.len() == vv(cv@).len() && col(m@, k as int).len() == m@.len());
        }
        let d = match dot(v, &cv) {
            Some(d) => d,
            None => {
                return None;
            },
        };
        out.push(d);
    }
    Some(out)
}

/// The sub-matrix made of the named columns, in their given order.
pub fn select_columns(a: &Matrix, idx: &Vec<usize>) -> (r: Matrix)
    requires
        a.wf(),
        forall|k: int| 0 <= k < idx@.len() ==> (#[trigger] idx@[k]) < a.spec_cols(),
    ensures
        r.wf(),
        r.spec_cols() == idx@.len(),
        r@.len() == a@.len(),
        forall|i: int, k: int|
            0 <= i < a@.len() && 0 <= k < idx@.len() ==> #[trigger] r@[i][k] == a@[i][idx@[k] as int],
{
    let n = a.rows();
    let w = idx.len();
    let mut rows: Vec<Vec<Rat>> = Vec::new();
    for i in 0..n
        invariant
            n == a@.len(),
            w == idx@.len(),
            a.wf(),
            forall|k: int| 0 <= k < idx@.len() ==> (#[trigger] idx@[k]) < a.spec_cols(),
            rows@.len() == i,
            forall|t: int| 0 <= t < i ==> (#[trigger] rows@[t]@).len() == w,
            forall|t: int, k: int|
                0 <= t < i && 0 <= k < w ==> (#[trigger] rows@[t]@[k])@ == a@[t][idx@[k] as int],
    {
        let mut row: Vec<Rat> = Vec::new();
        for k in 0..w
            invariant
                n == a@.len(),
                w == idx@.len(),
                i < n,
                a.wf(),
                forall|t: int| 0 <= t < idx@.len() ==> (#[trigger] idx@[t]) < a.spec_cols(),
                row@.len() == k,
                forall|t: int|
                    0 <= t < k ==> (#[trigger] row@[t])@ == a@[i as int][idx@[t] as int],
        {
            row.push(a.at(i, idx[k]));
        }
        rows.push(row);
    }
    let r = Matrix { elems: rows, cols: w };
    proof {
        assert(forall|i: int|
            0 <= i < r@.len() ==> #[trigger] r@[i] == vv(r.elems@[i]@));
        assert forall|i: int| 0 <= i < r@.len() implies (#[trigger] r@[i]).len() == w && vec_wf(
            r@[i],
        ) by {
            assert(r@[i] == vv(r.elems@[i]@));
        }
    }
    r
}

/// The entries of `c` at the named positions, in their given order.
pub fn select_entries(c: &Vec<Rat>, idx: &Vec<usize>) -> (r: Vec<Rat>)
    requires
        forall|k: int| 0 <= k < idx@.len() ==> (#[trigger] idx@[k]) < c@.len(),
    ensures
        r@.len() == idx@.len(),
        forall|k: int| 0 <= k < idx@.len() ==> #[trigger] r@[k] == c@[idx@[k] as int],
{
    let w = idx.len();
    let mut out: Vec<Rat> = Vec::new();
    for k in 0..w
        invariant
            w == idx@.len(),
            forall|t: int| 0 <= t < idx@.len() ==> (#[trigger] idx@[t]) < c@.len(),
            out@.len() == k,
            forall|t: int| 0 <= t < k ==> #[trigger] out@[t] == c@[idx@[t] as int],
    {
        out.push(c[idx[k]]);
    }
    out
}

/// `inv` is exactly a left inverse of the columns of `a` named by `basis`.
pub open spec fn is_inverse(inv: Seq<Seq<Frac>>, a: Seq<Seq<Frac>>, basis: Seq<usize>) -> bool {
    forall|i: int, k: int|
        0 <= i < inv.len() && 0 <= k < basis.len() ==> frac_eq(
            #[trigger] spec_dot(inv[i], col(a, basis[k] as int)),
            delta(i, k),
        )
}


/// Some exact left inverse of the columns of `a` named by `basis` exists.
pub open spec fn basis_invertible(a: Seq<Seq<Frac>>, basis: Seq<usize>) -> bool {
    exists|inv: Seq<Seq<Frac>>|
        #[trigger] is_inverse(inv, a, basis) && inv.len() == a.len() && grid_wf(
            inv,
            a.len() as int,
        )
}

/// Decide `is_inverse` by exact computation; `None` on overflow.
pub fn check_inverse(inv: &Matrix, a: &Matrix, basis: &Vec<usize>) -> (r: Option<bool>)
    requires
        inv.wf(),
        a.wf(),
        inv.spec_cols() == a@.len(),
        inv@.len() == basis@.len(),
        forall|k: int| 0 <= k < basis@.len() ==> (#[trigger] basis@[k]) < a.spec_cols(),
    ensures
        r matches Some(b) ==> b == is_inverse(inv@, a@, basis@),
{
    let m = inv.rows();
    for k in 0..m
        invariant
            m == inv@.len(),
            inv.wf(),
            a.wf(),
            inv.spec_cols() == a@.len(),
            inv@.len() == basis@.len(),
            forall|t: int| 0 <= t < basis@.len() ==> (#[trigger] basis@[t]) < a.spec_cols(),
            forall|i: int, t: int|
                0 <= i < m && 0 <= t < k ==> frac_eq(
                    #[trigger] spec_dot(inv@[i], col(a@, basis@[t] as int)),
                    delta(i, t),
                ),
    {
        let cv = get_col(a, basis[k]);
        proof {
            assert(cv@.len() == vv(cv@).len() && col(a@, basis@[k as int] as int).len()
                == a@.len());
        }
        for i in 0..m
            invariant
                m == inv@.len(),
                inv.wf(),
                a.wf(),
                inv.spec_cols() == a@.len(),
                inv@.len() == basis@.len(),
                k < m,
                forall|t: int| 0 <= t < basis@.len() ==> (#[trigger] basis@[t]) < a.spec_cols(),
                vv(cv@) == col(a@, basis@[k as int] as int),
                vec_wf(vv(cv@)),
                cv@.len() == a@.len(),
                forall|i2: int, t: int|
                    0 <= i2 < m && 0 <= t < k ==> frac_eq(
                        #[trigger] spec_dot(inv@[i2], col(a@, basis@[t] as int)),
                        delta(i2, t),
                    ),
                forall|i2: int|
                    0 <= i2 < i ==> frac_eq(
                        #[trigger] spec_dot(inv@[i2], col(a@, basis@[k as int] as int)),
                        delta(i2, k as int),
                    ),
        {
            let row = inv.row(i);
            let d = match dot(&row, &cv) {
                Some(d) => d,
                None => {
                    return None;
                },
            };
            let expected = if i == k {
                Rat::from_int(1)
            } else {
                Rat::from_int(0)
            };
            let good = d.eq_value(&expected);
            proof {
                lemma_dot_wf(inv@[i as int], col(a@, basis@[k as int] as int));
                lemma_frac_cmp_congr(
                    d@,
                    spec_dot(inv@[i as int], col(a@, basis@[k as int] as int)),
                    expected@,
                    delta(i as int, k as int),
                );
            }
            if !good {
                return Some(false);
            }
        }
    }
    Some(true)
}

} // verus!

//! Statically-dimensioned matrices and vectors over exact rational scalars.
//!
//! `SMatrix<R, C>` is an `R x C` matrix; `SVector<R>` is a column vector of
//! `R` entries. Dimensions are const generics, so shape mismatches are ruled
//! out at the type level. The view of a matrix is a sequence of rows, each a
//! sequence of [`Qv`] values; contracts are stated over these views.

use crate::rat::{
    lemma_q_add_assoc, lemma_q_add_congr, lemma_q_add_wf, lemma_q_add_zero, lemma_q_eq_trans,
    lemma_q_norm, q_add, q_eq, q_mul, q_neg, q_norm, q_ok, q_sub, q_wf, q_zero, Qv, Rat,
};
use vstd::prelude::*;

verus! {

/// Failure of an exact-arithmetic operation.
#[derive(Clone, Copy, Debug, PartialEq, Eq, Structural)]
pub enum MatError {
    /// The normal-equations matrix could not be inverted.
    SingularMatrix,
    /// A reduced intermediate value fell outside the 64-bit representation.
    Overflow,
}

// ---------------------------------------------------------------------------
// Spec-level sums and dot products.
//
// For each folded computation there are two descriptions: the ideal
// (unnormalized) mathematical sum (`q_dot`, `q_sumsq`, `q_msumsq`), and the
// mirror of the executable fold, which reduces after every step (`dot_acc`,
// `racc`, `macc`) together with the predicate saying that every reduced
// intermediate fits 64 bits (`dot_ok`, `rok`, `mok`). The lemmas below show
// that mirror and ideal agree modulo `q_eq`.
// ---------------------------------------------------------------------------

/// Every entry of the sequence is well-formed.
pub open spec fn seq_wf(s: Seq<Qv>) -> bool {
    forall|i: int| 0 <= i < s.len() ==> q_wf(#[trigger] s[i])
}

/// Column `j` of a row-major matrix view.
pub open spec fn mat_col(m: Seq<Seq<Qv>>, j: int) -> Seq<Qv> {
    Seq::new(m.len(), |i: int| m[i][j])
}

/// The transpose of a row-major matrix view of the given dimensions.
pub open spec fn mat_transpose(m: Seq<Seq<Qv>>, rows: int, cols: int) -> Seq<Seq<Qv>> {
    Seq::new(cols as nat, |j: int| Seq::new(rows as nat, |i: int| m[i][j]))
}

/// Ideal dot product of the first `k` entries.
pub open spec fn q_dot(r: Seq<Qv>, x: Seq<Qv>, k: int) -> Qv
    decreases k,
{
    if k <= 0 {
        q_zero()
    } else {
        q_add(q_dot(r, x, k - 1), q_mul(r[k - 1], x[k - 1]))
    }
}

/// The dot product as the executable loop computes it: reduced after every
/// multiplication and every addition.
pub open spec fn dot_acc(r: Seq<Qv>, x: Seq<Qv>, k: int) -> Qv
    decreases k,
{
    if k <= 0 {
        q_zero()
    } else {
        q_norm(q_add(dot_acc(r, x, k - 1), q_norm(q_mul(r[k - 1], x[k - 1]))))
    }
}

/// Every reduced intermediate of the first `k` dot-product steps fits 64 bits.
pub open spec fn dot_ok(r: Seq<Qv>, x: Seq<Qv>, k: int) -> bool
    decreases k,
{
    if k <= 0 {
        true
    } else {
        &&& dot_ok(r, x, k - 1)
        &&& q_ok(q_mul(r[k - 1], x[k - 1]))
        &&& q_ok(q_add(dot_acc(r, x, k - 1), q_norm(q_mul(r[k - 1], x[k - 1]))))
    }
}

/// Ideal sum of squares of the first `k` entries.
pub open spec fn q_sumsq(s: Seq<Qv>, k: int) -> Qv
    decreases k,
{
    if k <= 0 {
        q_zero()
    } else {
        q_add(q_sumsq(s, k - 1), q_mul(s[k - 1], s[k - 1]))
    }
}

/// Ideal sum of squares of the first `i` rows, each of width `c`.
pub open spec fn q_msumsq(m: Seq<Seq<Qv>>, i: int, c: int) -> Qv
    decreases i,
{
    if i <= 0 {
        q_zero()
    } else {
        q_add(q_msumsq(m, i - 1, c), q_sumsq(m[i - 1], c))
    }
}

/// Running sum of squares over one row, as the executable loop computes it,
/// starting from `init`.
pub open spec fn racc(s: Seq<Qv>, k: int, init: Qv) -> Qv
    decreases k,
{
    if k <= 0 {
        init
    } else {
        q_norm(q_add(racc(s, k - 1, init), q_norm(q_mul(s[k - 1], s[k - 1]))))
    }
}

pub open spec fn rok(s: Seq<Qv>, k: int, init: Qv) -> bool
    decreases k,
{
    if k <= 0 {
        true
    } else {
        &&& rok(s, k - 1, init)
        &&& q_ok(q_mul(s[k - 1], s[k - 1]))
        &&& q_ok(q_add(racc(s, k - 1, init), q_norm(q_mul(s[k - 1], s[k - 1]))))
    }
}

/// Running sum of squares over the first `i` rows of width `c`.
pub open spec fn macc(m: Seq<Seq<Qv>>, i: int, c: int) -> Qv
    decreases i,
{
    if i <= 0 {
        q_zero()
    } else {
        racc(m[i - 1], c, macc(m, i - 1, c))
    }
}

pub open spec fn mok(m: Seq<Seq<Qv>>, i: int, c: int) -> bool
    decreases i,
{
    if i <= 0 {
        true
    } else {
        mok(m, i - 1, c) && rok(m[i - 1], c, macc(m, i - 1, c))
    }
}

/// The reduced fold agrees with the ideal dot product.
pub proof fn lemma_dot_acc(r: Seq<Qv>, x: Seq<Qv>, k: int)
    requires
        forall|j: int| 0 <= j < k ==> q_wf(#[trigger] r[j]),
        forall|j: int| 0 <= j < k ==> q_wf(#[trigger] x[j]),
    ensures
        q_wf(dot_acc(r, x, k)),
        q_wf(q_dot(r, x, k)),
        q_eq(dot_acc(r, x, k), q_dot(r, x, k)),
    decreases k,
{
    if k > 0 {
        lemma_dot_acc(r, x, k - 1);
        let p = q_mul(r[k - 1], x[k - 1]);
        lemma_q_add_wf(r[k - 1], x[k - 1]);
        lemma_q_norm(p);
        let s = q_add(dot_acc(r, x, k - 1), q_norm(p));
        lemma_q_add_wf(dot_acc(r, x, k - 1), q_norm(p));
        lemma_q_norm(s);
        lemma_q_add_congr(dot_acc(r, x, k - 1), q_dot(r, x, k - 1), q_norm(p), p);
        lemma_q_eq_trans(q_norm(s), s, q_add(q_dot(r, x, k - 1), p));
        lemma_q_add_wf(q_dot(r, x, k - 1), p);
    }
}

/// A prefix of a representable fold is representable.
pub proof fn lemma_dot_ok_mono(r: Seq<Qv>, x: Seq<Qv>, j: int, k: int)
    requires
        0 <= j <= k,
        dot_ok(r, x, k),
    ensures
        dot_ok(r, x, j),
    decreases k,
{
    if j < k {
        lemma_dot_ok_mono(r, x, j, k - 1);
    }
}

/// The reduced running square sum agrees with `init` plus the ideal one.
pub proof fn lemma_racc(s: Seq<Qv>, k: int, init: Qv)
    requires
        q_wf(init),
        forall|j: int| 0 <= j < k ==> q_wf(#[trigger] s[j]),
    ensures
        q_wf(racc(s, k, init)),
        q_wf(q_sumsq(s, k)),
        q_eq(racc(s, k, init), q_add(init, q_sumsq(s, k))),
    decreases k,
{
    if k <= 0 {
        lemma_q_add_zero(init);
        lemma_q_add_wf(init, q_zero());
    } else {
        lemma_racc(s, k - 1, init);
        let sq = q_mul(s[k - 1], s[k - 1]);
        lemma_q_add_wf(s[k - 1], s[k - 1]);
        lemma_q_norm(sq);
        let t = q_add(racc(s, k - 1, init), q_norm(sq));
        lemma_q_add_wf(racc(s, k - 1, init), q_norm(sq));
        lemma_q_norm(t);
        lemma_q_add_congr(racc(s, k - 1, init), q_add(init, q_sumsq(s, k - 1)), q_norm(sq), sq);
        lemma_q_add_wf(init, q_sumsq(s, k - 1));
        lemma_q_eq_trans(q_norm(t), t, q_add(q_add(init, q_sumsq(s, k - 1)), sq));
        lemma_q_add_assoc(init, q_sumsq(s, k - 1), sq);
        lemma_q_add_wf(q_add(init, q_sumsq(s, k - 1)), sq);
        lemma_q_eq_trans(
            q_norm(t),
            q_add(q_add(init, q_sumsq(s, k - 1)), sq),
            q_add(init, q_add(q_sumsq(s, k - 1), sq)),
        );
        lemma_q_add_wf(q_sumsq(s, k - 1), sq);
    }
}

pub proof fn lemma_rok_mono(s: Seq<Qv>, j: int, k: int, init: Qv)
    requires
        0 <= j <= k,
        rok(s, k, init),
    ensures
        rok(s, j, init),
    decreases k,
{
    if j < k {
        lemma_rok_mono(s, j, k - 1, init);
    }
}

/// The reduced running square sum over rows agrees with the ideal nested sum.
pub proof fn lemma_macc(m: Seq<Seq<Qv>>, i: int, c: int)
    requires
        forall|a: int, b: int| 0 <= a < i && 0 <= b < c ==> q_wf(#[trigger] m[a][b]),
    ensures
        q_wf(macc(m, i, c)),
        q_wf(q_msumsq(m, i, c)),
        q_eq(macc(m, i, c), q_msumsq(m, i, c)),
    decreases i,
{
    if i > 0 {
        lemma_macc(m, i - 1, c);
        assert(forall|j: int| 0 <= j < c ==> q_wf(#[trigger] m[i - 1][j]));
        lemma_racc(m[i - 1], c, macc(m, i - 1, c));
        // racc ~ macc(i-1) + sumsq ~ msumsq(i-1) + sumsq
        lemma_q_add_congr(
            macc(m, i - 1, c),
            q_msumsq(m, i - 1, c),
            q_sumsq(m[i - 1], c),
            q_sumsq(m[i - 1], c),
        );
        lemma_q_add_wf(macc(m, i - 1, c), q_sumsq(m[i - 1], c));
        lemma_q_eq_trans(
            racc(m[i - 1], c, macc(m, i - 1, c)),
            q_add(macc(m, i - 1, c), q_sumsq(m[i - 1], c)),
            q_add(q_msumsq(m, i - 1, c), q_sumsq(m[i - 1], c)),
        );
        lemma_q_add_wf(q_msumsq(m, i - 1, c), q_sumsq(m[i - 1], c));
    }
}

pub proof fn lemma_mok_mono(m: Seq<Seq<Qv>>, j: int, i: int, c: int)
    requires
        0 <= j <= i,
        mok(m, i, c),
    ensures
        mok(m, j, c),
    decreases i,
{
    if j < i {
        lemma_mok_mono(m, j, i - 1, c);
    }
}

/// Every entry of a well-formed matrix is well-formed at the view level.
pub proof fn lemma_mat_view_wf<const R: usize, const C: usize>(m: &SMatrix<R, C>)
    requires
        m.wf(),
    ensures
        forall|i: int, j: int| 0 <= i < R && 0 <= j < C ==> q_wf(#[trigger] m@[i][j]),
{
    assert forall|i: int, j: int| 0 <= i < R && 0 <= j < C implies q_wf(#[trigger] m@[i][j]) by {
        assert(m.idx(i, j).wf());
    }
}

/// Every entry of a well-formed vector is well-formed at the view level.
pub proof fn lemma_vec_view_wf<const R: usize>(v: &SVector<R>)
    requires
        v.wf(),
    ensures
        forall|i: int| 0 <= i < R ==> q_wf(#[trigger] v@[i]),
{
    assert forall|i: int| 0 <= i < R implies q_wf(#[trigger] v@[i]) by {
        assert(v.vidx(i).wf());
    }
}

/// Matrix with static size
pub struct SMatrix<const R: usize, const C: usize> {
    pub rows: Vec<Vec<Rat>>,
}

/// Vector with static size
pub struct SVector<const R: usize> {
    pub elems: Vec<Rat>,
}

/// Column of a matrix: a read-only view borrowing its source.
pub struct ColumnRef<'a, const R: usize, const C: usize> {
    pub column: usize,
    pub matrix: &'a SMatrix<R, C>,
}

impl<const R: usize, const C: usize> View for SMatrix<R, C> {
    type V = Seq<Seq<Qv>>;

    open spec fn view(&self) -> Seq<Seq<Qv>> {
        Seq::new(R as nat, |i: int| Seq::new(C as nat, |j: int| self.rows[i][j]@))
    }
}

impl<const R: usize> View for SVector<R> {
    type V = Seq<Qv>;

    open spec fn view(&self) -> Seq<Qv> {
        Seq::new(R as nat, |i: int| self.elems[i]@)
    }
}

impl<const R: usize, const C: usize> SMatrix<R, C> {
    /// Shape is exact and every entry is a well-formed reduced rational.
    pub open spec fn wf(&self) -> bool {
        &&& self.rows.len() == R
        &&& forall|i: int| 0 <= i < R ==> (#[trigger] self.rows[i]).len() == C
        &&& forall|i: int, j: int|
            0 <= i < R && 0 <= j < C ==> (#[trigger] self.rows[i][j]).wf()
    }

    /// The entry at row `i`, column `j`, as stored.
    pub open spec fn idx(&self, i: int, j: int) -> Rat {
        self.rows[i][j]
    }

    pub fn zeros() -> (m: Self)
        ensures
            m.wf(),
            forall|i: int, j: int| 0 <= i < R && 0 <= j < C ==> m@[i][j] == q_zero(),
    {
        let mut rows: Vec<Vec<Rat>> = Vec::new();
        let mut i: usize = 0;
        while i < R
            invariant
                i <= R,
                rows.len() == i,
                forall|a: int| 0 <= a < i ==> (#[trigger] rows[a]).len() == C,
                forall|a: int, b: int|
                    0 <= a < i && 0 <= b < C ==> (#[trigger] rows[a][b]).wf()
                        && rows[a][b]@ == q_zero(),
            decreases R - i,
        {
            let mut row: Vec<Rat> = Vec::new();
            let mut j: usize = 0;
            while j < C
                invariant
                    j <= C,
                    row.len() == j,
                    forall|b: int| 0 <= b < j ==> (#[trigger] row[b]).wf() && row[b]@ == q_zero(),
                decreases C - j,
            {
                row.push(Rat::zero());
                j = j + 1;
            }
            rows.push(row);
            i = i + 1;
        }
        SMatrix { rows }
    }

    /// Builds the matrix whose entry `(r, c)` is `f(r, c)`; `f` is called once
    /// for every position.
    pub fn from_fn<F: Fn(usize, usize) -> Rat>(f: F) -> (m: Self)
        requires
            forall|r: usize, c: usize| r < R && c < C ==> call_requires(f, (r, c)),
            forall|r: usize, c: usize, v: Rat| call_ensures(f, (r, c), v) ==> v.wf(),
        ensures
            m.wf(),
            forall|i: int, j: int|
                0 <= i < R && 0 <= j < C ==> call_ensures(
                    f,
                    (i as usize, j as usize),
                    #[trigger] m.idx(i, j),
                ),
            forall|i: int, j: int| 0 <= i < R && 0 <= j < C ==> m@[i][j] == m.idx(i, j)@,
    {
        let mut rows: Vec<Vec<Rat>> = Vec::new();
        let mut i: usize = 0;
        while i < R
            invariant
                i <= R,
                rows.len() == i,
                forall|r: usize, c: usize| r < R && c < C ==> call_requires(f, (r, c)),
                forall|r: usize, c: usize, v: Rat| call_ensures(f, (r, c), v) ==> v.wf(),
                forall|a: int| 0 <= a < i ==> (#[trigger] rows[a]).len() == C,
                forall|a: int, b: int|
                    0 <= a < i && 0 <= b < C ==> call_ensures(
                        f,
                        (a as usize, b as usize),
                        #[trigger] rows[a][b],
                    ),
            decreases R - i,
        {
            let mut row: Vec<Rat> = Vec::new();
            let mut j: usize = 0;
            while j < C
                invariant
                    j <= C,
                    i < R,
                    row.len() == j,
                    forall|r: usize, c: usize| r < R && c < C ==> call_requires(f, (r, c)),
                    forall|b: int|
                        0 <= b < j ==> call_ensures(
                            f,
                            (i, b as usize),
                            #[trigger] row[b],
                        ),
                decreases C - j,
            {
                row.push(f(i, j));
                j = j + 1;
            }
            rows.push(row);
            i = i + 1;
        }
        SMatrix { rows }
    }

    pub fn get(&self, r: usize, c: usize) -> (v: Rat)
        requires
            self.wf(),
            r < R,
            c < C,
        ensures
            v == self.idx(r as int, c as int),
            v.wf(),
            v@ == self@[r as int][c as int],
    {
        self.rows[r][c]
    }

    pub fn set(&mut self, r: usize, c: usize, v: Rat)
        requires
            old(self).wf(),
            r < R,
            c < C,
            v.wf(),
        ensures
            final(self).wf(),
            final(self)@ == old(self)@.update(
                r as int,
                old(self)@[r as int].update(c as int, v@),
            ),
    {
        self.rows[r][c] = v;
        proof {
            assert(final(self)@ =~~= old(self)@.update(
                r as int,
                old(self)@[r as int].update(c as int, v@),
            ));
        }
    }

    /// The row `r`, as stored.
    pub fn row(&self, r: usize) -> (row: &Vec<Rat>)
        requires
            self.wf(),
            r < R,
        ensures
            row.len() == C,
            forall|j: int| 0 <= j < C ==> row[j].wf() && (#[trigger] row[j])@ == self@[r as int][j],
    {
        &self.rows[r]
    }

    /// All rows, in order: the backing storage of the matrix.
    pub fn iter(&self) -> (rows: &Vec<Vec<Rat>>)
        requires
            self.wf(),
        ensures
            rows.len() == R,
            forall|i: int| 0 <= i < R ==> (#[trigger] rows[i]).len() == C,
            forall|i: int, j: int|
                0 <= i < R && 0 <= j < C ==> (#[trigger] rows[i][j])@ == self@[i][j],
    {
        &self.rows
    }

    /// A read-only view of column `c`, borrowing this matrix.
    pub fn column(&self, c: usize) -> (col: ColumnRef<'_, R, C>)
        requires
            self.wf(),
            c < C,
        ensures
            col.column == c,
            col.matrix == self,
    {
        ColumnRef { column: c, matrix: self }
    }

    pub fn transpose(&self) -> (t: SMatrix<C, R>)
        requires
            self.wf(),
        ensures
            t.wf(),
            t@ == mat_transpose(self@, R as int, C as int),
            forall|i: int, j: int| 0 <= i < R && 0 <= j < C ==> t@[j][i] == self@[i][j],
    {
        let mut rows: Vec<Vec<Rat>> = Vec::new();
        let mut j: usize = 0;
        while j < C
            invariant
                j <= C,
                self.wf(),
                rows.len() == j,
                forall|a: int| 0 <= a < j ==> (#[trigger] rows[a]).len() == R,
                forall|a: int, b: int|
                    0 <= a < j && 0 <= b < R ==> (#[trigger] rows[a][b]).wf()
                        && rows[a][b]@ == self@[b][a],
            decreases C - j,
        {
            let mut row: Vec<Rat> = Vec::new();
            let mut i: usize = 0;
            while i < R
                invariant
                    i <= R,
                    j < C,
                    self.wf(),
                    row.len() == i,
                    forall|b: int|
                        0 <= b < i ==> (#[trigger] row[b]).wf() && row[b]@ == self@[b][j as int],
                decreases R - i,
            {
                row.push(self.rows[i][j]);
                i = i + 1;
            }
            rows.push(row);
            j = j + 1;
        }
        let t = SMatrix::<C, R> { rows };
        proof {
            assert(t@ =~~= mat_transpose(self@, R as int, C as int));
        }
        t
    }

    /// Element-wise negation; exact and never failing.
    pub fn neg(&self) -> (m: Self)
        requires
            self.wf(),
        ensures
            m.wf(),
            forall|i: int, j: int|
                0 <= i < R && 0 <= j < C ==> m@[i][j] == q_neg(self@[i][j]),
    {
        let mut rows: Vec<Vec<Rat>> = Vec::new();
        let mut i: usize = 0;
        while i < R
            invariant
                i <= R,
                self.wf(),
                rows.len() == i,
                forall|a: int| 0 <= a < i ==> (#[trigger] rows[a]).len() == C,
                forall|a: int, b: int|
                    0 <= a < i && 0 <= b < C ==> (#[trigger] rows[a][b]).wf()
                        && rows[a][b]@ == q_neg(self@[a][b]),
            decreases R - i,
        {
            let mut row: Vec<Rat> = Vec::new();
            let mut j: usize = 0;
            while j < C
                invariant
                    j <= C,
                    i < R,
                    self.wf(),
                    row.len() == j,
                    forall|b: int|
                        0 <= b < j ==> (#[trigger] row[b]).wf() && row[b]@ == q_neg(
                            self@[i as int][b],
                        ),
                decreases C - j,
            {
                row.push(self.rows[i][j].neg());
                j = j + 1;
            }
            rows.push(row);
            i = i + 1;
        }
        SMatrix { rows }
    }
}

impl<const R: usize, const C: usize> SMatrix<R, C> {
    /// Element-wise sum.
    pub fn add(&self, other: &SMatrix<R, C>) -> (r: Result<SMatrix<R, C>, MatError>)
        requires
            self.wf(),
            other.wf(),
        ensures
            r matches Ok(m) ==> m.wf(),
            r matches Ok(m) ==> forall|i: int, j: int|
                0 <= i < R && 0 <= j < C ==> #[trigger] m@[i][j] == q_norm(
                    q_add(self@[i][j], other@[i][j]),
                ),
            r matches Ok(m) ==> forall|i: int, j: int|
                0 <= i < R && 0 <= j < C ==> q_eq(
                    #[trigger] m@[i][j],
                    q_add(self@[i][j], other@[i][j]),
                ),
            r matches Err(e) ==> e == MatError::Overflow,
            r is Ok <==> (forall|i: int, j: int|
                0 <= i < R && 0 <= j < C ==> q_ok(#[trigger] q_add(self@[i][j], other@[i][j]))),
    {
        let mut rows: Vec<Vec<Rat>> = Vec::new();
        let mut i: usize = 0;
        while i < R
            invariant
                i <= R,
                self.wf(),
                other.wf(),
                rows.len() == i,
                forall|a: int| 0 <= a < i ==> (#[trigger] rows[a]).len() == C,
                forall|a: int, b: int|
                    0 <= a < i && 0 <= b < C ==> (#[trigger] rows[a][b]).wf() && rows[a][b]@
                        == q_norm(q_add(self@[a][b], other@[a][b])) && q_eq(
                        rows[a][b]@,
                        q_add(self@[a][b], other@[a][b]),
                    ),
                forall|a: int, b: int|
                    0 <= a < i && 0 <= b < C ==> q_ok(#[trigger] q_add(self@[a][b], other@[a][b])),
            decreases R - i,
        {
            let mut row: Vec<Rat> = Vec::new();
            let mut j: usize = 0;
            while j < C
                invariant
                    j <= C,
                    i < R,
                    self.wf(),
                    other.wf(),
                    row.len() == j,
                    forall|b: int|
                        0 <= b < j ==> (#[trigger] row[b]).wf() && row[b]@ == q_norm(
                            q_add(self@[i as int][b], other@[i as int][b]),
                        ) && q_eq(row[b]@, q_add(self@[i as int][b], other@[i as int][b])),
                    forall|b: int|
                        0 <= b < j ==> q_ok(#[trigger] q_add(self@[i as int][b], other@[i as int][b])),
                decreases C - j,
            {
                let s = match self.rows[i][j].checked_add(&other.rows[i][j]) {
                    Some(s) => s,
                    None => {
                        proof {
                            assert(!q_ok(q_add(self@[i as int][j as int], other@[i as int][j as int])));
                        }
                        return Err(MatError::Overflow);
                    },
                };
                row.push(s);
                j = j + 1;
            }
            rows.push(row);
            i = i + 1;
        }
        Ok(SMatrix { rows })
    }

    /// Element-wise difference.
    pub fn sub(&self, other: &SMatrix<R, C>) -> (r: Result<SMatrix<R, C>, MatError>)
        requires
            self.wf(),
            other.wf(),
        ensures
            r matches Ok(m) ==> m.wf(),
            r matches Ok(m) ==> forall|i: int, j: int|
                0 <= i < R && 0 <= j < C ==> #[trigger] m@[i][j] == q_norm(
                    q_sub(self@[i][j], other@[i][j]),
                ),
            r matches Ok(m) ==> forall|i: int, j: int|
                0 <= i < R && 0 <= j < C ==> q_eq(
                    #[trigger] m@[i][j],
                    q_sub(self@[i][j], other@[i][j]),
                ),
            r matches Err(e) ==> e == MatError::Overflow,
            r is Ok <==> (forall|i: int, j: int|
                0 <= i < R && 0 <= j < C ==> q_ok(#[trigger] q_sub(self@[i][j], other@[i][j]))),
    {
        let mut rows: Vec<Vec<Rat>> = Vec::new();
        let mut i: usize = 0;
        while i < R
            invariant
                i <= R,
                self.wf(),
                other.wf(),
                rows.len() == i,
                forall|a: int| 0 <= a < i ==> (#[trigger] rows[a]).len() == C,
                forall|a: int, b: int|
                    0 <= a < i && 0 <= b < C ==> (#[trigger] rows[a][b]).wf() && rows[a][b]@
                        == q_norm(q_sub(self@[a][b], other@[a][b])) && q_eq(
                        rows[a][b]@,
                        q_sub(self@[a][b], other@[a][b]),
                    ),
                forall|a: int, b: int|
                    0 <= a < i && 0 <= b < C ==> q_ok(#[trigger] q_sub(self@[a][b], other@[a][b])),
            decreases R - i,
        {
            let mut row: Vec<Rat> = Vec::new();
            let mut j: usize = 0;
            while j < C
                invariant
                    j <= C,
                    i < R,
                    self.wf(),
                    other.wf(),
                    row.len() == j,
                    forall|b: int|
                        0 <= b < j ==> (#[trigger] row[b]).wf() && row[b]@ == q_norm(
                            q_sub(self@[i as int][b], other@[i as int][b]),
                        ) && q_eq(row[b]@, q_sub(self@[i as int][b], other@[i as int][b])),
                    forall|b: int|
                        0 <= b < j ==> q_ok(#[trigger] q_sub(self@[i as int][b], other@[i as int][b])),
                decreases C - j,
            {
                let s = match self.rows[i][j].checked_sub(&other.rows[i][j]) {
                    Some(s) => s,
                    None => {
                        proof {
                            assert(!q_ok(q_sub(self@[i as int][j as int], other@[i as int][j as int])));
                        }
                        return Err(MatError::Overflow);
                    },
                };
                row.push(s);
                j = j + 1;
            }
            rows.push(row);
            i = i + 1;
        }
        Ok(SMatrix { rows })
    }

    /// Multiplication of every entry by the scalar `k`.
    pub fn scale(&self, k: &Rat) -> (r: Result<SMatrix<R, C>, MatError>)
        requires
            self.wf(),
            k.wf(),
        ensures
            r matches Ok(m) ==> m.wf(),
            r matches Ok(m) ==> forall|i: int, j: int|
                0 <= i < R && 0 <= j < C ==> #[trigger] m@[i][j] == q_norm(q_mul(k@, self@[i][j])),
            r matches Ok(m) ==> forall|i: int, j: int|
                0 <= i < R && 0 <= j < C ==> q_eq(#[trigger] m@[i][j], q_mul(k@, self@[i][j])),
            r matches Err(e) ==> e == MatError::Overflow,
            r is Ok <==> (forall|i: int, j: int|
                0 <= i < R && 0 <= j < C ==> q_ok(#[trigger] q_mul(k@, self@[i][j]))),
    {
        let mut rows: Vec<Vec<Rat>> = Vec::new();
        let mut i: usize = 0;
        while i < R
            invariant
                i <= R,
                self.wf(),
                k.wf(),
                rows.len() == i,
                forall|a: int| 0 <= a < i ==> (#[trigger] rows[a]).len() == C,
                forall|a: int, b: int|
                    0 <= a < i && 0 <= b < C ==> (#[trigger] rows[a][b]).wf() && rows[a][b]@
                        == q_norm(q_mul(k@, self@[a][b])) && q_eq(
                        rows[a][b]@,
                        q_mul(k@, self@[a][b]),
                    ),
                forall|a: int, b: int|
                    0 <= a < i && 0 <= b < C ==> q_ok(#[trigger] q_mul(k@, self@[a][b])),
            decreases R - i,
        {
            let mut row: Vec<Rat> = Vec::new();
            let mut j: usize = 0;
            while j < C
                invariant
                    j <= C,
                    i < R,
                    self.wf(),
                    k.wf(),
                    row.len() == j,
                    forall|b: int|
                        0 <= b < j ==> (#[trigger] row[b]).wf() && row[b]@ == q_norm(
                            q_mul(k@, self@[i as int][b]),
                        ) && q_eq(row[b]@, q_mul(k@, self@[i as int][b])),
                    forall|b: int| 0 <= b < j ==> q_ok(#[trigger] q_mul(k@, self@[i as int][b])),
                decreases C - j,
            {
                let s = match k.checked_mul(&self.rows[i][j]) {
                    Some(s) => s,
                    None => {
                        proof {
                            assert(!q_ok(q_mul(k@, self@[i as int][j as int])));
                        }
                        return Err(MatError::Overflow);
                    },
                };
                row.push(s);
                j = j + 1;
            }
            rows.push(row);
            i = i + 1;
        }
        Ok(SMatrix { rows })
    }

    /// Matrix-vector product: entry `i` of the result is the dot product of
    /// row `i` with `x`.
    pub fn mul(&self, x: &SVector<C>) -> (r: Result<SVector<R>, MatError>)
        requires
            self.wf(),
            x.wf(),
        ensures
            r matches Ok(y) ==> y.wf(),
            r matches Ok(y) ==> forall|i: int|
                0 <= i < R ==> #[trigger] y@[i] == dot_acc(self@[i], x@, C as int),
            r matches Ok(y) ==> forall|i: int|
                0 <= i < R ==> q_eq(#[trigger] y@[i], q_dot(self@[i], x@, C as int)),
            r matches Err(e) ==> e == MatError::Overflow,
            r is Ok <==> (forall|i: int|
                0 <= i < R ==> #[trigger] dot_ok(self@[i], x@, C as int)),
    {
        let mut elems: Vec<Rat> = Vec::new();
        let mut i: usize = 0;
        while i < R
            invariant
                i <= R,
                self.wf(),
                x.wf(),
                elems.len() == i,
                forall|a: int|
                    0 <= a < i ==> (#[trigger] elems[a]).wf() && elems[a]@ == dot_acc(
                        self@[a],
                        x@,
                        C as int,
                    ),
                forall|a: int| 0 <= a < i ==> #[trigger] dot_ok(self@[a], x@, C as int),
            decreases R - i,
        {
            let mut acc = Rat::zero();
            let mut k: usize = 0;
            while k < C
                invariant
                    k <= C,
                    i < R,
                    self.wf(),
                    x.wf(),
                    acc.wf(),
                    acc@ == dot_acc(self@[i as int], x@, k as int),
                    dot_ok(self@[i as int], x@, k as int),
                decreases C - k,
            {
                let p = match self.rows[i][k].checked_mul(&x.elems[k]) {
                    Some(p) => p,
                    None => {
                        proof {
                            assert(!q_ok(q_mul(self@[i as int][k as int], x@[k as int])));
                            if dot_ok(self@[i as int], x@, C as int) {
                                lemma_dot_ok_mono(self@[i as int], x@, k as int + 1, C as int);
                            }
                        }
                        return Err(MatError::Overflow);
                    },
                };
                acc = match acc.checked_add(&p) {
                    Some(s) => s,
                    None => {
                        proof {
                            if dot_ok(self@[i as int], x@, C as int) {
                                lemma_dot_ok_mono(self@[i as int], x@, k as int + 1, C as int);
                            }
                        }
                        return Err(MatError::Overflow);
                    },
                };
                k = k + 1;
            }
            elems.push(acc);
            i = i + 1;
        }
        let y = SVector { elems };
        proof {
            assert forall|a: int| 0 <= a < R implies q_eq(
                #[trigger] y@[a],
                q_dot(self@[a], x@, C as int),
            ) by {
                lemma_dot_acc(self@[a], x@, C as int);
            }
        }
        Ok(y)
    }

    /// Matrix-matrix product: entry `(i, j)` of the result is the dot product
    /// of row `i` of `self` with column `j` of `other`.
    pub fn matmul<const K: usize>(&self, other: &SMatrix<C, K>) -> (r: Result<
        SMatrix<R, K>,
        MatError,
    >)
        requires
            self.wf(),
            other.wf(),
        ensures
            r matches Ok(m) ==> m.wf(),
            r matches Ok(m) ==> forall|i: int, j: int|
                0 <= i < R && 0 <= j < K ==> #[trigger] m@[i][j] == dot_acc(
                    self@[i],
                    mat_col(other@, j),
                    C as int,
                ),
            r matches Ok(m) ==> forall|i: int, j: int|
                0 <= i < R && 0 <= j < K ==> q_eq(
                    #[trigger] m@[i][j],
                    q_dot(self@[i], mat_col(other@, j), C as int),
                ),
            r matches Err(e) ==> e == MatError::Overflow,
            r is Ok <==> (forall|i: int, j: int|
                0 <= i < R && 0 <= j < K ==> #[trigger] dot_ok(
                    self@[i],
                    mat_col(other@, j),
                    C as int,
                )),
    {
        let mut rows: Vec<Vec<Rat>> = Vec::new();
        let mut i: usize = 0;
        while i < R
            invariant
                i <= R,
                self.wf(),
                other.wf(),
                rows.len() == i,
                forall|a: int| 0 <= a < i ==> (#[trigger] rows[a]).len() == K,
                forall|a: int, b: int|
                    0 <= a < i && 0 <= b < K ==> (#[trigger] rows[a][b]).wf() && rows[a][b]@
                        == dot_acc(self@[a], mat_col(other@, b), C as int),
                forall|a: int, b: int|
                    0 <= a < i && 0 <= b < K ==> #[trigger] dot_ok(
                        self@[a],
                        mat_col(other@, b),
                        C as int,
                    ),
            decreases R - i,
        {
            let mut row: Vec<Rat> = Vec::new();
            let mut j: usize = 0;
            while j < K
                invariant
                    j <= K,
                    i < R,
                    self.wf(),
                    other.wf(),
                    row.len() == j,
                    forall|b: int|
                        0 <= b < j ==> (#[trigger] row[b]).wf() && row[b]@ == dot_acc(
                            self@[i as int],
                            mat_col(other@, b),
                            C as int,
                        ),
                    forall|b: int|
                        0 <= b < j ==> #[trigger] dot_ok(
                            self@[i as int],
                            mat_col(other@, b),
                            C as int,
                        ),
                decreases K - j,
            {
                let mut acc = Rat::zero();
                let mut k: usize = 0;
                while k < C
                    invariant
                        k <= C,
                        i < R,
                        j < K,
                        self.wf(),
                        other.wf(),
                        acc.wf(),
                        acc@ == dot_acc(self@[i as int], mat_col(other@, j as int), k as int),
                        dot_ok(self@[i as int], mat_col(other@, j as int), k as int),
                    decreases C - k,
                {
                    proof {
                        assert(mat_col(other@, j as int)[k as int] == other@[k as int][j as int]);
                    }
                    let p = match self.rows[i][k].checked_mul(&other.rows[k][j]) {
                        Some(p) => p,
                        None => {
                            proof {
                                if dot_ok(self@[i as int], mat_col(other@, j as int), C as int) {
                                    lemma_dot_ok_mono(
                                        self@[i as int],
                                        mat_col(other@, j as int),
                                        k as int + 1,
                                        C as int,
                                    );
                                }
                            }
                            return Err(MatError::Overflow);
                        },
                    };
                    acc = match acc.checked_add(&p) {
                        Some(s) => s,
                        None => {
                            proof {
                                if dot_ok(self@[i as int], mat_col(other@, j as int), C as int) {
                                    lemma_dot_ok_mono(
                                        self@[i as int],
                                        mat_col(other@, j as int),
                                        k as int + 1,
                                        C as int,
                                    );
                                }
                            }
                            return Err(MatError::Overflow);
                        },
                    };
                    k = k + 1;
                }
                row.push(acc);
                j = j + 1;
            }
            rows.push(row);
            i = i + 1;
        }
        let m = SMatrix { rows };
        proof {
            assert forall|a: int, b: int| 0 <= a < R && 0 <= b < K implies q_eq(
                #[trigger] m@[a][b],
                q_dot(self@[a], mat_col(other@, b), C as int),
            ) by {
                assert(forall|t: int|
                    0 <= t < C ==> q_wf(#[trigger] mat_col(other@, b)[t]));
                lemma_dot_acc(self@[a], mat_col(other@, b), C as int);
            }
        }
        Ok(m)
    }

    /// Sum of the squares of all entries, exact.
    pub fn norm_squared(&self) -> (r: Result<Rat, MatError>)
        requires
            self.wf(),
        ensures
            r matches Ok(v) ==> v.wf() && v@ == macc(self@, R as int, C as int) && q_eq(
                v@,
                q_msumsq(self@, R as int, C as int),
            ),
            r matches Err(e) ==> e == MatError::Overflow,
            r is Ok <==> mok(self@, R as int, C as int),
    {
        let mut acc = Rat::zero();
        let mut i: usize = 0;
        while i < R
            invariant
                i <= R,
                self.wf(),
                acc.wf(),
                acc@ == macc(self@, i as int, C as int),
                mok(self@, i as int, C as int),
            decreases R - i,
        {
            let mut j: usize = 0;
            while j < C
                invariant
                    j <= C,
                    i < R,
                    self.wf(),
                    acc.wf(),
                    acc@ == racc(self@[i as int], j as int, macc(self@, i as int, C as int)),
                    rok(self@[i as int], j as int, macc(self@, i as int, C as int)),
                    mok(self@, i as int, C as int),
                decreases C - j,
            {
                let x = self.rows[i][j];
                let init = Ghost(macc(self@, i as int, C as int));
                let sq = match x.checked_mul(&x) {
                    Some(s) => s,
                    None => {
                        proof {
                            if mok(self@, R as int, C as int) {
                                lemma_mok_mono(self@, i as int + 1, R as int, C as int);
                                lemma_rok_mono(self@[i as int], j as int + 1, C as int, init@);
                            }
                        }
                        return Err(MatError::Overflow);
                    },
                };
                acc = match acc.checked_add(&sq) {
                    Some(s) => s,
                    None => {
                        proof {
                            if mok(self@, R as int, C as int) {
                                lemma_mok_mono(self@, i as int + 1, R as int, C as int);
                                lemma_rok_mono(self@[i as int], j as int + 1, C as int, init@);
                            }
                        }
                        return Err(MatError::Overflow);
                    },
                };
                j = j + 1;
            }
            i = i + 1;
        }
        proof {
            lemma_macc(self@, R as int, C as int);
        }
        Ok(acc)
    }
}

impl<'a, const R: usize, const C: usize> ColumnRef<'a, R, C> {
    /// The elements of the column, top to bottom.
    pub fn iter(&self) -> (col: Vec<Rat>)
        requires
            self.matrix.wf(),
            self.column < C,
        ensures
            col.len() == R,
            forall|i: int|
                0 <= i < R ==> (#[trigger] col[i])@ == self.matrix@[i][self.column as int],
    {
        let mut col: Vec<Rat> = Vec::new();
        let mut i: usize = 0;
        while i < R
            invariant
                i <= R,
                self.matrix.wf(),
                self.column < C,
                col.len() == i,
                forall|a: int|
                    0 <= a < i ==> (#[trigger] col[a])@ == self.matrix@[a][self.column as int],
            decreases R - i,
        {
            col.push(self.matrix.get(i, self.column));
            i = i + 1;
        }
        col
    }
}

impl<const R: usize> SVector<R> {
    pub open spec fn wf(&self) -> bool {
        &&& self.elems.len() == R
        &&& forall|i: int| 0 <= i < R ==> (#[trigger] self.elems[i]).wf()
    }

    pub open spec fn vidx(&self, i: int) -> Rat {
        self.elems[i]
    }

    pub fn zeros() -> (v: Self)
        ensures
            v.wf(),
            forall|i: int| 0 <= i < R ==> v@[i] == q_zero(),
    {
        let mut elems: Vec<Rat> = Vec::new();
        let mut i: usize = 0;
        while i < R
            invariant
                i <= R,
                elems.len() == i,
                forall|a: int|
                    0 <= a < i ==> (#[trigger] elems[a]).wf() && elems[a]@ == q_zero(),
            decreases R - i,
        {
            elems.push(Rat::zero());
            i = i + 1;
        }
        SVector { elems }
    }

    /// Builds the vector whose entry `r` is `f(r, 0)`, mirroring the matrix
    /// generator with a single column.
    pub fn from_fn<F: Fn(usize, usize) -> Rat>(f: F) -> (v: Self)
        requires
            forall|r: usize| r < R ==> call_requires(f, (r, 0usize)),
            forall|r: usize, c: usize, x: Rat| call_ensures(f, (r, c), x) ==> x.wf(),
        ensures
            v.wf(),
            forall|i: int|
                0 <= i < R ==> call_ensures(f, (i as usize, 0usize), #[trigger] v.vidx(i)),
            forall|i: int| 0 <= i < R ==> v@[i] == v.vidx(i)@,
    {
        let mut elems: Vec<Rat> = Vec::new();
        let mut i: usize = 0;
        while i < R
            invariant
                i <= R,
                elems.len() == i,
                forall|r: usize| r < R ==> call_requires(f, (r, 0usize)),
                forall|r: usize, c: usize, x: Rat| call_ensures(f, (r, c), x) ==> x.wf(),
                forall|a: int|
                    0 <= a < i ==> call_ensures(f, (a as usize, 0usize), #[trigger] elems[a]),
            decreases R - i,
        {
            elems.push(f(i, 0));
            i = i + 1;
        }
        SVector { elems }
    }

    pub fn get(&self, r: usize) -> (v: Rat)
        requires
            self.wf(),
            r < R,
        ensures
            v == self.vidx(r as int),
            v.wf(),
            v@ == self@[r as int],
    {
        self.elems[r]
    }

    pub fn set(&mut self, r: usize, v: Rat)
        requires
            old(self).wf(),
            r < R,
            v.wf(),
        ensures
            final(self).wf(),
            final(self)@ == old(self)@.update(r as int, v@),
    {
        self.elems[r] = v;
        proof {
            assert(final(self)@ =~~= old(self)@.update(r as int, v@));
        }
    }

    /// The elements, in index order.
    pub fn iter(&self) -> (elems: &Vec<Rat>)
        requires
            self.wf(),
        ensures
            elems.len() == R,
            forall|i: int| 0 <= i < R ==> (#[trigger] elems[i])@ == self@[i],
    {
        &self.elems
    }

    /// Element-wise sum; `Overflow` exactly when some reduced entry of the
    /// exact sum does not fit 64 bits.
    pub fn add(&self, other: &SVector<R>) -> (r: Result<SVector<R>, MatError>)
        requires
            self.wf(),
            other.wf(),
        ensures
            r matches Ok(v) ==> v.wf(),
            r matches Ok(v) ==> forall|i: int|
                0 <= i < R ==> #[trigger] v@[i] == q_norm(q_add(self@[i], other@[i])),
            r matches Ok(v) ==> forall|i: int|
                0 <= i < R ==> q_eq(#[trigger] v@[i], q_add(self@[i], other@[i])),
            r matches Err(e) ==> e == MatError::Overflow,
            r is Ok <==> (forall|i: int|
                0 <= i < R ==> q_ok(#[trigger] q_add(self@[i], other@[i]))),
    {
        let mut elems: Vec<Rat> = Vec::new();
        let mut i: usize = 0;
        while i < R
            invariant
                i <= R,
                self.wf(),
                other.wf(),
                elems.len() == i,
                forall|a: int|
                    0 <= a < i ==> (#[trigger] elems[a]).wf() && elems[a]@ == q_norm(
                        q_add(self@[a], other@[a]),
                    ) && q_eq(elems[a]@, q_add(self@[a], other@[a])),
                forall|a: int| 0 <= a < i ==> q_ok(#[trigger] q_add(self@[a], other@[a])),
            decreases R - i,
        {
            let s = match self.elems[i].checked_add(&other.elems[i]) {
                Some(s) => s,
                None => {
                    proof {
                        assert(!q_ok(q_add(self@[i as int], other@[i as int])));
                    }
                    return Err(MatError::Overflow);
                },
            };
            elems.push(s);
            i = i + 1;
        }
        Ok(SVector { elems })
    }

    /// Element-wise difference.
    pub fn sub(&self, other: &SVector<R>) -> (r: Result<SVector<R>, MatError>)
        requires
            self.wf(),
            other.wf(),
        ensures
            r matches Ok(v) ==> v.wf(),
            r matches Ok(v) ==> forall|i: int|
                0 <= i < R ==> #[trigger] v@[i] == q_norm(q_sub(self@[i], other@[i])),
            r matches Ok(v) ==> forall|i: int|
                0 <= i < R ==> q_eq(#[trigger] v@[i], q_sub(self@[i], other@[i])),
            r matches Err(e) ==> e == MatError::Overflow,
            r is Ok <==> (forall|i: int|
                0 <= i < R ==> q_ok(#[trigger] q_sub(self@[i], other@[i]))),
    {
        let mut elems: Vec<Rat> = Vec::new();
        let mut i: usize = 0;
        while i < R
            invariant
                i <= R,
                self.wf(),
                other.wf(),
                elems.len() == i,
                forall|a: int|
                    0 <= a < i ==> (#[trigger] elems[a]).wf() && elems[a]@ == q_norm(
                        q_sub(self@[a], other@[a]),
                    ) && q_eq(elems[a]@, q_sub(self@[a], other@[a])),
                forall|a: int| 0 <= a < i ==> q_ok(#[trigger] q_sub(self@[a], other@[a])),
            decreases R - i,
        {
            let s = match self.elems[i].checked_sub(&other.elems[i]) {
                Some(s) => s,
                None => {
                    proof {
                        assert(!q_ok(q_sub(self@[i as int], other@[i as int])));
                    }
                    return Err(MatError::Overflow);
                },
            };
            elems.push(s);
            i = i + 1;
        }
        Ok(SVector { elems })
    }

    /// Multiplication of every entry by the scalar `k`.
    pub fn scale(&self, k: &Rat) -> (r: Result<SVector<R>, MatError>)
        requires
            self.wf(),
            k.wf(),
        ensures
            r matches Ok(v) ==> v.wf(),
            r matches Ok(v) ==> forall|i: int|
                0 <= i < R ==> #[trigger] v@[i] == q_norm(q_mul(k@, self@[i])),
            r matches Ok(v) ==> forall|i: int|
                0 <= i < R ==> q_eq(#[trigger] v@[i], q_mul(k@, self@[i])),
            r matches Err(e) ==> e == MatError::Overflow,
            r is Ok <==> (forall|i: int| 0 <= i < R ==> q_ok(#[trigger] q_mul(k@, self@[i]))),
    {
        let mut elems: Vec<Rat> = Vec::new();
        let mut i: usize = 0;
        while i < R
            invariant
                i <= R,
                self.wf(),
                k.wf(),
                elems.len() == i,
                forall|a: int|
                    0 <= a < i ==> (#[trigger] elems[a]).wf() && elems[a]@ == q_norm(
                        q_mul(k@, self@[a]),
                    ) && q_eq(elems[a]@, q_mul(k@, self@[a])),
                forall|a: int| 0 <= a < i ==> q_ok(#[trigger] q_mul(k@, self@[a])),
            decreases R - i,
        {
            let s = match k.checked_mul(&self.elems[i]) {
                Some(s) => s,
                None => {
                    proof {
                        assert(!q_ok(q_mul(k@, self@[i as int])));
                    }
                    return Err(MatError::Overflow);
                },
            };
            elems.push(s);
            i = i + 1;
        }
        Ok(SVector { elems })
    }

    /// Element-wise negation; exact and never failing.
    pub fn neg(&self) -> (v: Self)
        requires
            self.wf(),
        ensures
            v.wf(),
            forall|i: int| 0 <= i < R ==> #[trigger] v@[i] == q_neg(self@[i]),
    {
        let mut elems: Vec<Rat> = Vec::new();
        let mut i: usize = 0;
        while i < R
            invariant
                i <= R,
                self.wf(),
                elems.len() == i,
                forall|a: int|
                    0 <= a < i ==> (#[trigger] elems[a]).wf() && elems[a]@ == q_neg(self@[a]),
            decreases R - i,
        {
            elems.push(self.elems[i].neg());
            i = i + 1;
        }
        SVector { elems }
    }

    /// Element-wise product of two vectors.
    pub fn component_mul(&self, b: &SVector<R>) -> (r: Result<SVector<R>, MatError>)
        requires
            self.wf(),
            b.wf(),
        ensures
            r matches Ok(v) ==> v.wf(),
            r matches Ok(v) ==> forall|i: int|
                0 <= i < R ==> #[trigger] v@[i] == q_norm(q_mul(self@[i], b@[i])),
            r matches Ok(v) ==> forall|i: int|
                0 <= i < R ==> q_eq(#[trigger] v@[i], q_mul(self@[i], b@[i])),
            r matches Err(e) ==> e == MatError::Overflow,
            r is Ok <==> (forall|i: int| 0 <= i < R ==> q_ok(#[trigger] q_mul(self@[i], b@[i]))),
    {
        let mut elems: Vec<Rat> = Vec::new();
        let mut i: usize = 0;
        while i < R
            invariant
                i <= R,
                self.wf(),
                b.wf(),
                elems.len() == i,
                forall|a: int|
                    0 <= a < i ==> (#[trigger] elems[a]).wf() && elems[a]@ == q_norm(
                        q_mul(self@[a], b@[a]),
                    ) && q_eq(elems[a]@, q_mul(self@[a], b@[a])),
                forall|a: int| 0 <= a < i ==> q_ok(#[trigger] q_mul(self@[a], b@[a])),
            decreases R - i,
        {
            let s = match self.elems[i].checked_mul(&b.elems[i]) {
                Some(s) => s,
                None => {
                    proof {
                        assert(!q_ok(q_mul(self@[i as int], b@[i as int])));
                    }
                    return Err(MatError::Overflow);
                },
            };
            elems.push(s);
            i = i + 1;
        }
        Ok(SVector { elems })
    }

    /// Combines two vectors entry by entry with `f`.
    pub fn zip_map<F: Fn(Rat, Rat) -> Rat>(&self, b: &SVector<R>, f: F) -> (v: Self)
        requires
            self.wf(),
            b.wf(),
            forall|i: int|
                0 <= i < R ==> call_requires(f, (#[trigger] self.vidx(i), b.vidx(i))),
            forall|x: Rat, y: Rat, z: Rat| call_ensures(f, (x, y), z) ==> z.wf(),
        ensures
            v.wf(),
            forall|i: int|
                0 <= i < R ==> call_ensures(f, (self.vidx(i), b.vidx(i)), #[trigger] v.vidx(i)),
            forall|i: int| 0 <= i < R ==> v@[i] == v.vidx(i)@,
    {
        let mut elems: Vec<Rat> = Vec::new();
        let mut i: usize = 0;
        while i < R
            invariant
                i <= R,
                self.wf(),
                b.wf(),
                elems.len() == i,
                forall|a: int|
                    0 <= a < R ==> call_requires(f, (#[trigger] self.vidx(a), b.vidx(a))),
                forall|x: Rat, y: Rat, z: Rat| call_ensures(f, (x, y), z) ==> z.wf(),
                forall|a: int|
                    0 <= a < i ==> call_ensures(f, (self.vidx(a), b.vidx(a)), #[trigger] elems[a]),
            decreases R - i,
        {
            proof {
                assert(call_requires(f, (self.vidx(i as int), b.vidx(i as int))));
            }
            elems.push(f(self.elems[i], b.elems[i]));
            i = i + 1;
        }
        SVector { elems }
    }

    /// Sum of the squares of the entries: the squared Euclidean norm, exact.
    pub fn norm_squared(&self) -> (r: Result<Rat, MatError>)
        requires
            self.wf(),
        ensures
            r matches Ok(v) ==> v.wf() && v@ == racc(self@, R as int, q_zero()) && q_eq(
                v@,
                q_sumsq(self@, R as int),
            ),
            r matches Err(e) ==> e == MatError::Overflow,
            r is Ok <==> rok(self@, R as int, q_zero()),
    {
        let mut acc = Rat::zero();
        let mut i: usize = 0;
        while i < R
            invariant
                i <= R,
                self.wf(),
                acc.wf(),
                acc@ == racc(self@, i as int, q_zero()),
                rok(self@, i as int, q_zero()),
            decreases R - i,
        {
            let x = self.elems[i];
            let sq = match x.checked_mul(&x) {
                Some(s) => s,
                None => {
                    proof {
                        if rok(self@, R as int, q_zero()) {
                            lemma_rok_mono(self@, i as int + 1, R as int, q_zero());
                        }
                    }
                    return Err(MatError::Overflow);
                },
            };
            acc = match acc.checked_add(&sq) {
                Some(s) => s,
                None => {
                    proof {
                        if rok(self@, R as int, q_zero()) {
                            lemma_rok_mono(self@, i as int + 1, R as int, q_zero());
                        }
                    }
                    return Err(MatError::Overflow);
                },
            };
            i = i + 1;
        }
        proof {
            lemma_racc(self@, R as int, q_zero());
            lemma_q_add_zero(q_sumsq(self@, R as int));
            lemma_q_add_wf(q_zero(), q_sumsq(self@, R as int));
            lemma_q_eq_trans(
                racc(self@, R as int, q_zero()),
                q_add(q_zero(), q_sumsq(self@, R as int)),
                q_sumsq(self@, R as int),
            );
        }
        Ok(acc)
    }

    /// An owned copy with the same entries.
    pub fn cloned(&self) -> (v: Self)
        requires
            self.wf(),
        ensures
            v.wf(),
            v@ == self@,
    {
        let mut elems: Vec<Rat> = Vec::new();
        let mut i: usize = 0;
        while i < R
            invariant
                i <= R,
                self.wf(),
                elems.len() == i,
                forall|a: int| 0 <= a < i ==> (#[trigger] elems[a]) == self.vidx(a),
            decreases R - i,
        {
            elems.push(self.elems[i]);
            i = i + 1;
        }
        let v = SVector { elems };
        proof {
            assert(v@ =~~= self@);
        }
        v
    }
}

} // verus!

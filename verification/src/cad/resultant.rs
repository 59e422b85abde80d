//! Subresultants of two polynomials in one of their variables, as
//! determinants of minors of Sylvester matrices.

use vstd::prelude::*;
use crate::field::Field;
use crate::poly::arithmetic::{merge, poly_merge, poly_product};
use crate::poly::calculus::{coefficient_of, poly_degree};
use crate::poly::division::{all_canonical, poly_divide, polys_view};
use crate::poly::mono::Term;
use crate::poly::{canonical, constant_poly, Poly};

verus! {

/// What a matrix of polynomials denotes.
pub open spec fn matrix_view<T: Field>(m: Seq<Vec<Poly<T>>>) -> Seq<Seq<Seq<Term<T>>>> {
    m.map_values(|row: Vec<Poly<T>>| polys_view(row@))
}

/// Whether a matrix has `rows` rows of `cols` canonical polynomials.
pub open spec fn matrix_wf<T: Field>(m: Seq<Seq<Seq<Term<T>>>>, rows: nat, cols: nat) -> bool {
    &&& m.len() == rows
    &&& forall|r: int| 0 <= r < rows ==> (#[trigger] m[r]).len() == cols && all_canonical(m[r])
}

/// The quotient of a division by one divisor that leaves no remainder.
pub open spec fn exact_quotient<T: Field>(a: Seq<Term<T>>, b: Seq<Term<T>>) -> Option<
    Seq<Term<T>>,
> {
    let (q, r) = poly_divide(a, seq![b]);
    if r.len() == 0 {
        Some(q[0])
    } else {
        None
    }
}

/// The entry in row `j` and column `k` after the elimination step with the
/// pivot `i`: outside the pivot row and right of the pivot column it is
/// `m[i][i] * m[j][k] - m[j][i] * m[i][k]`, divided by the previous pivot
/// after the first step; `None` where that division leaves a remainder.
pub open spec fn eliminated<T: Field>(m: Seq<Seq<Seq<Term<T>>>>, i: int, j: int, k: int) -> Option<
    Seq<Term<T>>,
> {
    if j == i || k <= i {
        Some(m[j][k])
    } else {
        let cross = poly_merge(
            poly_product(m[i][i], m[j][k]),
            poly_product(m[j][i], m[i][k]),
            true,
        );
        if i == 0 {
            Some(cross)
        } else {
            exact_quotient(cross, m[i - 1][i - 1])
        }
    }
}

/// Whether every division of the elimination step with the pivot `i` is exact.
pub open spec fn step_exact<T: Field>(m: Seq<Seq<Seq<Term<T>>>>, i: int, n: nat) -> bool {
    forall|j: int, k: int| 0 <= j < n && 0 <= k < n ==> (#[trigger] eliminated(m, i, j, k)).is_some()
}

/// The matrix after the elimination step with the pivot `i`.
pub open spec fn step_result<T: Field>(m: Seq<Seq<Seq<Term<T>>>>, i: int, n: nat) -> Seq<
    Seq<Seq<Term<T>>>,
> {
    Seq::new(n, |j: int| Seq::new(n, |k: int| eliminated(m, i, j, k).unwrap()))
}

/// Fraction-free elimination from the pivot `i` on: the matrix after the
/// last step, or `None` if a division left a remainder.
pub open spec fn bareiss<T: Field>(m: Seq<Seq<Seq<Term<T>>>>, i: nat, n: nat) -> Option<
    Seq<Seq<Seq<Term<T>>>>,
>
    decreases n - i,
{
    if i >= n {
        Some(m)
    } else if step_exact(m, i as int, n) {
        bareiss(step_result(m, i as int, n), i + 1, n)
    } else {
        None
    }
}

/// The determinant of a square matrix of polynomials: by the formula up to
/// three rows, by fraction-free elimination from four rows on.
pub open spec fn determinant_of<T: Field>(m: Seq<Seq<Seq<Term<T>>>>, n: nat) -> Option<
    Seq<Term<T>>,
> {
    if n == 0 {
        Some(constant_poly::<T>(1))
    } else if n == 1 {
        Some(m[0][0])
    } else if n == 2 {
        Some(poly_merge(poly_product(m[0][0], m[1][1]), poly_product(m[0][1], m[1][0]), true))
    } else if n == 3 {
        let a = poly_product(poly_product(m[0][0], m[1][1]), m[2][2]);
        let b = poly_product(poly_product(m[0][1], m[1][2]), m[2][0]);
        let c = poly_product(poly_product(m[0][2], m[1][0]), m[2][1]);
        let d = poly_product(poly_product(m[0][2], m[1][1]), m[2][0]);
        let e = poly_product(poly_product(m[0][0], m[1][2]), m[2][1]);
        let f = poly_product(poly_product(m[0][1], m[1][0]), m[2][2]);
        Some(
            poly_merge(
                poly_merge(poly_merge(poly_merge(poly_merge(a, b, false), c, false), d, true), e, true),
                f,
                true,
            ),
        )
    } else {
        match bareiss(m, 0, n) {
            Some(r) => Some(r[n - 1][n - 1]),
            None => None,
        }
    }
}

/// The entry of a shifted coefficient row: `coefs` starts in column
/// `shift`, and zero stands left and right of it.
pub open spec fn shifted<T: Field>(coefs: Seq<Seq<Term<T>>>, shift: int, col: int) -> Seq<Term<T>> {
    if shift > col || col > shift + (coefs.len() - 1) {
        Seq::empty()
    } else {
        coefs[col - shift]
    }
}

/// The Sylvester matrix of order `k` of two polynomials given by their
/// coefficients from the highest power down, of degrees `n` and `m`:
/// `m - k` shifted rows of the first, then `n - k` shifted rows of the
/// second, in `n + m - k` columns.
pub open spec fn sylvester<T: Field>(a: Seq<Seq<Term<T>>>, b: Seq<Seq<Term<T>>>, k: nat) -> Seq<
    Seq<Seq<Term<T>>>,
> {
    let n = a.len() - 1;
    let m = b.len() - 1;
    Seq::new(
        (m - k + n - k) as nat,
        |r: int|
            Seq::new(
                (n + m - k) as nat,
                |c: int|
                    if r < m - k {
                        shifted(a, r, c)
                    } else {
                        shifted(b, r - (m - k), c)
                    },
            ),
    )
}

/// The square matrix of the first `rows - 1` columns of `syl` and its
/// column `rows - 1 + idx`.
pub open spec fn minor<T: Field>(syl: Seq<Seq<Seq<Term<T>>>>, rows: nat, idx: int) -> Seq<
    Seq<Seq<Term<T>>>,
> {
    Seq::new(
        rows,
        |r: int|
            Seq::new(
                rows,
                |c: int|
                    if c < rows - 1 {
                        syl[r][c]
                    } else {
                        syl[r][rows - 1 + idx]
                    },
            ),
    )
}

/// The coefficient of index `idx`, from the highest power down, of the
/// subresultant of order `k`.
pub open spec fn subresultant_coef<T: Field>(
    a: Seq<Seq<Term<T>>>,
    b: Seq<Seq<Term<T>>>,
    k: nat,
    idx: int,
) -> Option<Seq<Term<T>>> {
    let rows = ((b.len() - 1) - k + (a.len() - 1) - k) as nat;
    determinant_of(minor(sylvester(a, b, k), rows, idx), rows)
}

/// A copy of a row of polynomials.
fn copy_row<T: Field>(v: &Vec<Poly<T>>) -> (r: Vec<Poly<T>>)
    ensures
        polys_view(r@) == polys_view(v@),
{
    let mut r: Vec<Poly<T>> = Vec::new();
    let mut i: usize = 0;
    while i < v.len()
        invariant
            i <= v.len(),
            polys_view(r@) == polys_view(v@).take(i as int),
        decreases v.len() - i,
    {
        let p = v[i].duplicate();
        assert(polys_view(v@)[i as int] == v@[i as int]@);
        assert(polys_view(r@.push(p)) =~= polys_view(r@).push(p@));
        assert(polys_view(v@).take(i + 1) =~= polys_view(v@).take(i as int).push(p@));
        r.push(p);
        i = i + 1;
    }
    assert(polys_view(v@).take(v.len() as int) =~= polys_view(v@));
    r
}

/// The entry in row `j` and column `k` of a matrix.
pub open spec fn entry<T: Field>(m: Seq<Vec<Poly<T>>>, j: int, k: int) -> Seq<Term<T>> {
    matrix_view(m)[j][k]
}

/// A borrowed entry of a matrix.
fn at<T: Field>(mat: &Vec<Vec<Poly<T>>>, j: usize, k: usize, Ghost(n): Ghost<nat>, Ghost(c): Ghost<nat>) -> (p: &Poly<T>)
    requires
        matrix_wf(matrix_view(mat@), n, c),
        j < n,
        k < c,
    ensures
        p@ == matrix_view(mat@)[j as int][k as int],
        p.wf(),
{
    let ghost mv = matrix_view(mat@);
    assert(mv[j as int] == polys_view(mat@[j as int]@));
    assert(mv[j as int][k as int] == mat@[j as int]@[k as int]@);
    assert(canonical(mv[j as int][k as int]));
    &mat[j][k]
}

/// One elimination step with the pivot `i`, or `None` if a division leaves
/// a remainder.
fn eliminate<T: Field>(mat: &Vec<Vec<Poly<T>>>, i: usize, size: usize) -> (r: Option<
    Vec<Vec<Poly<T>>>,
>)
    requires
        matrix_wf(matrix_view(mat@), size as nat, size as nat),
        i < size,
    ensures
        match r {
            Some(next) => step_exact(matrix_view(mat@), i as int, size as nat) && matrix_view(next@)
                == step_result(matrix_view(mat@), i as int, size as nat) && matrix_wf(
                matrix_view(next@),
                size as nat,
                size as nat,
            ),
            None => !step_exact(matrix_view(mat@), i as int, size as nat),
        },
{
    let ghost mv = matrix_view(mat@);
    let mut rows: Vec<Vec<Poly<T>>> = Vec::new();
    let mut j: usize = 0;
    assert(matrix_view(rows@) =~= step_result(mv, i as int, size as nat).take(0));
    while j < size
        invariant
            j <= size,
            i < size,
            mv == matrix_view(mat@),
            matrix_wf(mv, size as nat, size as nat),
            matrix_view(rows@) == step_result(mv, i as int, size as nat).take(j as int),
            forall|r: int, c: int|
                0 <= r < j && 0 <= c < size ==> (#[trigger] eliminated(mv, i as int, r, c)).is_some(),
            forall|r: int| 0 <= r < j ==> all_canonical(#[trigger] matrix_view(rows@)[r]),
        decreases size - j,
    {
        let mut row: Vec<Poly<T>> = Vec::new();
        let mut k: usize = 0;
        let ghost target = step_result(mv, i as int, size as nat)[j as int];
        assert(polys_view(row@) =~= target.take(0));
        while k < size
            invariant
                k <= size,
                i < size,
                j < size,
                mv == matrix_view(mat@),
                matrix_wf(mv, size as nat, size as nat),
                target == step_result(mv, i as int, size as nat)[j as int],
                polys_view(row@) == target.take(k as int),
                all_canonical(polys_view(row@)),
                forall|c: int| 0 <= c < k ==> (#[trigger] eliminated(mv, i as int, j as int, c)).is_some(),
            decreases size - k,
        {
            let value: Poly<T>;
            if j == i || k <= i {
                value = at(mat, j, k, Ghost(size as nat), Ghost(size as nat)).duplicate();
            } else {
                let left = at(mat, i, i, Ghost(size as nat), Ghost(size as nat)).mul_ref(
                    at(mat, j, k, Ghost(size as nat), Ghost(size as nat)),
                );
                let right = at(mat, j, i, Ghost(size as nat), Ghost(size as nat)).mul_ref(
                    at(mat, i, k, Ghost(size as nat), Ghost(size as nat)),
                );
                let cross = merge(&left, &right, true);
                if i == 0 {
                    value = cross;
                } else {
                    match cross.try_divide(at(mat, i - 1, i - 1, Ghost(size as nat), Ghost(size as nat))) {
                        Some(q) => {
                            value = q;
                        },
                        None => {
                            assert(eliminated(mv, i as int, j as int, k as int).is_none());
                            return None;
                        },
                    }
                }
            }
            let ghost rv = polys_view(row@);
            proof {
                assert(value@ == eliminated(mv, i as int, j as int, k as int).unwrap());
                assert(polys_view(row@.push(value)) =~= rv.push(value@));
                assert(target.take(k + 1) =~= target.take(k as int).push(value@));
                assert forall|t: int| 0 <= t < rv.push(value@).len() implies canonical(
                    #[trigger] rv.push(value@)[t],
                ) by {
                    if t < rv.len() {
                        assert(rv.push(value@)[t] == rv[t]);
                    }
                }
            }
            row.push(value);
            k = k + 1;
        }
        let ghost before = matrix_view(rows@);
        proof {
            assert(target.take(size as int) =~= target);
            assert(matrix_view(rows@.push(row)) =~= before.push(polys_view(row@)));
            assert(step_result(mv, i as int, size as nat).take(j + 1) =~= step_result(
                mv,
                i as int,
                size as nat,
            ).take(j as int).push(target));
            assert forall|r: int| 0 <= r < j + 1 implies all_canonical(
                #[trigger] before.push(polys_view(row@))[r],
            ) by {
                if r < j {
                    assert(before.push(polys_view(row@))[r] == before[r]);
                }
            }
        }
        rows.push(row);
        j = j + 1;
    }
    proof {
        let full = step_result(mv, i as int, size as nat);
        assert(full.take(size as int) =~= full);
        assert forall|r: int| 0 <= r < size implies (#[trigger] matrix_view(rows@)[r]).len() == size
            && all_canonical(matrix_view(rows@)[r]) by {
            assert(matrix_view(rows@)[r] == full[r]);
        }
    }
    Some(rows)
}

/// The determinant of a square matrix of polynomials with `size` rows.
///
/// Up to three rows it is computed by the formula, from four rows on by
/// fraction-free elimination, whose divisions are exact over an integral
/// domain. `None` is returned where one of them leaves a remainder.
pub fn determinant<T: Field>(mat: Vec<Vec<Poly<T>>>, size: usize) -> (r: Option<Poly<T>>)
    requires
        matrix_wf(matrix_view(mat@), size as nat, size as nat),
    ensures
        match r {
            Some(d) => determinant_of(matrix_view(mat@), size as nat) == Some(d@) && d.wf(),
            None => determinant_of(matrix_view(mat@), size as nat).is_none(),
        },
{
    let ghost n = size as nat;
    if size == 0 {
        Some(Poly::constant(1))
    } else if size == 1 {
        Some(at(&mat, 0, 0, Ghost(n), Ghost(n)).duplicate())
    } else if size == 2 {
        let left = at(&mat, 0, 0, Ghost(n), Ghost(n)).mul_ref(at(&mat, 1, 1, Ghost(n), Ghost(n)));
        let right = at(&mat, 0, 1, Ghost(n), Ghost(n)).mul_ref(at(&mat, 1, 0, Ghost(n), Ghost(n)));
        Some(merge(&left, &right, true))
    } else if size == 3 {
        let a = at(&mat, 0, 0, Ghost(n), Ghost(n)).mul_ref(at(&mat, 1, 1, Ghost(n), Ghost(n))).mul_ref(
            at(&mat, 2, 2, Ghost(n), Ghost(n)),
        );
        let b = at(&mat, 0, 1, Ghost(n), Ghost(n)).mul_ref(at(&mat, 1, 2, Ghost(n), Ghost(n))).mul_ref(
            at(&mat, 2, 0, Ghost(n), Ghost(n)),
        );
        let c = at(&mat, 0, 2, Ghost(n), Ghost(n)).mul_ref(at(&mat, 1, 0, Ghost(n), Ghost(n))).mul_ref(
            at(&mat, 2, 1, Ghost(n), Ghost(n)),
        );
        let d = at(&mat, 0, 2, Ghost(n), Ghost(n)).mul_ref(at(&mat, 1, 1, Ghost(n), Ghost(n))).mul_ref(
            at(&mat, 2, 0, Ghost(n), Ghost(n)),
        );
        let e = at(&mat, 0, 0, Ghost(n), Ghost(n)).mul_ref(at(&mat, 1, 2, Ghost(n), Ghost(n))).mul_ref(
            at(&mat, 2, 1, Ghost(n), Ghost(n)),
        );
        let f = at(&mat, 0, 1, Ghost(n), Ghost(n)).mul_ref(at(&mat, 1, 0, Ghost(n), Ghost(n))).mul_ref(
            at(&mat, 2, 2, Ghost(n), Ghost(n)),
        );
        let ab = merge(&a, &b, false);
        let abc = merge(&ab, &c, false);
        let abcd = merge(&abc, &d, true);
        let abcde = merge(&abcd, &e, true);
        Some(merge(&abcde, &f, true))
    } else {
        let mut cur = mat;
        let mut i: usize = 0;
        while i < size
            invariant
                i <= size,
                size >= 4,
                n == size as nat,
                matrix_wf(matrix_view(cur@), n, n),
                bareiss(matrix_view(cur@), i as nat, n) == bareiss(matrix_view(mat@), 0, n),
            decreases size - i,
        {
            match eliminate(&cur, i, size) {
                Some(next) => {
                    cur = next;
                },
                None => {
                    return None;
                },
            }
            i = i + 1;
        }
        Some(at(&cur, size - 1, size - 1, Ghost(n), Ghost(n)).duplicate())
    }
}

/// The Sylvester matrix of order `k` of two polynomials given by their
/// coefficients from the highest power down.
pub fn syl_k<T: Field>(a_coefs: &Vec<Poly<T>>, b_coefs: &Vec<Poly<T>>, k: usize) -> (r: Vec<
    Vec<Poly<T>>,
>)
    requires
        a_coefs.len() >= 1,
        b_coefs.len() >= 1,
        k <= a_coefs.len() - 1,
        k <= b_coefs.len() - 1,
        a_coefs.len() + b_coefs.len() <= usize::MAX,
        all_canonical(polys_view(a_coefs@)),
        all_canonical(polys_view(b_coefs@)),
    ensures
        matrix_view(r@) == sylvester(polys_view(a_coefs@), polys_view(b_coefs@), k as nat),
        matrix_wf(
            matrix_view(r@),
            ((b_coefs.len() - 1) - k + (a_coefs.len() - 1) - k) as nat,
            ((a_coefs.len() - 1) + (b_coefs.len() - 1) - k) as nat,
        ),
{
    let a_deg = a_coefs.len() - 1;
    let b_deg = b_coefs.len() - 1;
    let cols = a_deg + b_deg - k;
    let total = (b_deg - k) + (a_deg - k);
    let ghost av = polys_view(a_coefs@);
    let ghost bv = polys_view(b_coefs@);
    let ghost target = sylvester(av, bv, k as nat);
    let mut rows: Vec<Vec<Poly<T>>> = Vec::new();
    let mut r: usize = 0;
    assert(matrix_view(rows@) =~= target.take(0));
    while r < total
        invariant
            r <= total,
            a_deg == a_coefs.len() - 1,
            b_deg == b_coefs.len() - 1,
            k <= a_deg,
            k <= b_deg,
            cols == a_deg + b_deg - k,
            total == (b_deg - k) + (a_deg - k),
            av == polys_view(a_coefs@),
            bv == polys_view(b_coefs@),
            all_canonical(av),
            all_canonical(bv),
            target == sylvester(av, bv, k as nat),
            matrix_view(rows@) == target.take(r as int),
            forall|t: int| 0 <= t < r ==> all_canonical(#[trigger] matrix_view(rows@)[t]),
        decreases total - r,
    {
        let first = r < b_deg - k;
        let shift: usize = if first {
            r
        } else {
            r - (b_deg - k)
        };
        let mut row: Vec<Poly<T>> = Vec::new();
        let mut c: usize = 0;
        let ghost want = target[r as int];
        assert(polys_view(row@) =~= want.take(0));
        while c < cols
            invariant
                c <= cols,
                r < total,
                a_deg == a_coefs.len() - 1,
                b_deg == b_coefs.len() - 1,
                k <= a_deg,
                k <= b_deg,
                cols == a_deg + b_deg - k,
                total == (b_deg - k) + (a_deg - k),
                first == (r < b_deg - k),
                shift == if first { r as int } else { r - (b_deg - k) },
                av == polys_view(a_coefs@),
                bv == polys_view(b_coefs@),
                all_canonical(av),
                all_canonical(bv),
                target == sylvester(av, bv, k as nat),
                want == target[r as int],
                polys_view(row@) == want.take(c as int),
                all_canonical(polys_view(row@)),
            decreases cols - c,
        {
            let source = if first {
                a_coefs
            } else {
                b_coefs
            };
            let value: Poly<T> = if shift > c || c - shift > source.len() - 1 {
                crate::poly::arithmetic::zero_poly()
            } else {
                assert(polys_view(source@)[c - shift] == source@[c - shift]@);
                source[c - shift].duplicate()
            };
            let ghost rv = polys_view(row@);
            proof {
                assert(value@ == want[c as int]);
                assert(canonical(value@)) by {
                    if !(shift > c || c - shift > source.len() - 1) {
                        assert(canonical(polys_view(source@)[c - shift]));
                    }
                }
                assert(polys_view(row@.push(value)) =~= rv.push(value@));
                assert(want.take(c + 1) =~= want.take(c as int).push(value@));
                assert forall|t: int| 0 <= t < rv.push(value@).len() implies canonical(
                    #[trigger] rv.push(value@)[t],
                ) by {
                    if t < rv.len() {
                        assert(rv.push(value@)[t] == rv[t]);
                    }
                }
            }
            row.push(value);
            c = c + 1;
        }
        let ghost before = matrix_view(rows@);
        proof {
            assert(want.take(cols as int) =~= want);
            assert(matrix_view(rows@.push(row)) =~= before.push(polys_view(row@)));
            assert(target.take(r + 1) =~= target.take(r as int).push(want));
            assert forall|t: int| 0 <= t < r + 1 implies all_canonical(
                #[trigger] before.push(polys_view(row@))[t],
            ) by {
                if t < r {
                    assert(before.push(polys_view(row@))[t] == before[t]);
                }
            }
        }
        rows.push(row);
        r = r + 1;
    }
    proof {
        assert(target.take(total as int) =~= target);
        assert forall|t: int| 0 <= t < total implies (#[trigger] matrix_view(rows@)[t]).len() == cols
            && all_canonical(matrix_view(rows@)[t]) by {
            assert(matrix_view(rows@)[t] == target[t]);
        }
    }
    rows
}


/// The coefficients of `p` as a polynomial in `var`, from the highest
/// power down.
pub open spec fn coefs_of<T: Field>(p: Seq<Term<T>>, var: usize) -> Seq<Seq<Term<T>>> {
    Seq::new(
        poly_degree(p, var) + 1,
        |t: int| coefficient_of(p, var, (poly_degree(p, var) - t) as nat),
    )
}

/// Whether every determinant of the subresultant chain can be computed.
pub open spec fn chain_defined<T: Field>(a: Seq<Seq<Term<T>>>, b: Seq<Seq<Term<T>>>) -> bool {
    forall|k: int, idx: int|
        0 <= k < b.len() - 1 && 0 <= idx <= k ==> (#[trigger] subresultant_coef(
            a,
            b,
            k as nat,
            idx,
        )).is_some()
}

/// The coefficients of the subresultant of order `k`, from the highest
/// power down.
pub open spec fn subresultant_row<T: Field>(a: Seq<Seq<Term<T>>>, b: Seq<Seq<Term<T>>>, k: nat) -> Seq<
    Seq<Term<T>>,
> {
    Seq::new(k + 1, |idx: int| subresultant_coef(a, b, k, idx).unwrap())
}

/// The subresultant chain of two polynomials given by their coefficients:
/// the two polynomials, then the subresultants from the order one below the
/// degree of the second down to the order zero.
pub open spec fn chain<T: Field>(a: Seq<Seq<Term<T>>>, b: Seq<Seq<Term<T>>>) -> Seq<
    Seq<Seq<Term<T>>>,
> {
    seq![a, b] + Seq::new(
        (b.len() - 1) as nat,
        |t: int| subresultant_row(a, b, (b.len() - 2 - t) as nat),
    )
}

/// The square matrix of the first `rows - 1` columns of a matrix and its
/// column `rows - 1 + idx`.
fn take_minor<T: Field>(syl: &Vec<Vec<Poly<T>>>, rows: usize, idx: usize, Ghost(cols): Ghost<nat>) -> (r:
    Vec<Vec<Poly<T>>>)
    requires
        matrix_wf(matrix_view(syl@), rows as nat, cols),
        rows >= 1,
        rows - 1 + idx < cols,
        cols <= usize::MAX,
    ensures
        matrix_view(r@) == minor(matrix_view(syl@), rows as nat, idx as int),
        matrix_wf(matrix_view(r@), rows as nat, rows as nat),
{
    let ghost sv = matrix_view(syl@);
    let ghost target = minor(sv, rows as nat, idx as int);
    let mut out: Vec<Vec<Poly<T>>> = Vec::new();
    let mut r: usize = 0;
    assert(matrix_view(out@) =~= target.take(0));
    while r < rows
        invariant
            r <= rows,
            rows >= 1,
            rows - 1 + idx < cols,
            cols <= usize::MAX,
            sv == matrix_view(syl@),
            matrix_wf(sv, rows as nat, cols),
            target == minor(sv, rows as nat, idx as int),
            matrix_view(out@) == target.take(r as int),
            forall|t: int| 0 <= t < r ==> all_canonical(#[trigger] matrix_view(out@)[t]),
        decreases rows - r,
    {
        let mut row: Vec<Poly<T>> = Vec::new();
        let mut c: usize = 0;
        let ghost want = target[r as int];
        assert(polys_view(row@) =~= want.take(0));
        while c < rows
            invariant
                c <= rows,
                r < rows,
                rows - 1 + idx < cols,
                cols <= usize::MAX,
                sv == matrix_view(syl@),
                matrix_wf(sv, rows as nat, cols),
                want == minor(sv, rows as nat, idx as int)[r as int],
                polys_view(row@) == want.take(c as int),
                all_canonical(polys_view(row@)),
            decreases rows - c,
        {
            let from: usize = if c < rows - 1 {
                c
            } else {
                rows - 1 + idx
            };
            let value = at(syl, r, from, Ghost(rows as nat), Ghost(cols)).duplicate();
            let ghost rv = polys_view(row@);
            proof {
                assert(value@ == want[c as int]);
                assert(polys_view(row@.push(value)) =~= rv.push(value@));
                assert(want.take(c + 1) =~= want.take(c as int).push(value@));
                assert forall|t: int| 0 <= t < rv.push(value@).len() implies canonical(
                    #[trigger] rv.push(value@)[t],
                ) by {
                    if t < rv.len() {
                        assert(rv.push(value@)[t] == rv[t]);
                    }
                }
            }
            row.push(value);
            c = c + 1;
        }
        let ghost before = matrix_view(out@);
        proof {
            assert(want.take(rows as int) =~= want);
            assert(matrix_view(out@.push(row)) =~= before.push(polys_view(row@)));
            assert(target.take(r + 1) =~= target.take(r as int).push(want));
            assert forall|t: int| 0 <= t < r + 1 implies all_canonical(
                #[trigger] before.push(polys_view(row@))[t],
            ) by {
                if t < r {
                    assert(before.push(polys_view(row@))[t] == before[t]);
                }
            }
        }
        out.push(row);
        r = r + 1;
    }
    proof {
        assert(target.take(rows as int) =~= target);
        assert forall|t: int| 0 <= t < rows implies (#[trigger] matrix_view(out@)[t]).len() == rows
            && all_canonical(matrix_view(out@)[t]) by {
            assert(matrix_view(out@)[t] == target[t]);
        }
    }
    out
}

/// The subresultant chain of `a` and `b` as polynomials in the variable
/// `var`, each member given by its coefficients from the highest power
/// down: `a`, `b`, then the subresultants of the orders below the degree of
/// `b`, the highest first. `None` where a determinant cannot be computed.
pub fn subresultants<T: Field>(a: &Poly<T>, b: &Poly<T>, var: usize) -> (r: Option<
    Vec<Vec<Poly<T>>>,
>)
    requires
        a.wf(),
        b.wf(),
        poly_degree(b@, var) <= poly_degree(a@, var),
        poly_degree(a@, var) + poly_degree(b@, var) + 2 <= usize::MAX,
    ensures
        r.is_some() == chain_defined(coefs_of(a@, var), coefs_of(b@, var)),
        match r {
            Some(srs) => matrix_view(srs@) == chain(coefs_of(a@, var), coefs_of(b@, var)),
            None => true,
        },
{
    let a_coefs = a.coefs(var);
    let b_coefs = b.coefs(var);
    let ghost av = coefs_of(a@, var);
    let ghost bv = coefs_of(b@, var);
    proof {
        assert(polys_view(a_coefs@) =~= av);
        assert(polys_view(b_coefs@) =~= bv);
        assert forall|t: int| 0 <= t < av.len() implies canonical(#[trigger] av[t]) by {
            assert(av[t] == a_coefs@[t]@);
        }
        assert forall|t: int| 0 <= t < bv.len() implies canonical(#[trigger] bv[t]) by {
            assert(bv[t] == b_coefs@[t]@);
        }
    }
    let n = a_coefs.len() - 1;
    let m = b_coefs.len() - 1;
    let mut srs: Vec<Vec<Poly<T>>> = Vec::new();
    srs.push(copy_row(&a_coefs));
    srs.push(copy_row(&b_coefs));
    let ghost target = chain(av, bv);
    assert(matrix_view(srs@) =~= target.take(2));
    let mut t: usize = 0;
    while t < m
        invariant
            t <= m,
            n == a_coefs.len() - 1,
            m == b_coefs.len() - 1,
            m <= n,
            n + m + 2 <= usize::MAX,
            av == polys_view(a_coefs@),
            bv == polys_view(b_coefs@),
            av == coefs_of(a@, var),
            bv == coefs_of(b@, var),
            all_canonical(av),
            all_canonical(bv),
            target == chain(av, bv),
            matrix_view(srs@) == target.take(2 + t),
            forall|k: int, idx: int|
                m - t <= k < m && 0 <= idx <= k ==> (#[trigger] subresultant_coef(
                    av,
                    bv,
                    k as nat,
                    idx,
                )).is_some(),
        decreases m - t,
    {
        let k: usize = m - 1 - t;
        let syl = syl_k(&a_coefs, &b_coefs, k);
        let rows: usize = (m - k) + (n - k);
        let ghost cols = (n + m - k) as nat;
        let mut row: Vec<Poly<T>> = Vec::new();
        let mut idx: usize = 0;
        let ghost want = subresultant_row(av, bv, k as nat);
        assert(polys_view(row@) =~= want.take(0));
        while idx <= k
            invariant
                idx <= k + 1,
                k < m,
                m <= n,
                n + m + 2 <= usize::MAX,
                n == a_coefs.len() - 1,
                m == b_coefs.len() - 1,
                rows == (m - k) + (n - k),
                cols == (n + m - k) as nat,
                av == polys_view(a_coefs@),
                bv == polys_view(b_coefs@),
                av == coefs_of(a@, var),
                bv == coefs_of(b@, var),
                matrix_view(syl@) == sylvester(av, bv, k as nat),
                matrix_wf(matrix_view(syl@), rows as nat, cols),
                want == subresultant_row(av, bv, k as nat),
                polys_view(row@) == want.take(idx as int),
                forall|i: int|
                    0 <= i < idx ==> (#[trigger] subresultant_coef(av, bv, k as nat, i)).is_some(),
            decreases k + 1 - idx,
        {
            let small = take_minor(&syl, rows, idx, Ghost(cols));
            match determinant(small, rows) {
                Some(d) => {
                    let ghost rv = polys_view(row@);
                    proof {
                        assert(subresultant_coef(av, bv, k as nat, idx as int) == Some(d@));
                        assert(polys_view(row@.push(d)) =~= rv.push(d@));
                        assert(want.take(idx + 1) =~= want.take(idx as int).push(d@));
                    }
                    row.push(d);
                },
                None => {
                    proof {
                        let kk = k as int;
                        let ii = idx as int;
                        assert(subresultant_coef(av, bv, kk as nat, ii).is_none());
                        assert(0 <= kk < bv.len() - 1 && 0 <= ii <= kk);
                    }
                    return None;
                },
            }
            idx = idx + 1;
        }
        let ghost before = matrix_view(srs@);
        proof {
            assert(want.take(k + 1) =~= want);
            assert(matrix_view(srs@.push(row)) =~= before.push(polys_view(row@)));
            assert(target[2 + t] == want);
            assert(target.take(2 + t + 1) =~= target.take(2 + t).push(want));
        }
        srs.push(row);
        t = t + 1;
    }
    assert(target.take(2 + m) =~= target);
    Some(srs)
}

} // verus!

//! Exact linear algebra over machine integers and rationals.
//!
//! The least-squares fit of the Linear interpolation strategy is computed
//! here without floating point: the normal equations of the regression are
//! solved by Gaussian elimination over exact fractions, and the candidate
//! solution is then verified by integer substitution before it is accepted.
//! Only that final substitution check carries a contract: a solution is
//! returned only when it exactly satisfies the given integer linear system,
//! whatever route produced it.

use vstd::prelude::*;

verus! {

/// An exact rational number `num / den`. Values produced by the library
/// always carry a positive denominator.
#[derive(Clone, Copy, Debug, PartialEq, Eq, Structural)]
pub struct Rat {
    /// Numerator.
    pub num: i128,
    /// Denominator; positive in every value the library returns.
    pub den: i128,
}

/// The dot product of the first `k` entries of two integer sequences, as a
/// mathematical integer.
pub open spec fn dot_prefix(u: Seq<i128>, v: Seq<i128>, k: int) -> int
    decreases k,
{
    if k <= 0 {
        0
    } else {
        dot_prefix(u, v, k - 1) + u[k - 1] * v[k - 1]
    }
}

/// The rows of `a`, the right-hand side `b`, the candidate numerators `x`
/// and the common denominator `q` form an exact solution of the scaled
/// system: for every row, `a[i] . x == q * b[i]`.
pub open spec fn exact_solution(a: Seq<Vec<i128>>, b: Seq<i128>, x: Seq<i128>, q: int) -> bool {
    forall|i: int| 0 <= i < a.len() ==> dot_prefix(#[trigger] a[i]@, x, x.len() as int) == q * b[i]
}

/// Verifies a candidate solution of `a . x == q * b` by exact integer
/// substitution. Returns true only when every row checks out; any
/// mismatch, shape defect or arithmetic overflow rejects the candidate.
pub(crate) fn check_solution(a: &Vec<Vec<i128>>, b: &Vec<i128>, x: &Vec<i128>, q: i128) -> (r: bool)
    ensures
        r ==> a@.len() == b@.len() && exact_solution(a@, b@, x@, q as int),
{
    if a.len() != b.len() {
        return false;
    }
    let rows = a.len();
    let cols = x.len();
    let mut i: usize = 0;
    while i < rows
        invariant
            rows == a@.len() == b@.len(),
            cols == x@.len(),
            0 <= i <= rows,
            forall|t: int|
                0 <= t < i ==> a@[t]@.len() == cols && dot_prefix(#[trigger] a@[t]@, x@, cols as int)
                    == q * b@[t],
        decreases rows - i,
    {
        let row = &a[i];
        if row.len() != cols {
            return false;
        }
        let mut acc: i128 = 0;
        let mut j: usize = 0;
        while j < cols
            invariant
                cols == x@.len() == row@.len(),
                0 <= j <= cols,
                acc as int == dot_prefix(row@, x@, j as int),
            decreases cols - j,
        {
            let term = match row[j].checked_mul(x[j]) {
                Some(t) => t,
                None => { return false; },
            };
            acc = match acc.checked_add(term) {
                Some(t) => t,
                None => { return false; },
            };
            j = j + 1;
        }
        let rhs = match q.checked_mul(b[i]) {
            Some(t) => t,
            None => { return false; },
        };
        if acc != rhs {
            return false;
        }
        i = i + 1;
    }
    true
}

/// The absolute value of a mathematical integer.
pub open spec fn abs_i(x: int) -> int {
    if x >= 0 {
        x
    } else {
        -x
    }
}

/// The products and product sums of the closed-form 2x2 solve stay within
/// `i128`: the two Cramer numerators and the determinant are representable.
pub open spec fn products_fit_2x2(a: Seq<Vec<i128>>, b: Seq<i128>) -> bool {
    &&& abs_i(a[1]@[1] * b[0]) + abs_i(a[0]@[1] * b[1]) <= i128::MAX
    &&& abs_i(a[0]@[0] * b[1]) + abs_i(a[1]@[0] * b[0]) <= i128::MAX
    &&& abs_i(a[0]@[0] * a[1]@[1]) + abs_i(a[0]@[1] * a[1]@[0]) <= i128::MAX
}

/// The determinant of a 2x2 system.
pub open spec fn det_2x2(a: Seq<Vec<i128>>) -> int {
    a[0]@[0] * a[1]@[1] - a[0]@[1] * a[1]@[0]
}

/// Solves a 2x2 integer system exactly by the closed Cramer form.
///
/// Unlike the general elimination, this solve owes success: whenever the
/// determinant is nonzero and the Cramer products fit the fixed-width
/// arithmetic, a solution is returned. The returned numerators are
/// bounded by the Cramer products, which callers use to bound later
/// arithmetic.
pub fn solve_2x2(a: &Vec<Vec<i128>>, b: &Vec<i128>) -> (r: Option<(Vec<i128>, i128)>)
    requires
        a@.len() == 2,
        b@.len() == 2,
        a@[0]@.len() == 2,
        a@[1]@.len() == 2,
    ensures
        r matches Some(sol) ==> {
            &&& sol.1 > 0
            &&& sol.0@.len() == 2
            &&& exact_solution(a@, b@, sol.0@, sol.1 as int)
            &&& abs_i(sol.0@[0] as int) <= abs_i(a@[1]@[1] * b@[0]) + abs_i(a@[0]@[1] * b@[1])
            &&& abs_i(sol.0@[1] as int) <= abs_i(a@[0]@[0] * b@[1]) + abs_i(a@[1]@[0] * b@[0])
        },
        (det_2x2(a@) != 0 && products_fit_2x2(a@, b@)) ==> r is Some,
{
    let a00 = a[0][0];
    let a01 = a[0][1];
    let a10 = a[1][0];
    let a11 = a[1][1];
    let b0 = b[0];
    let b1 = b[1];

    let p0 = match a11.checked_mul(b0) {
        Some(v) => v,
        None => { return None; },
    };
    let p1 = match a01.checked_mul(b1) {
        Some(v) => v,
        None => { return None; },
    };
    let x0 = match p0.checked_sub(p1) {
        Some(v) => v,
        None => { return None; },
    };
    let p2 = match a00.checked_mul(b1) {
        Some(v) => v,
        None => { return None; },
    };
    let p3 = match a10.checked_mul(b0) {
        Some(v) => v,
        None => { return None; },
    };
    let x1 = match p2.checked_sub(p3) {
        Some(v) => v,
        None => { return None; },
    };
    let p4 = match a00.checked_mul(a11) {
        Some(v) => v,
        None => { return None; },
    };
    let p5 = match a01.checked_mul(a10) {
        Some(v) => v,
        None => { return None; },
    };
    let det = match p4.checked_sub(p5) {
        Some(v) => v,
        None => { return None; },
    };
    if det == 0 {
        return None;
    }
    proof {
        assert(a00 * (a11 * b0 - a01 * b1) + a01 * (a00 * b1 - a10 * b0) == (a00 * a11 - a01
            * a10) * b0) by (nonlinear_arith);
        assert(a10 * (a11 * b0 - a01 * b1) + a11 * (a00 * b1 - a10 * b0) == (a00 * a11 - a01
            * a10) * b1) by (nonlinear_arith);
    }
    if det > 0 {
        let mut x: Vec<i128> = Vec::new();
        x.push(x0);
        x.push(x1);
        proof {
            assert(dot_prefix(a@[0]@, x@, 0) == 0);
            assert(dot_prefix(a@[1]@, x@, 0) == 0);
            assert(dot_prefix(a@[0]@, x@, 1) == a@[0]@[0] * x@[0]);
            assert(dot_prefix(a@[0]@, x@, 2) == a@[0]@[0] * x@[0] + a@[0]@[1] * x@[1]);
            assert(dot_prefix(a@[1]@, x@, 1) == a@[1]@[0] * x@[0]);
            assert(dot_prefix(a@[1]@, x@, 2) == a@[1]@[0] * x@[0] + a@[1]@[1] * x@[1]);
        }
        Some((x, det))
    } else {
        let n0 = match 0i128.checked_sub(x0) {
            Some(v) => v,
            None => { return None; },
        };
        let n1 = match 0i128.checked_sub(x1) {
            Some(v) => v,
            None => { return None; },
        };
        let nd = match 0i128.checked_sub(det) {
            Some(v) => v,
            None => { return None; },
        };
        let mut x: Vec<i128> = Vec::new();
        x.push(n0);
        x.push(n1);
        proof {
            assert(a00 * (-x0) + a01 * (-x1) == (-(a00 * a11 - a01 * a10)) * b0)
                by (nonlinear_arith)
                requires
                    a00 * x0 + a01 * x1 == (a00 * a11 - a01 * a10) * b0,
            ;
            assert(a10 * (-x0) + a11 * (-x1) == (-(a00 * a11 - a01 * a10)) * b1)
                by (nonlinear_arith)
                requires
                    a10 * x0 + a11 * x1 == (a00 * a11 - a01 * a10) * b1,
            ;
            assert(dot_prefix(a@[0]@, x@, 0) == 0);
            assert(dot_prefix(a@[1]@, x@, 0) == 0);
            assert(dot_prefix(a@[0]@, x@, 1) == a@[0]@[0] * x@[0]);
            assert(dot_prefix(a@[0]@, x@, 2) == a@[0]@[0] * x@[0] + a@[0]@[1] * x@[1]);
            assert(dot_prefix(a@[1]@, x@, 1) == a@[1]@[0] * x@[0]);
            assert(dot_prefix(a@[1]@, x@, 2) == a@[1]@[0] * x@[0] + a@[1]@[1] * x@[1]);
        }
        Some((x, nd))
    }
}

/// An exact fraction used inside the elimination; the denominator is kept
/// positive throughout.
#[derive(Clone, Copy)]
struct Frac {
    n: i128,
    d: i128,
}

/// Greatest common divisor of two unsigned integers by Euclid's algorithm.
fn gcd_u128(a: u128, b: u128) -> u128 {
    let mut x: u128 = a;
    let mut y: u128 = b;
    while y != 0
        decreases y,
    {
        let t = x % y;
        x = y;
        y = t;
    }
    x
}

/// Brings a fraction to lower terms where the computed divisor passes its
/// sanity checks; otherwise returns the fraction unchanged. Either way the
/// denominator stays positive.
fn reduce(f: Frac) -> (r: Frac)
    requires
        f.d > 0,
    ensures
        r.d > 0,
{
    if f.n == i128::MIN {
        return f;
    }
    let mag: u128 = if f.n < 0 {
        (-f.n) as u128
    } else {
        f.n as u128
    };
    if mag == 0 {
        return Frac { n: 0, d: 1 };
    }
    let du = f.d as u128;
    let g = gcd_u128(mag, du);
    if g <= 1 || g > mag || g > du {
        return f;
    }
    let m2 = mag / g;
    let d2 = du / g;
    assert(m2 <= mag && d2 <= du) by {
        vstd::arithmetic::div_mod::lemma_div_is_ordered_by_denominator(mag as int, 1, g as int);
        vstd::arithmetic::div_mod::lemma_div_is_ordered_by_denominator(du as int, 1, g as int);
    }
    assert(d2 >= 1) by {
        vstd::arithmetic::div_mod::lemma_div_non_zero(du as int, g as int);
    }
    let n2: i128 = if f.n < 0 {
        -(m2 as i128)
    } else {
        m2 as i128
    };
    Frac { n: n2, d: d2 as i128 }
}

/// Multiplies two fractions; `None` when the products leave `i128`.
fn f_mul(x: Frac, y: Frac) -> (r: Option<Frac>)
    requires
        x.d > 0,
        y.d > 0,
    ensures
        r is Some ==> r->0.d > 0,
{
    let n = match x.n.checked_mul(y.n) {
        Some(v) => v,
        None => { return None; },
    };
    let d = match x.d.checked_mul(y.d) {
        Some(v) => v,
        None => { return None; },
    };
    assert(d > 0) by (nonlinear_arith)
        requires
            x.d > 0,
            y.d > 0,
            d == x.d * y.d,
    ;
    Some(reduce(Frac { n, d }))
}

/// Subtracts two fractions; `None` when the products or the difference
/// leave `i128`.
fn f_sub(x: Frac, y: Frac) -> (r: Option<Frac>)
    requires
        x.d > 0,
        y.d > 0,
    ensures
        r is Some ==> r->0.d > 0,
{
    let a = match x.n.checked_mul(y.d) {
        Some(v) => v,
        None => { return None; },
    };
    let b = match y.n.checked_mul(x.d) {
        Some(v) => v,
        None => { return None; },
    };
    let n = match a.checked_sub(b) {
        Some(v) => v,
        None => { return None; },
    };
    let d = match x.d.checked_mul(y.d) {
        Some(v) => v,
        None => { return None; },
    };
    assert(d > 0) by (nonlinear_arith)
        requires
            x.d > 0,
            y.d > 0,
            d == x.d * y.d,
    ;
    Some(reduce(Frac { n, d }))
}

/// Divides two fractions; `None` when the divisor is zero or the products
/// leave `i128`.
fn f_div(x: Frac, y: Frac) -> (r: Option<Frac>)
    requires
        x.d > 0,
        y.d > 0,
    ensures
        r is Some ==> r->0.d > 0,
{
    if y.n == 0 {
        return None;
    }
    let n0 = match x.n.checked_mul(y.d) {
        Some(v) => v,
        None => { return None; },
    };
    let d0 = match x.d.checked_mul(y.n) {
        Some(v) => v,
        None => { return None; },
    };
    // Keep the denominator positive.
    if d0 > 0 {
        Some(reduce(Frac { n: n0, d: d0 }))
    } else {
        let n1 = match 0i128.checked_sub(n0) {
            Some(v) => v,
            None => { return None; },
        };
        let d1 = match 0i128.checked_sub(d0) {
            Some(v) => v,
            None => { return None; },
        };
        if d1 <= 0 {
            return None;
        }
        Some(reduce(Frac { n: n1, d: d1 }))
    }
}

/// Every row of the fraction matrix has `cols` entries, each with a
/// positive denominator.
spec fn mat_wf(m: Seq<Vec<Frac>>, cols: int) -> bool {
    forall|i: int|
        0 <= i < m.len() ==> (#[trigger] m[i]@).len() == cols && forall|j: int|
            0 <= j < cols ==> (#[trigger] m[i]@[j]).d > 0
}

/// Copies row `i` of the matrix.
fn copy_row(m: &Vec<Vec<Frac>>, i: usize, cols: usize) -> (r: Vec<Frac>)
    requires
        0 <= i < m@.len(),
        mat_wf(m@, cols as int),
    ensures
        r@ == m@[i as int]@,
{
    let row = &m[i];
    let mut out: Vec<Frac> = Vec::new();
    let mut j: usize = 0;
    while j < cols
        invariant
            cols == row@.len(),
            0 <= j <= cols,
            out@ == row@.take(j as int),
        decreases cols - j,
    {
        out.push(row[j]);
        proof {
            assert(row@.take(j + 1) =~= row@.take(j as int).push(row@[j as int]));
        }
        j = j + 1;
    }
    proof {
        assert(row@.take(cols as int) =~= row@);
    }
    out
}

/// Solves the square integer system `a . x == b` exactly, returning the
/// solution as integer numerators over one positive common denominator:
/// `Some((nums, den))` means the rational vector `nums / den` solves the
/// system, which the function has verified by substitution. `None` means
/// no solution was certified: the matrix was singular or malformed, or an
/// intermediate value left the fixed-width arithmetic.
pub fn solve_exact(a: &Vec<Vec<i128>>, b: &Vec<i128>) -> (r: Option<(Vec<i128>, i128)>)
    ensures
        r matches Some(sol) ==> {
            &&& sol.1 > 0
            &&& sol.0@.len() == b@.len()
            &&& a@.len() == b@.len()
            &&& exact_solution(a@, b@, sol.0@, sol.1 as int)
        },
{
    let n = b.len();
    if a.len() != n || n == usize::MAX {
        return None;
    }
    // Build the augmented matrix of fractions.
    let mut m: Vec<Vec<Frac>> = Vec::new();
    let mut i: usize = 0;
    while i < n
        invariant
            n == a@.len() == b@.len(),
            0 <= i <= n,
            m@.len() == i,
            mat_wf(m@, n + 1),
        decreases n - i,
    {
        let row = &a[i];
        if row.len() != n {
            return None;
        }
        let mut fr: Vec<Frac> = Vec::new();
        let mut j: usize = 0;
        while j < n
            invariant
                n == row@.len(),
                0 <= j <= n,
                fr@.len() == j,
                forall|t: int| 0 <= t < j ==> (#[trigger] fr@[t]).d > 0,
            decreases n - j,
        {
            fr.push(Frac { n: row[j], d: 1 });
            j = j + 1;
        }
        fr.push(Frac { n: b[i], d: 1 });
        m.push(fr);
        i = i + 1;
    }

    // Forward elimination with pivot search.
    let mut col: usize = 0;
    while col < n
        invariant
            m@.len() == n,
            mat_wf(m@, n + 1),
            n < usize::MAX,
            0 <= col <= n,
        decreases n - col,
    {
        // Find a usable pivot row.
        let mut piv: usize = col;
        let mut found: bool = false;
        let mut r0: usize = col;
        while r0 < n
            invariant
                m@.len() == n,
                mat_wf(m@, n + 1),
                col <= r0 <= n,
                col < n,
                found ==> col <= piv < n,
            decreases n - r0,
        {
            if !found {
                let row = &m[r0];
                if row[col].n != 0 {
                    piv = r0;
                    found = true;
                }
            }
            r0 = r0 + 1;
        }
        if !found {
            return None;
        }
        if piv != col {
            let rp = copy_row(&m, piv, n + 1);
            let rc = copy_row(&m, col, n + 1);
            m.set(col, rp);
            m.set(piv, rc);
        }
        // Eliminate below the pivot.
        let mut row_i: usize = col + 1;
        while row_i < n
            invariant
                m@.len() == n,
                mat_wf(m@, n + 1),
                n < usize::MAX,
                col < n,
                col + 1 <= row_i <= n,
            decreases n - row_i,
        {
            let pivot = m[col][col];
            let lead = m[row_i][col];
            if lead.n != 0 {
                let factor = match f_div(Frac { n: lead.n, d: lead.d }, Frac {
                    n: pivot.n,
                    d: pivot.d,
                }) {
                    Some(f) => f,
                    None => { return None; },
                };
                let mut newrow: Vec<Frac> = Vec::new();
                let mut k: usize = 0;
                while k < n + 1
                    invariant
                        m@.len() == n,
                        mat_wf(m@, n + 1),
                        n < usize::MAX,
                        col < n,
                        col + 1 <= row_i < n,
                        factor.d > 0,
                        0 <= k <= n + 1,
                        newrow@.len() == k,
                        forall|t: int| 0 <= t < k ==> (#[trigger] newrow@[t]).d > 0,
                    decreases n + 1 - k,
                {
                    let t = match f_mul(factor, m[col][k]) {
                        Some(v) => v,
                        None => { return None; },
                    };
                    let e = match f_sub(m[row_i][k], t) {
                        Some(v) => v,
                        None => { return None; },
                    };
                    newrow.push(e);
                    k = k + 1;
                }
                m.set(row_i, newrow);
            }
            row_i = row_i + 1;
        }
        col = col + 1;
    }

    // Back substitution.
    let mut x: Vec<Frac> = Vec::new();
    let mut t0: usize = 0;
    while t0 < n
        invariant
            0 <= t0 <= n,
            x@.len() == t0,
            forall|t: int| 0 <= t < t0 ==> (#[trigger] x@[t]).d > 0,
        decreases n - t0,
    {
        x.push(Frac { n: 0, d: 1 });
        t0 = t0 + 1;
    }
    let mut back: usize = 0;
    while back < n
        invariant
            m@.len() == n,
            mat_wf(m@, n + 1),
            0 <= back <= n,
            x@.len() == n,
            forall|t: int| 0 <= t < n ==> (#[trigger] x@[t]).d > 0,
        decreases n - back,
    {
        let i2 = n - 1 - back;
        let mut acc = m[i2][n];
        let mut j2: usize = i2 + 1;
        while j2 < n
            invariant
                m@.len() == n,
                mat_wf(m@, n + 1),
                i2 < n,
                i2 + 1 <= j2 <= n,
                acc.d > 0,
                x@.len() == n,
                forall|t: int| 0 <= t < n ==> (#[trigger] x@[t]).d > 0,
            decreases n - j2,
        {
            let t = match f_mul(m[i2][j2], x[j2]) {
                Some(v) => v,
                None => { return None; },
            };
            acc = match f_sub(acc, t) {
                Some(v) => v,
                None => { return None; },
            };
            j2 = j2 + 1;
        }
        let xi = match f_div(acc, m[i2][i2]) {
            Some(v) => v,
            None => { return None; },
        };
        x.set(i2, xi);
        back = back + 1;
    }

    // Bring the solution to one positive common denominator.
    let mut q: i128 = 1;
    let mut t1: usize = 0;
    while t1 < n
        invariant
            x@.len() == n,
            forall|t: int| 0 <= t < n ==> (#[trigger] x@[t]).d > 0,
            0 <= t1 <= n,
            q > 0,
        decreases n - t1,
    {
        let d = x[t1].d;
        let q2 = match q.checked_mul(d) {
            Some(v) => v,
            None => { return None; },
        };
        assert(q2 > 0) by (nonlinear_arith)
            requires
                q > 0,
                d > 0,
                q2 == q * d,
        ;
        q = q2;
        t1 = t1 + 1;
    }
    let mut nums: Vec<i128> = Vec::new();
    let mut t2: usize = 0;
    while t2 < n
        invariant
            x@.len() == n,
            forall|t: int| 0 <= t < n ==> (#[trigger] x@[t]).d > 0,
            0 <= t2 <= n,
            q > 0,
            nums@.len() == t2,
        decreases n - t2,
    {
        let scale = q / x[t2].d;
        let v = match x[t2].n.checked_mul(scale) {
            Some(v) => v,
            None => { return None; },
        };
        nums.push(v);
        t2 = t2 + 1;
    }

    // Accept the candidate only if it exactly satisfies the input system.
    if check_solution(a, b, &nums, q) {
        Some((nums, q))
    } else {
        None
    }
}

} // verus!

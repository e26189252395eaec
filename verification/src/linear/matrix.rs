//! Dense matrices stored row by row.

use vstd::prelude::*;
use std::ops::Neg;
use vstd::std_specs::ops::{AddSpec, MulSpec, NegSpec, SubSpec};
use crate::algebra::Rig;

verus! {

/// Position `(i, j)` of a matrix with `h` rows of `w` entries lies within
/// its row-major store.
pub proof fn lemma_entry_index(h: int, w: int, i: int, j: int)
    requires
        0 <= i < h,
        0 <= j < w,
    ensures
        0 <= i * w + j < h * w,
        i * w + w <= h * w,
        i * w >= 0,
{
    assert(i * w + w <= h * w) by (nonlinear_arith)
        requires
            i + 1 <= h,
            w >= 0,
    ;
    assert(i * w >= 0) by (nonlinear_arith)
        requires
            i >= 0,
            w >= 0,
    ;
}

/// The rows of a row-major store of `h` rows of `w` entries.
pub open spec fn rows_of<T>(h: int, w: int, data: Seq<T>) -> Seq<Seq<T>> {
    Seq::new(h as nat, |i: int| Seq::new(w as nat, |j: int| data[i * w + j]))
}

/// A matrix with `h` rows and `w` columns.
pub struct Matrix<T: Copy> {
    h: usize,
    w: usize,
    data: Vec<T>,
}

impl<T: Copy> View for Matrix<T> {
    type V = Seq<Seq<T>>;

    /// The rows of the matrix, each a sequence of `w` entries.
    closed spec fn view(&self) -> Seq<Seq<T>> {
        rows_of(self.h as int, self.w as int, self.data@)
    }
}

impl<T: Copy> Clone for Matrix<T> {
    /// Returns a matrix with the same shape and entries.
    fn clone(&self) -> (res: Self)
        ensures
            res.wf() == self.wf(),
            res@ == self@,
            res.width() == self.width(),
            res.entries() == self.entries(),
    {
        let n = self.data.len();
        let mut data: Vec<T> = Vec::with_capacity(n);
        let mut t: usize = 0;
        while t < n
            invariant
                n == self.data@.len(),
                t <= n,
                data@ == self.data@.subrange(0, t as int),
            decreases n - t,
        {
            data.push(self.data[t]);
            proof {
                assert(data@ =~= self.data@.subrange(0, t + 1));
            }
            t += 1;
        }
        proof {
            assert(data@ =~= self.data@);
        }
        Matrix { h: self.h, w: self.w, data }
    }
}

impl<T: Copy> Matrix<T> {
    /// The store holds exactly `h * w` entries.
    pub closed spec fn wf(&self) -> bool {
        &&& self.data@.len() == self.h * self.w
        &&& self.h * self.w <= usize::MAX
    }

    /// The number of columns.
    pub closed spec fn width(&self) -> nat {
        self.w as nat
    }

    /// The entries in row-major order.
    pub closed spec fn entries(&self) -> Seq<T> {
        self.data@
    }

    /// The rows are the entries taken `width` at a time.
    pub proof fn lemma_rows(&self)
        ensures
            self@ == rows_of(self@.len() as int, self.width() as int, self.entries()),
            self.wf() ==> self.entries().len() == self@.len() * self.width(),
    {
    }

    /// The view has `h` rows of `w` entries each.
    pub proof fn lemma_shape(&self)
        ensures
            forall|i: int| 0 <= i < self@.len() ==> (#[trigger] self@[i]).len() == self.width(),
    {
    }

    /// Copies the rows of `a` into one row-major store.
    fn flatten(a: &[Vec<T>]) -> (res: Vec<T>)
        requires
            a@.len() > 0,
            forall|i: int| 0 <= i < a@.len() ==> (#[trigger] a@[i])@.len() == a@[0]@.len(),
            a@.len() * a@[0]@.len() <= usize::MAX,
        ensures
            res@.len() == a@.len() * a@[0]@.len(),
            forall|i: int, j: int|
                0 <= i < a@.len() && 0 <= j < a@[0]@.len() ==> res@[i * a@[0]@.len() + j]
                    == #[trigger] a@[i]@[j],
    {
        let h = a.len();
        let w = a[0].len();
        let mut data: Vec<T> = Vec::new();
        let mut i: usize = 0;
        while i < h
            invariant
                h == a@.len(),
                w == a@[0]@.len(),
                i <= h,
                h * w <= usize::MAX,
                forall|k: int| 0 <= k < a@.len() ==> (#[trigger] a@[k])@.len() == w,
                data@.len() == i * w,
                forall|k: int, j: int|
                    0 <= k < i && 0 <= j < w ==> data@[k * w + j] == #[trigger] a@[k]@[j],
            decreases h - i,
        {
            let row = &a[i];
            let mut j: usize = 0;
            while j < w
                invariant
                    h == a@.len(),
                    i < h,
                    j <= w,
                    row@ == a@[i as int]@,
                    row@.len() == w,
                    data@.len() == i * w + j,
                    forall|k: int, c: int|
                        0 <= k < i && 0 <= c < w ==> data@[k * w + c] == #[trigger] a@[k]@[c],
                    forall|c: int| 0 <= c < j ==> data@[i * w + c] == #[trigger] row@[c],
                decreases w - j,
            {
                let ghost prev = data@;
                data.push(row[j]);
                proof {
                    assert forall|k: int, c: int| 0 <= k < i && 0 <= c < w implies data@[k * w + c]
                        == #[trigger] a@[k]@[c] by {
                        lemma_entry_index(i as int, w as int, k, c);
                        assert(prev[k * w + c] == a@[k]@[c]);
                    }
                }
                j += 1;
            }
            proof {
                assert((i + 1) * w == i * w + w) by (nonlinear_arith);
            }
            i += 1;
        }
        data
    }

    /// Creates a matrix from its rows.
    pub fn from_vec(a: Vec<Vec<T>>) -> (res: Self)
        requires
            a@.len() > 0,
            a@[0]@.len() > 0,
            forall|i: int| 0 <= i < a@.len() ==> (#[trigger] a@[i])@.len() == a@[0]@.len(),
            a@.len() * a@[0]@.len() <= usize::MAX,
        ensures
            res.wf(),
            res@.len() == a@.len(),
            res.width() == a@[0]@.len(),
            forall|i: int| 0 <= i < a@.len() ==> #[trigger] res@[i] == a@[i]@,
    {
        Self::from_slice(a.as_slice())
    }

    /// Creates a matrix from a slice of its rows.
    pub fn from_slice(a: &[Vec<T>]) -> (res: Self)
        requires
            a@.len() > 0,
            a@[0]@.len() > 0,
            forall|i: int| 0 <= i < a@.len() ==> (#[trigger] a@[i])@.len() == a@[0]@.len(),
            a@.len() * a@[0]@.len() <= usize::MAX,
        ensures
            res.wf(),
            res@.len() == a@.len(),
            res.width() == a@[0]@.len(),
            forall|i: int| 0 <= i < a@.len() ==> #[trigger] res@[i] == a@[i]@,
    {
        let h = a.len();
        let w = a[0].len();
        let data = Self::flatten(a);
        let res = Matrix { h, w, data };
        proof {
            assert forall|i: int| 0 <= i < a@.len() implies #[trigger] res@[i] == a@[i]@ by {
                assert forall|j: int| 0 <= j < w implies res@[i][j] == a@[i]@[j] by {}
                assert(res@[i] =~= a@[i]@);
            }
        }
        res
    }

    /// Creates a matrix with `h` rows and `w` columns from its entries in
    /// row-major order.
    pub fn from_flat(h: usize, w: usize, data: Vec<T>) -> (res: Self)
        requires
            data@.len() == h * w,
        ensures
            res.wf(),
            res@ == rows_of(h as int, w as int, data@),
            res.width() == w,
            res.entries() == data@,
    {
        proof {
            assert(data.len() == data@.len());
        }
        Matrix { h, w, data }
    }

    /// Returns the number of rows.
    pub fn h(&self) -> (res: usize)
        ensures
            res == self@.len(),
    {
        self.h
    }

    /// Returns the number of columns.
    pub fn w(&self) -> (res: usize)
        ensures
            res == self.width(),
    {
        self.w
    }

    /// Returns whether the matrix has as many rows as columns.
    pub fn is_square(&self) -> (res: bool)
        ensures
            res == (self@.len() == self.width()),
    {
        self.h() == self.w()
    }

    /// Returns row `i`.
    pub fn row(&self, i: usize) -> (res: &[T])
        requires
            self.wf(),
            i < self@.len(),
        ensures
            res@ == self@[i as int],
    {
        proof {
            assert(0 <= i * self.w <= (i + 1) * self.w <= self.h * self.w) by (nonlinear_arith)
                requires
                    0 <= i < self.h,
                    0 <= self.w,
            ;
            assert((i + 1) * self.w == i * self.w + self.w) by (nonlinear_arith);
        }
        let res = vstd::slice::slice_subrange(self.data.as_slice(), i * self.w, (i + 1) * self.w);
        proof {
            assert(res@ =~= self@[i as int]);
        }
        res
    }

    /// Returns the rows, first to last.
    pub fn iter(&self) -> (res: Vec<&[T]>)
        requires
            self.wf(),
        ensures
            res@.len() == self@.len(),
            forall|i: int| 0 <= i < self@.len() ==> (#[trigger] res@[i])@ == self@[i],
    {
        let mut rows: Vec<&[T]> = Vec::new();
        let mut i: usize = 0;
        while i < self.h
            invariant
                self.wf(),
                i <= self.h,
                self.h == self@.len(),
                rows@.len() == i,
                forall|k: int| 0 <= k < i ==> (#[trigger] rows@[k])@ == self@[k],
            decreases self.h - i,
        {
            rows.push(self.row(i));
            i += 1;
        }
        rows
    }

    /// Returns the entry in row `i` and column `j`.
    pub fn at(&self, i: usize, j: usize) -> (res: T)
        requires
            self.wf(),
            i < self@.len(),
            j < self.width(),
        ensures
            res == self@[i as int][j as int],
    {
        proof {
            lemma_entry_index(self.h as int, self.w as int, i as int, j as int);
        }
        self.data[i * self.w + j]
    }
}

impl<T: Rig> Matrix<T> {
    /// Creates the matrix with `h` rows and `w` columns all of whose
    /// entries are the zero of `T`.
    pub fn zero(h: usize, w: usize) -> (res: Self)
        requires
            h * w <= usize::MAX,
        ensures
            res.wf(),
            res@.len() == h,
            res.width() == w,
            forall|i: int, j: int|
                0 <= i < h && 0 <= j < w ==> #[trigger] res@[i][j] == T::zero_spec(),
    {
        let total = h * w;
        let z = T::zero();
        let mut data: Vec<T> = Vec::new();
        let mut k: usize = 0;
        while k < total
            invariant
                k <= total,
                z == T::zero_spec(),
                data@.len() == k,
                forall|c: int| 0 <= c < k ==> data@[c] == T::zero_spec(),
            decreases total - k,
        {
            data.push(z);
            k += 1;
        }
        let res = Matrix { h, w, data };
        proof {
            assert forall|i: int, j: int| 0 <= i < h && 0 <= j < w implies #[trigger] res@[i][j]
                == T::zero_spec() by {
                lemma_entry_index(h as int, w as int, i, j);
            }
        }
        res
    }
}

/// Sums and products of `T` are always defined and are what the
/// specification of `T` says.
pub open spec fn total_rig<T: Rig>() -> bool {
    &&& T::obeys_add_spec()
    &&& T::obeys_mul_spec()
    &&& forall|a: T, b: T| #[trigger] a.add_req(b)
    &&& forall|a: T, b: T| #[trigger] a.mul_req(b)
}

/// The sum of the products `a[0] * b[0][k]`, ..., `a[j - 1] * b[j - 1][k]`,
/// accumulated from zero in that order.
pub open spec fn dot<T: Rig>(a: Seq<T>, b: Seq<Seq<T>>, k: int, j: nat) -> T
    decreases j,
{
    if j == 0 {
        T::zero_spec()
    } else {
        dot(a, b, k, (j - 1) as nat).add_spec(a[j - 1].mul_spec(b[j - 1][k]))
    }
}

impl<T: Rig> vstd::std_specs::ops::MulSpecImpl for Matrix<T> {
    open spec fn obeys_mul_spec() -> bool {
        false
    }

    open spec fn mul_req(self, rhs: Self) -> bool {
        &&& self.wf()
        &&& rhs.wf()
        &&& self.width() == rhs@.len()
        &&& self@.len() * rhs.width() <= usize::MAX
        &&& total_rig::<T>()
    }

    open spec fn mul_spec(self, rhs: Self) -> Self {
        self
    }
}

impl<T: Rig> std::ops::Mul for Matrix<T> {
    type Output = Self;

    /// Returns the matrix product: entry `(i, k)` is the sum over `j` of
    /// `self[i][j] * rhs[j][k]`.
    fn mul(self, rhs: Self) -> (res: Self)
        ensures
            res.wf(),
            res@.len() == self@.len(),
            res.width() == rhs.width(),
            forall|i: int, k: int|
                0 <= i < self@.len() && 0 <= k < rhs.width() ==> #[trigger] res@[i][k] == dot(
                    self@[i],
                    rhs@,
                    k,
                    self.width(),
                ),
    {
        let h = self.h;
        let w = rhs.w;
        let d = self.w;
        let mut data: Vec<T> = Vec::new();
        let mut i: usize = 0;
        while i < h
            invariant
                self.wf(),
                rhs.wf(),
                total_rig::<T>(),
                h == self.h,
                w == rhs.w,
                d == self.w,
                d == rhs.h,
                h * w <= usize::MAX,
                i <= h,
                data@.len() == i * w,
                forall|r: int, k: int|
                    0 <= r < i && 0 <= k < w ==> #[trigger] data@[r * w + k] == dot(
                        self@[r],
                        rhs@,
                        k,
                        d as nat,
                    ),
            decreases h - i,
        {
            let mut k: usize = 0;
            while k < w
                invariant
                    self.wf(),
                    rhs.wf(),
                    total_rig::<T>(),
                    h == self.h,
                    w == rhs.w,
                    d == self.w,
                    d == rhs.h,
                    h * w <= usize::MAX,
                    i < h,
                    k <= w,
                    data@.len() == i * w + k,
                    forall|r: int, c: int|
                        0 <= r < i && 0 <= c < w ==> #[trigger] data@[r * w + c] == dot(
                            self@[r],
                            rhs@,
                            c,
                            d as nat,
                        ),
                    forall|c: int|
                        0 <= c < k ==> #[trigger] data@[i * w + c] == dot(
                            self@[i as int],
                            rhs@,
                            c,
                            d as nat,
                        ),
                decreases w - k,
            {
                let mut x = T::zero();
                let mut j: usize = 0;
                while j < d
                    invariant
                        self.wf(),
                        rhs.wf(),
                        total_rig::<T>(),
                        h == self.h,
                        w == rhs.w,
                        d == self.w,
                        d == rhs.h,
                        i < h,
                        k < w,
                        j <= d,
                        x == dot(self@[i as int], rhs@, k as int, j as nat),
                    decreases d - j,
                {
                    x = x + self.at(i, j) * rhs.at(j, k);
                    j += 1;
                }
                let ghost prev = data@;
                data.push(x);
                proof {
                    assert forall|r: int, c: int| 0 <= r < i && 0 <= c < w implies #[trigger] data@[r
                        * w + c] == dot(self@[r], rhs@, c, d as nat) by {
                        lemma_entry_index(i as int, w as int, r, c);
                        assert(prev[r * w + c] == dot(self@[r], rhs@, c, d as nat));
                    }
                }
                k += 1;
            }
            proof {
                assert((i + 1) * w == i * w + w) by (nonlinear_arith);
                assert((i + 1) * w <= h * w) by (nonlinear_arith)
                    requires
                        i + 1 <= h,
                        w >= 0,
                ;
            }
            i += 1;
        }
        let res = Matrix { h, w, data };
        proof {
            assert forall|r: int, k: int| 0 <= r < h && 0 <= k < w implies #[trigger] res@[r][k]
                == dot(self@[r], rhs@, k, d as nat) by {
                lemma_entry_index(h as int, w as int, r, k);
            }
        }
        res
    }
}

/// The identity matrix of size `n`, row by row.
pub open spec fn identity_rows<T: Rig>(n: nat) -> Seq<Seq<T>> {
    Seq::new(
        n,
        |i: int|
            Seq::new(
                n,
                |j: int|
                    if i == j {
                        T::one_spec()
                    } else {
                        T::zero_spec()
                    },
            ),
    )
}

/// The product of two matrices given by their rows, the second with `w`
/// columns.
pub open spec fn product_rows<T: Rig>(a: Seq<Seq<T>>, b: Seq<Seq<T>>, w: nat) -> Seq<Seq<T>> {
    Seq::new(a.len(), |i: int| Seq::new(w, |k: int| dot(a[i], b, k, b.len())))
}

/// `acc * base^exp` for square matrices of size `n` given by their rows,
/// by repeated squaring: the lowest bit of `exp` decides whether `base` is
/// multiplied into `acc`, then `base` is squared and `exp` halved.
pub open spec fn power_rows<T: Rig>(acc: Seq<Seq<T>>, base: Seq<Seq<T>>, exp: nat, n: nat) -> Seq<
    Seq<T>,
>
    decreases exp,
{
    if exp == 0 {
        acc
    } else {
        power_rows(
            if exp % 2 == 1 {
                product_rows(acc, base, n)
            } else {
                acc
            },
            product_rows(base, base, n),
            exp / 2,
            n,
        )
    }
}

impl<T: Rig> Matrix<T> {
    /// Creates the identity matrix of size `n`.
    pub fn id(n: usize) -> (res: Self)
        requires
            n * n <= usize::MAX,
        ensures
            res.wf(),
            res.width() == n,
            res@ == identity_rows::<T>(n as nat),
    {
        let zero = T::zero();
        let one = T::one();
        let mut data: Vec<T> = Vec::new();
        let mut i: usize = 0;
        while i < n
            invariant
                i <= n,
                n * n <= usize::MAX,
                zero == T::zero_spec(),
                one == T::one_spec(),
                data@.len() == i * n,
                forall|r: int, c: int|
                    0 <= r < i && 0 <= c < n ==> #[trigger] data@[r * n + c] == if r == c {
                        T::one_spec()
                    } else {
                        T::zero_spec()
                    },
            decreases n - i,
        {
            let mut j: usize = 0;
            while j < n
                invariant
                    i < n,
                    j <= n,
                    zero == T::zero_spec(),
                    one == T::one_spec(),
                    data@.len() == i * n + j,
                    forall|r: int, c: int|
                        0 <= r < i && 0 <= c < n ==> #[trigger] data@[r * n + c] == if r == c {
                            T::one_spec()
                        } else {
                            T::zero_spec()
                        },
                    forall|c: int|
                        0 <= c < j ==> #[trigger] data@[i * n + c] == if i == c {
                            T::one_spec()
                        } else {
                            T::zero_spec()
                        },
                decreases n - j,
            {
                let ghost prev = data@;
                data.push(
                    if i == j {
                        one
                    } else {
                        zero
                    },
                );
                proof {
                    assert forall|r: int, c: int| 0 <= r < i && 0 <= c < n implies #[trigger] data@[r
                        * n + c] == if r == c {
                        T::one_spec()
                    } else {
                        T::zero_spec()
                    } by {
                        lemma_entry_index(i as int, n as int, r, c);
                        assert(prev[r * n + c] == if r == c {
                            T::one_spec()
                        } else {
                            T::zero_spec()
                        });
                    }
                }
                j += 1;
            }
            proof {
                assert((i + 1) * n == i * n + n) by (nonlinear_arith);
            }
            i += 1;
        }
        let res = Matrix { h: n, w: n, data };
        proof {
            assert forall|r: int| 0 <= r < n implies #[trigger] res@[r] == identity_rows::<T>(
                n as nat,
            )[r] by {
                assert forall|c: int| 0 <= c < n implies res@[r][c] == identity_rows::<T>(
                    n as nat,
                )[r][c] by {
                    lemma_entry_index(n as int, n as int, r, c);
                }
                assert(res@[r] =~= identity_rows::<T>(n as nat)[r]);
            }
            assert(res@ =~= identity_rows::<T>(n as nat));
        }
        res
    }

    /// Returns `self` to the power `exp`, computed by repeated squaring.
    pub fn pow(&self, exp: u64) -> (res: Self)
        requires
            self.wf(),
            self@.len() == self.width(),
            total_rig::<T>(),
        ensures
            res.wf(),
            res@.len() == self@.len(),
            res.width() == self.width(),
            res@ == power_rows(
                identity_rows::<T>(self@.len()),
                self@,
                exp as nat,
                self@.len(),
            ),
    {
        let n = self.h;
        let ghost full = exp as nat;
        let mut exp = exp;
        let mut base = self.clone();
        let mut res = Self::id(n);
        while exp > 0
            invariant
                total_rig::<T>(),
                n == self@.len(),
                base.wf(),
                res.wf(),
                n * n <= usize::MAX,
                base@.len() == n,
                base.width() == n,
                res@.len() == n,
                res.width() == n,
                power_rows(res@, base@, exp as nat, n as nat) == power_rows(
                    identity_rows::<T>(n as nat),
                    self@,
                    full,
                    n as nat,
                ),
            decreases exp,
        {
            let ghost res0 = res@;
            let ghost base0 = base@;
            if exp % 2 == 1 {
                let next = res * base.clone();
                proof {
                    Self::lemma_product(res0, base0, next@, n as nat);
                }
                res = next;
            }
            let square = base.clone() * base;
            proof {
                Self::lemma_product(base0, base0, square@, n as nat);
            }
            base = square;
            exp = exp / 2;
        }
        res
    }

    /// A matrix whose entries are the sums of products of `a` and `b` is
    /// their product.
    proof fn lemma_product(a: Seq<Seq<T>>, b: Seq<Seq<T>>, c: Seq<Seq<T>>, n: nat)
        requires
            a.len() == n,
            b.len() == n,
            c.len() == n,
            forall|i: int| 0 <= i < n ==> (#[trigger] c[i]).len() == n,
            forall|i: int, k: int|
                0 <= i < n && 0 <= k < n ==> #[trigger] c[i][k] == dot(a[i], b, k, n),
        ensures
            c == product_rows(a, b, n),
    {
        assert forall|i: int| 0 <= i < n implies #[trigger] c[i] == product_rows(a, b, n)[i] by {
            assert(c[i] =~= product_rows(a, b, n)[i]);
        }
        assert(c =~= product_rows(a, b, n));
    }
}

impl<T: Copy + std::ops::Neg<Output = T>> vstd::std_specs::ops::NegSpecImpl for Matrix<T> {
    open spec fn obeys_neg_spec() -> bool {
        false
    }

    open spec fn neg_req(self) -> bool {
        forall|t: int| 0 <= t < self.entries().len() ==> (#[trigger] self.entries()[t]).neg_req()
    }

    open spec fn neg_spec(self) -> Self {
        self
    }
}

impl<T: Copy + std::ops::Neg<Output = T>> std::ops::Neg for Matrix<T> {
    type Output = Self;

    /// Returns the matrix with every entry negated.
    fn neg(self) -> (res: Self)
        ensures
            res.wf() == self.wf(),
            res@.len() == self@.len(),
            res.width() == self.width(),
            res.entries().len() == self.entries().len(),
            T::obeys_neg_spec() ==> forall|t: int|
                0 <= t < self.entries().len() ==> #[trigger] res.entries()[t]
                    == self.entries()[t].neg_spec(),
    {
        let n = self.data.len();
        let mut data: Vec<T> = Vec::with_capacity(n);
        let mut t: usize = 0;
        while t < n
            invariant
                n == self.data@.len(),
                t <= n,
                data@.len() == t,
                forall|u: int|
                    0 <= u < self.entries().len() ==> (#[trigger] self.entries()[u]).neg_req(),
                T::obeys_neg_spec() ==> forall|u: int|
                    0 <= u < t ==> #[trigger] data@[u] == self.data@[u].neg_spec(),
            decreases n - t,
        {
            proof {
                assert(self.entries()[t as int].neg_req());
            }
            data.push(self.data[t].neg());
            t += 1;
        }
        Matrix { h: self.h, w: self.w, data }
    }
}

impl<T: Copy + std::ops::Add<Output = T>> vstd::std_specs::ops::AddSpecImpl for Matrix<T> {
    open spec fn obeys_add_spec() -> bool {
        false
    }

    open spec fn add_req(self, rhs: Self) -> bool {
        forall|t: int|
            0 <= t < self.entries().len() && t < rhs.entries().len() ==> (
            #[trigger] self.entries()[t]).add_req(rhs.entries()[t])
    }

    open spec fn add_spec(self, rhs: Self) -> Self {
        self
    }
}

impl<T: Copy + std::ops::Add<Output = T>> std::ops::Add for Matrix<T> {
    type Output = Self;

    /// Returns the matrix of the shape of `self` in which every entry that
    /// `rhs` has an entry for, in row-major order, is the sum of both, and
    /// every other entry is that of `self`.
    fn add(self, rhs: Self) -> (res: Self)
        ensures
            res.wf() == self.wf(),
            res@.len() == self@.len(),
            res.width() == self.width(),
            res.entries().len() == self.entries().len(),
            forall|t: int|
                rhs.entries().len() <= t < self.entries().len() ==> #[trigger] res.entries()[t]
                    == self.entries()[t],
            T::obeys_add_spec() ==> forall|t: int|
                0 <= t < self.entries().len() && t < rhs.entries().len()
                    ==> #[trigger] res.entries()[t] == self.entries()[t].add_spec(
                    rhs.entries()[t],
                ),
    {
        let n = self.data.len();
        let m = rhs.data.len();
        let mut data: Vec<T> = Vec::with_capacity(n);
        let mut t: usize = 0;
        while t < n
            invariant
                n == self.data@.len(),
                m == rhs.data@.len(),
                t <= n,
                data@.len() == t,
                forall|u: int|
                    0 <= u < self.entries().len() && u < rhs.entries().len() ==> (
                    #[trigger] self.entries()[u]).add_req(rhs.entries()[u]),
                forall|u: int| m <= u < t ==> #[trigger] data@[u] == self.data@[u],
                T::obeys_add_spec() ==> forall|u: int|
                    0 <= u < t && u < m ==> #[trigger] data@[u] == self.data@[u].add_spec(
                        rhs.data@[u],
                    ),
            decreases n - t,
        {
            if t < m {
                proof {
                    assert(self.entries()[t as int].add_req(rhs.entries()[t as int]));
                }
                data.push(self.data[t] + rhs.data[t]);
            } else {
                data.push(self.data[t]);
            }
            t += 1;
        }
        Matrix { h: self.h, w: self.w, data }
    }
}

impl<T: Copy + std::ops::Sub<Output = T>> vstd::std_specs::ops::SubSpecImpl for Matrix<T> {
    open spec fn obeys_sub_spec() -> bool {
        false
    }

    open spec fn sub_req(self, rhs: Self) -> bool {
        forall|t: int|
            0 <= t < self.entries().len() && t < rhs.entries().len() ==> (
            #[trigger] self.entries()[t]).sub_req(rhs.entries()[t])
    }

    open spec fn sub_spec(self, rhs: Self) -> Self {
        self
    }
}

impl<T: Copy + std::ops::Sub<Output = T>> std::ops::Sub for Matrix<T> {
    type Output = Self;

    /// Returns the matrix of the shape of `self` in which every entry that
    /// `rhs` has an entry for, in row-major order, is the difference of
    /// both, and every other entry is that of `self`.
    fn sub(self, rhs: Self) -> (res: Self)
        ensures
            res.wf() == self.wf(),
            res@.len() == self@.len(),
            res.width() == self.width(),
            res.entries().len() == self.entries().len(),
            forall|t: int|
                rhs.entries().len() <= t < self.entries().len() ==> #[trigger] res.entries()[t]
                    == self.entries()[t],
            T::obeys_sub_spec() ==> forall|t: int|
                0 <= t < self.entries().len() && t < rhs.entries().len()
                    ==> #[trigger] res.entries()[t] == self.entries()[t].sub_spec(
                    rhs.entries()[t],
                ),
    {
        let n = self.data.len();
        let m = rhs.data.len();
        let mut data: Vec<T> = Vec::with_capacity(n);
        let mut t: usize = 0;
        while t < n
            invariant
                n == self.data@.len(),
                m == rhs.data@.len(),
                t <= n,
                data@.len() == t,
                forall|u: int|
                    0 <= u < self.entries().len() && u < rhs.entries().len() ==> (
                    #[trigger] self.entries()[u]).sub_req(rhs.entries()[u]),
                forall|u: int| m <= u < t ==> #[trigger] data@[u] == self.data@[u],
                T::obeys_sub_spec() ==> forall|u: int|
                    0 <= u < t && u < m ==> #[trigger] data@[u] == self.data@[u].sub_spec(
                        rhs.data@[u],
                    ),
            decreases n - t,
        {
            if t < m {
                proof {
                    assert(self.entries()[t as int].sub_req(rhs.entries()[t as int]));
                }
                data.push(self.data[t] - rhs.data[t]);
            } else {
                data.push(self.data[t]);
            }
            t += 1;
        }
        Matrix { h: self.h, w: self.w, data }
    }
}

} // verus!

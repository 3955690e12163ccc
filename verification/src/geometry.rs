use vstd::prelude::*;
use vstd::std_specs::ops::AddSpec;
use vstd::std_specs::ops::SubSpec;
use vstd::std_specs::ops::MulSpec;
use vstd::std_specs::ops::DivSpec;

verus! {

/// A vector of numbers.
#[derive(Debug)]
pub struct Array<T>(Vec<T>);

impl<T> View for Array<T> {
    type V = Seq<T>;

    closed spec fn view(&self) -> Seq<T> {
        self.0@
    }
}

/// Whether `d` is a value that `T::default()` may return.
pub open spec fn is_default<T: Default>(d: T) -> bool {
    call_ensures(T::default, (), d)
}

/// `&a * &b` is the dot product `a.dot(&b)`.
impl<'a, T> core::ops::Mul for &'a Array<T>
    where T: Copy + core::ops::Add<Output = T> + core::ops::Mul<Output = T> + Default
{
    type Output = T;

    fn mul(self, rhs: Self) -> (r: T)
        ensures
            is_dot_product(r, self@, rhs@, self@.len() as int),
    {
        self.dot(rhs)
    }
}

impl<'a, T> vstd::std_specs::ops::MulSpecImpl for &'a Array<T>
    where T: Copy + core::ops::Add<Output = T> + core::ops::Mul<Output = T> + Default
{
    open spec fn obeys_mul_spec() -> bool {
        false
    }

    open spec fn mul_req(self, rhs: Self) -> bool {
        &&& self@.len() <= rhs@.len()
        &&& T::obeys_add_spec()
        &&& T::obeys_mul_spec()
        &&& forall|d: T| #[trigger] is_default(d) ==> dot_defined(d, self@, rhs@, self@.len() as int)
    }

    open spec fn mul_spec(self, rhs: Self) -> T {
        dot_from(choose|d: T| is_default(d), self@, rhs@, self@.len() as int)
    }
}

/// `&a + &b` is `a.add_elementwise(&b)`.
impl<'a, T> core::ops::Add for &'a Array<T>
    where T: Copy + core::ops::Add<Output = T>
{
    type Output = Array<T>;

    fn add(self, rhs: Self) -> (r: Array<T>)
        ensures
            r@.len() == self@.len(),
            T::obeys_add_spec() ==> forall|i: int| 0 <= i < self@.len() ==>
                #[trigger] r@[i] == self@[i].add_spec(rhs@[i]),
    {
        self.add_elementwise(rhs)
    }
}

impl<'a, T> vstd::std_specs::ops::AddSpecImpl for &'a Array<T>
    where T: Copy + core::ops::Add<Output = T>
{
    open spec fn obeys_add_spec() -> bool {
        false
    }

    open spec fn add_req(self, rhs: Self) -> bool {
        &&& self@.len() <= rhs@.len()
        &&& forall|i: int| 0 <= i < self@.len() ==> (#[trigger] self@[i]).add_req(rhs@[i])
    }

    open spec fn add_spec(self, rhs: Self) -> Array<T> {
        choose|r: Array<T>| r@ == Seq::new(self@.len(), |i: int| self@[i].add_spec(rhs@[i]))
    }
}

/// `&a + x` is `a.add_scalar(x)`.
impl<'a, T> core::ops::Add<T> for &'a Array<T>
    where T: Copy + core::ops::Add<Output = T>
{
    type Output = Array<T>;

    fn add(self, rhs: T) -> (r: Array<T>)
        ensures
            r@.len() == self@.len(),
            T::obeys_add_spec() ==> forall|i: int| 0 <= i < self@.len() ==>
                #[trigger] r@[i] == self@[i].add_spec(rhs),
    {
        self.add_scalar(rhs)
    }
}

impl<'a, T> vstd::std_specs::ops::AddSpecImpl<T> for &'a Array<T>
    where T: Copy + core::ops::Add<Output = T>
{
    open spec fn obeys_add_spec() -> bool {
        false
    }

    open spec fn add_req(self, rhs: T) -> bool {
        forall|i: int| 0 <= i < self@.len() ==> (#[trigger] self@[i]).add_req(rhs)
    }

    open spec fn add_spec(self, rhs: T) -> Array<T> {
        choose|r: Array<T>| r@ == Seq::new(self@.len(), |i: int| self@[i].add_spec(rhs))
    }
}

/// `&a - &b` is `a.sub_elementwise(&b)`.
impl<'a, T> core::ops::Sub for &'a Array<T>
    where T: Copy + core::ops::Sub<Output = T>
{
    type Output = Array<T>;

    fn sub(self, rhs: Self) -> (r: Array<T>)
        ensures
            r@.len() == self@.len(),
            T::obeys_sub_spec() ==> forall|i: int| 0 <= i < self@.len() ==>
                #[trigger] r@[i] == self@[i].sub_spec(rhs@[i]),
    {
        self.sub_elementwise(rhs)
    }
}

impl<'a, T> vstd::std_specs::ops::SubSpecImpl for &'a Array<T>
    where T: Copy + core::ops::Sub<Output = T>
{
    open spec fn obeys_sub_spec() -> bool {
        false
    }

    open spec fn sub_req(self, rhs: Self) -> bool {
        &&& self@.len() <= rhs@.len()
        &&& forall|i: int| 0 <= i < self@.len() ==> (#[trigger] self@[i]).sub_req(rhs@[i])
    }

    open spec fn sub_spec(self, rhs: Self) -> Array<T> {
        choose|r: Array<T>| r@ == Seq::new(self@.len(), |i: int| self@[i].sub_spec(rhs@[i]))
    }
}

/// `&a / x` is `a.div_scalar(x)`.
impl<'a, T> core::ops::Div<T> for &'a Array<T>
    where T: Copy + core::ops::Div<Output = T>
{
    type Output = Array<T>;

    fn div(self, rhs: T) -> (r: Array<T>)
        ensures
            r@.len() == self@.len(),
            T::obeys_div_spec() ==> forall|i: int| 0 <= i < self@.len() ==>
                #[trigger] r@[i] == self@[i].div_spec(rhs),
    {
        self.div_scalar(rhs)
    }
}

impl<'a, T> vstd::std_specs::ops::DivSpecImpl<T> for &'a Array<T>
    where T: Copy + core::ops::Div<Output = T>
{
    open spec fn obeys_div_spec() -> bool {
        false
    }

    open spec fn div_req(self, rhs: T) -> bool {
        forall|i: int| 0 <= i < self@.len() ==> (#[trigger] self@[i]).div_req(rhs)
    }

    open spec fn div_spec(self, rhs: T) -> Array<T> {
        choose|r: Array<T>| r@ == Seq::new(self@.len(), |i: int| self@[i].div_spec(rhs))
    }
}

/// `init + a[0] * b[0] + ... + a[n - 1] * b[n - 1]`, summed from the left, in the
/// element type's own arithmetic.
pub open spec fn dot_from<T: core::ops::Add<Output = T> + core::ops::Mul<Output = T>>(
    init: T,
    a: Seq<T>,
    b: Seq<T>,
    n: int,
) -> T
    decreases n,
{
    if n <= 0 {
        init
    } else {
        dot_from(init, a, b, n - 1).add_spec(a[n - 1].mul_spec(b[n - 1]))
    }
}

/// `r` is `dot_from(d, a, b, n)` for some value `d` of `T::default()`.
pub open spec fn is_dot_product<T: core::ops::Add<Output = T> + core::ops::Mul<Output = T> + Default>(
    r: T,
    a: Seq<T>,
    b: Seq<T>,
    n: int,
) -> bool {
    exists|d: T| is_default(d) && r == dot_from(d, a, b, n)
}

/// A dot product over one more index adds exactly one more product: for every
/// length `n >= 1`, the sum over the first `n` indices is the sum over the first
/// `n - 1` plus `a[n - 1] * b[n - 1]`; over no index it is the starting value.
pub proof fn law_dot_adds_each_product<T: core::ops::Add<Output = T> + core::ops::Mul<Output = T>>(
    init: T,
    a: Seq<T>,
    b: Seq<T>,
    n: int,
)
    requires
        n >= 1,
    ensures
        dot_from(init, a, b, 0) == init,
        dot_from(init, a, b, n) == dot_from(init, a, b, n - 1).add_spec(a[n - 1].mul_spec(b[n - 1])),
{
}

/// A dot product depends only on the first `n` elements of each vector: appending
/// elements leaves it unchanged, and appending one element to each adds its product.
pub proof fn law_dot_append<T: core::ops::Add<Output = T> + core::ops::Mul<Output = T>>(
    init: T,
    a: Seq<T>,
    b: Seq<T>,
    x: T,
    y: T,
)
    requires
        a.len() == b.len(),
    ensures
        dot_from(init, a.push(x), b.push(y), a.len() + 1int)
            == dot_from(init, a, b, a.len() as int).add_spec(x.mul_spec(y)),
{
    lemma_dot_prefix(init, a, b, a.push(x), b.push(y), a.len() as int);
}

/// Dot products over the first `n` indices agree for vectors that agree there.
pub proof fn lemma_dot_prefix<T: core::ops::Add<Output = T> + core::ops::Mul<Output = T>>(
    init: T,
    a: Seq<T>,
    b: Seq<T>,
    a2: Seq<T>,
    b2: Seq<T>,
    n: int,
)
    requires
        0 <= n <= a.len(),
        n <= a2.len(),
        n <= b.len(),
        n <= b2.len(),
        forall|k: int| 0 <= k < n ==> a[k] == a2[k] && b[k] == b2[k],
    ensures
        dot_from(init, a, b, n) == dot_from(init, a2, b2, n),
    decreases n,
{
    if n > 0 {
        lemma_dot_prefix(init, a, b, a2, b2, n - 1);
    }
}

/// Every product and partial sum of `dot_from(init, a, b, n)` is defined.
pub open spec fn dot_defined<T: core::ops::Add<Output = T> + core::ops::Mul<Output = T>>(
    init: T,
    a: Seq<T>,
    b: Seq<T>,
    n: int,
) -> bool {
    forall|k: int| 0 <= k < n ==> {
        &&& (#[trigger] a[k]).mul_req(b[k])
        &&& dot_from(init, a, b, k).add_req(a[k].mul_spec(b[k]))
    }
}

/// `a[1] * b[2] - a[2] * b[1]`, `a[2] * b[0] - a[0] * b[2]`, `a[0] * b[1] - a[1] * b[0]`.
pub open spec fn cross_spec<T: core::ops::Sub<Output = T> + core::ops::Mul<Output = T>>(
    a: Seq<T>,
    b: Seq<T>,
) -> Seq<T> {
    seq![
        a[1].mul_spec(b[2]).sub_spec(a[2].mul_spec(b[1])),
        a[2].mul_spec(b[0]).sub_spec(a[0].mul_spec(b[2])),
        a[0].mul_spec(b[1]).sub_spec(a[1].mul_spec(b[0])),
    ]
}

/// Every product and difference of `cross_spec(a, b)` is defined.
pub open spec fn cross_defined<T: core::ops::Sub<Output = T> + core::ops::Mul<Output = T>>(
    a: Seq<T>,
    b: Seq<T>,
) -> bool {
    &&& a[1].mul_req(b[2]) && a[2].mul_req(b[1])
    &&& a[2].mul_req(b[0]) && a[0].mul_req(b[2])
    &&& a[0].mul_req(b[1]) && a[1].mul_req(b[0])
    &&& a[1].mul_spec(b[2]).sub_req(a[2].mul_spec(b[1]))
    &&& a[2].mul_spec(b[0]).sub_req(a[0].mul_spec(b[2]))
    &&& a[0].mul_spec(b[1]).sub_req(a[1].mul_spec(b[0]))
}

impl<T: Copy> Clone for Array<T> {
    /// A copy with the same elements.
    fn clone(&self) -> (r: Self)
        ensures
            r@ == self@,
    {
        let mut v: Vec<T> = Vec::new();
        let n = self.0.len();
        for i in 0..n
            invariant
                n == self.0@.len(),
                v@ == self.0@.subrange(0, i as int),
        {
            v.push(self.0[i]);
            assert(v@ =~= self.0@.subrange(0, i + 1));
        }
        assert(v@ =~= self.0@);
        Array(v)
    }
}

impl<T> From<Vec<T>> for Array<T> {
    /// The vector's elements, in order.
    fn from(value: Vec<T>) -> (r: Self)
        ensures
            r@ == value@,
    {
        Array(value)
    }
}

impl<T> vstd::std_specs::convert::FromSpecImpl<Vec<T>> for Array<T> {
    open spec fn obeys_from_spec() -> bool {
        false
    }

    open spec fn from_spec(v: Vec<T>) -> Self {
        choose|r: Array<T>| r@ == v@
    }
}

impl<T: Copy> Array<T> {
    /// `len` copies of `T::default()`.
    pub fn new(len: usize) -> (r: Self)
        where T: Default
        ensures
            r@.len() == len,
            forall|i: int| 0 <= i < len ==> is_default(#[trigger] r@[i]),
            forall|i: int, j: int| 0 <= i < len && 0 <= j < len ==> r@[i] == r@[j],
    {
        let d = T::default();
        let mut v: Vec<T> = Vec::new();
        for i in 0..len
            invariant
                v@.len() == i,
                is_default(d),
                forall|j: int| 0 <= j < i ==> #[trigger] v@[j] == d,
        {
            v.push(d);
        }
        Array(v)
    }

    /// An empty vector with room for `size` elements.
    pub fn with_capacity(size: usize) -> (r: Self)
        ensures
            r@.len() == 0,
    {
        Array(Vec::with_capacity(size))
    }

    /// A vector as long as `self` holding the elements of `rhs`, padded with `fill`
    /// where `rhs` is shorter.
    pub fn embed(&self, rhs: &Self, fill: T) -> (r: Self)
        ensures
            r@.len() == self@.len(),
            forall|i: int| 0 <= i < self@.len() ==> #[trigger] r@[i] == (
                if i < rhs@.len() { rhs@[i] } else { fill }),
    {
        let mut v: Vec<T> = Vec::new();
        let n = self.0.len();
        for i in 0..n
            invariant
                n == self.0@.len(),
                v@.len() == i,
                forall|j: int| 0 <= j < i ==> #[trigger] v@[j] == (
                    if j < rhs.0@.len() { rhs.0@[j] } else { fill }),
        {
            if i < rhs.0.len() {
                v.push(rhs.0[i]);
            } else {
                v.push(fill);
            }
        }
        Array(v)
    }

    /// The first `self.len()` elements of `rhs`.
    pub fn proj(&self, rhs: &Self) -> (r: Self)
        requires
            self@.len() <= rhs@.len(),
        ensures
            r@ == rhs@.subrange(0, self@.len() as int),
    {
        let mut v: Vec<T> = Vec::new();
        let n = self.0.len();
        for i in 0..n
            invariant
                n == self.0@.len(),
                n <= rhs.0@.len(),
                v@ == rhs.0@.subrange(0, i as int),
        {
            v.push(rhs.0[i]);
            assert(v@ =~= rhs.0@.subrange(0, i + 1));
        }
        Array(v)
    }

    /// Overwrites element `x`.
    pub fn set(&mut self, x: usize, num: T)
        requires
            x < old(self)@.len(),
        ensures
            final(self)@ == old(self)@.update(x as int, num),
    {
        self.0.set(x, num);
    }

    /// Element `x`.
    pub fn get(&self, x: usize) -> (r: T)
        requires
            x < self@.len(),
        ensures
            r == self@[x as int],
    {
        self.0[x]
    }

    /// `self[i] + rhs[i]` for each index of `self`.
    pub fn add_elementwise(&self, rhs: &Self) -> (r: Self)
        where T: core::ops::Add<Output = T>
        requires
            self@.len() <= rhs@.len(),
            forall|i: int| 0 <= i < self@.len() ==> (#[trigger] self@[i]).add_req(rhs@[i]),
        ensures
            r@.len() == self@.len(),
            T::obeys_add_spec() ==> forall|i: int| 0 <= i < self@.len() ==>
                #[trigger] r@[i] == self@[i].add_spec(rhs@[i]),
    {
        let mut v: Vec<T> = Vec::new();
        let n = self.0.len();
        for i in 0..n
            invariant
                n == self.0@.len(),
                n <= rhs.0@.len(),
                forall|j: int| 0 <= j < n ==> (#[trigger] self.0@[j]).add_req(rhs.0@[j]),
                v@.len() == i,
                T::obeys_add_spec() ==> forall|j: int| 0 <= j < i ==>
                    #[trigger] v@[j] == self.0@[j].add_spec(rhs.0@[j]),
        {
            v.push(self.0[i] + rhs.0[i]);
        }
        Array(v)
    }

    /// `self[i] + rhs` for each index.
    pub fn add_scalar(&self, rhs: T) -> (r: Self)
        where T: core::ops::Add<Output = T>
        requires
            forall|i: int| 0 <= i < self@.len() ==> (#[trigger] self@[i]).add_req(rhs),
        ensures
            r@.len() == self@.len(),
            T::obeys_add_spec() ==> forall|i: int| 0 <= i < self@.len() ==>
                #[trigger] r@[i] == self@[i].add_spec(rhs),
    {
        let mut v: Vec<T> = Vec::new();
        let n = self.0.len();
        for i in 0..n
            invariant
                n == self.0@.len(),
                forall|j: int| 0 <= j < n ==> (#[trigger] self@[j]).add_req(rhs),
                v@.len() == i,
                T::obeys_add_spec() ==> forall|j: int| 0 <= j < i ==>
                    #[trigger] v@[j] == self.0@[j].add_spec(rhs),
        {
            assert(self@[i as int] == self.0@[i as int]);
            v.push(self.0[i] + rhs);
        }
        Array(v)
    }

    /// `self[i] - rhs[i]` for each index of `self`.
    pub fn sub_elementwise(&self, rhs: &Self) -> (r: Self)
        where T: core::ops::Sub<Output = T>
        requires
            self@.len() <= rhs@.len(),
            forall|i: int| 0 <= i < self@.len() ==> (#[trigger] self@[i]).sub_req(rhs@[i]),
        ensures
            r@.len() == self@.len(),
            T::obeys_sub_spec() ==> forall|i: int| 0 <= i < self@.len() ==>
                #[trigger] r@[i] == self@[i].sub_spec(rhs@[i]),
    {
        let mut v: Vec<T> = Vec::new();
        let n = self.0.len();
        for i in 0..n
            invariant
                n == self.0@.len(),
                n <= rhs.0@.len(),
                forall|j: int| 0 <= j < n ==> (#[trigger] self.0@[j]).sub_req(rhs.0@[j]),
                v@.len() == i,
                T::obeys_sub_spec() ==> forall|j: int| 0 <= j < i ==>
                    #[trigger] v@[j] == self.0@[j].sub_spec(rhs.0@[j]),
        {
            v.push(self.0[i] - rhs.0[i]);
        }
        Array(v)
    }

    /// `self[i] / rhs` for each index.
    pub fn div_scalar(&self, rhs: T) -> (r: Self)
        where T: core::ops::Div<Output = T>
        requires
            forall|i: int| 0 <= i < self@.len() ==> (#[trigger] self@[i]).div_req(rhs),
        ensures
            r@.len() == self@.len(),
            T::obeys_div_spec() ==> forall|i: int| 0 <= i < self@.len() ==>
                #[trigger] r@[i] == self@[i].div_spec(rhs),
    {
        let mut v: Vec<T> = Vec::new();
        let n = self.0.len();
        for i in 0..n
            invariant
                n == self.0@.len(),
                forall|j: int| 0 <= j < n ==> (#[trigger] self@[j]).div_req(rhs),
                v@.len() == i,
                T::obeys_div_spec() ==> forall|j: int| 0 <= j < i ==>
                    #[trigger] v@[j] == self.0@[j].div_spec(rhs),
        {
            assert(self@[i as int] == self.0@[i as int]);
            v.push(self.0[i] / rhs);
        }
        Array(v)
    }

    /// The dot product `T::default() + self[0] * rhs[0] + ...` over the indices of `self`.
    pub fn dot(&self, rhs: &Self) -> (r: T)
        where T: core::ops::Add<Output = T> + core::ops::Mul<Output = T> + Default
        requires
            self@.len() <= rhs@.len(),
            T::obeys_add_spec(),
            T::obeys_mul_spec(),
            forall|d: T| #[trigger] is_default(d) ==> dot_defined(d, self@, rhs@, self@.len() as int),
        ensures
            is_dot_product(r, self@, rhs@, self@.len() as int),
    {
        let d = T::default();
        let mut ret = d;
        let n = self.0.len();
        assert(is_default(d));
        assert(n == self@.len());
        for i in 0..n
            invariant
                n == self@.len(),
                n <= rhs@.len(),
                T::obeys_add_spec(),
                T::obeys_mul_spec(),
                is_default(d),
                dot_defined(d, self@, rhs@, n as int),
                ret == dot_from(d, self@, rhs@, i as int),
        {
            assert(self@[i as int] == self.0@[i as int] && rhs@[i as int] == rhs.0@[i as int]);
            ret = ret + self.0[i] * rhs.0[i];
        }
        ret
    }

    /// The cross product of two three-element vectors.
    pub fn cross(&self, rhs: &Self) -> (r: Self)
        where T: core::ops::Sub<Output = T> + core::ops::Mul<Output = T>
        requires
            self@.len() == 3,
            rhs@.len() >= 3,
            T::obeys_mul_spec(),
            T::obeys_sub_spec(),
            cross_defined(self@, rhs@),
        ensures
            r@.len() == 3,
            T::obeys_sub_spec() ==> r@ == cross_spec(self@, rhs@),
    {
        let c0 = self.get(1) * rhs.get(2) - self.get(2) * rhs.get(1);
        let c1 = self.get(2) * rhs.get(0) - self.get(0) * rhs.get(2);
        let c2 = self.get(0) * rhs.get(1) - self.get(1) * rhs.get(0);
        let v = vec![c0, c1, c2];
        assert(v@ =~= cross_spec(self@, rhs@));
        Array::from(v)
    }

    /// The number of elements.
    pub fn len(&self) -> (r: usize)
        ensures
            r == self@.len(),
    {
        self.0.len()
    }
}



/// A matrix of numbers, stored as a vector of rows of `cols` elements each.
#[derive(Debug)]
pub struct Matrix<T> {
    cols: usize,
    rows: Vec<Array<T>>,
}

impl<T> Matrix<T> {
    /// The number of columns.
    pub closed spec fn spec_cols(&self) -> usize {
        self.cols
    }

    /// The rows, each as a sequence of its elements.
    pub closed spec fn entries(&self) -> Seq<Seq<T>> {
        self.rows@.map_values(|r: Array<T>| r@)
    }

    /// The number of rows.
    pub open spec fn spec_rows(&self) -> nat {
        self.entries().len()
    }

    /// Column `j`, top to bottom.
    pub open spec fn column(&self, j: int) -> Seq<T> {
        Seq::new(self.spec_rows(), |k: int| self.entries()[k][j])
    }

    /// Every row has `cols` elements.
    pub open spec fn wf(&self) -> bool {
        forall|i: int| 0 <= i < self.spec_rows() ==> (#[trigger] self.entries()[i]).len() == self.spec_cols()
    }
}

impl<T: Copy> Matrix<T> {
    /// An `nrows` by `ncols` matrix; every element is a value of `T::default()`.
    pub fn new(nrows: usize, ncols: usize) -> (m: Self)
        where T: Default
        ensures
            m.wf(),
            m.spec_rows() == nrows,
            m.spec_cols() == ncols,
            forall|i: int, j: int| 0 <= i < nrows && 0 <= j < ncols ==> is_default(#[trigger] m.entries()[i][j]),
    {
        let mut rows: Vec<Array<T>> = Vec::new();
        for i in 0..nrows
            invariant
                rows@.len() == i,
                forall|k: int| 0 <= k < i ==> (#[trigger] rows@[k])@.len() == ncols,
                forall|k: int, j: int| 0 <= k < i && 0 <= j < ncols ==> is_default(#[trigger] rows@[k]@[j]),
        {
            rows.push(Array::new(ncols));
        }
        let m = Matrix { cols: ncols, rows };
        assert forall|i: int, j: int| 0 <= i < nrows && 0 <= j < ncols implies is_default(#[trigger] m.entries()[i][j]) by {
            assert(m.entries()[i] == m.rows@[i]@);
        }
        m
    }

    /// Element `(y, x)`: row `y`, column `x`.
    pub fn get(&self, y: usize, x: usize) -> (r: T)
        requires
            self.wf(),
            y < self.spec_rows(),
            x < self.spec_cols(),
        ensures
            r == self.entries()[y as int][x as int],
    {
        assert(self.entries()[y as int] == self.rows@[y as int]@);
        self.rows[y].get(x)
    }

    /// Overwrites element `(y, x)`.
    pub fn set(&mut self, y: usize, x: usize, num: T)
        requires
            old(self).wf(),
            y < old(self).spec_rows(),
            x < old(self).spec_cols(),
        ensures
            final(self).wf(),
            final(self).spec_cols() == old(self).spec_cols(),
            final(self).entries() == old(self).entries().update(
                y as int, old(self).entries()[y as int].update(x as int, num)),
    {
        let ghost old_entries = self.entries();
        assert(self.entries()[y as int] == self.rows@[y as int]@);
        let mut row = self.rows[y].clone();
        row.set(x, num);
        self.rows.set(y, row);
        assert(self.entries() =~= old_entries.update(y as int, old_entries[y as int].update(x as int, num)));
    }

    /// An `nrows` by `ncols` matrix with `fill` on the diagonal; every other element
    /// is a value of `T::default()`.
    pub fn identity(nrows: usize, ncols: usize, fill: T) -> (m: Self)
        where T: Default
        requires
            ncols <= nrows,
        ensures
            m.wf(),
            m.spec_rows() == nrows,
            m.spec_cols() == ncols,
            forall|i: int, j: int| 0 <= i < nrows && 0 <= j < ncols ==> {
                if i == j {
                    #[trigger] m.entries()[i][j] == fill
                } else {
                    is_default(m.entries()[i][j])
                }
            },
    {
        let mut ret = Self::new(nrows, ncols);
        for index in 0..ncols
            invariant
                ncols <= nrows,
                ret.wf(),
                ret.spec_rows() == nrows,
                ret.spec_cols() == ncols,
                forall|i: int, j: int| 0 <= i < nrows && 0 <= j < ncols ==> {
                    if i == j && i < index {
                        #[trigger] ret.entries()[i][j] == fill
                    } else {
                        is_default(ret.entries()[i][j])
                    }
                },
        {
            ret.set(index, index, fill);
        }
        ret
    }

    /// Column `index`, top to bottom.
    pub fn get_col(&self, index: usize) -> (r: Array<T>)
        requires
            self.wf(),
            index < self.spec_cols(),
        ensures
            r@ == self.column(index as int),
    {
        let mut v: Vec<T> = Vec::new();
        let n = self.rows.len();
        for i in 0..n
            invariant
                n == self.spec_rows(),
                self.wf(),
                index < self.spec_cols(),
                v@ == self.column(index as int).subrange(0, i as int),
        {
            v.push(self.get(i, index));
            assert(v@ =~= self.column(index as int).subrange(0, i + 1));
        }
        assert(v@ =~= self.column(index as int));
        Array::from(v)
    }

    /// Overwrites column `index` with the first `spec_rows()` elements of `arr`.
    pub fn set_col(&mut self, index: usize, arr: Array<T>)
        requires
            old(self).wf(),
            index < old(self).spec_cols(),
            arr@.len() >= old(self).spec_rows(),
        ensures
            final(self).wf(),
            final(self).spec_cols() == old(self).spec_cols(),
            final(self).spec_rows() == old(self).spec_rows(),
            forall|i: int, j: int| 0 <= i < old(self).spec_rows() && 0 <= j < old(self).spec_cols() ==>
                #[trigger] final(self).entries()[i][j] == (
                    if j == index { arr@[i] } else { old(self).entries()[i][j] }),
    {
        let ghost old_entries = self.entries();
        let n = self.rows.len();
        for i in 0..n
            invariant
                n == self.spec_rows(),
                n == old_entries.len(),
                self.wf(),
                self.spec_cols() == old(self).spec_cols(),
                old_entries == old(self).entries(),
                index < self.spec_cols(),
                arr@.len() >= n,
                forall|k: int, j: int| 0 <= k < n && 0 <= j < self.spec_cols() ==>
                    #[trigger] self.entries()[k][j] == (
                        if j == index && k < i { arr@[k] } else { old_entries[k][j] }),
        {
            self.set(i, index, arr.get(i));
        }
    }

    /// The minor: the matrix with row `row` and column `col` removed.
    #[allow(dead_code)]
    fn get_minor(&self, row: usize, col: usize) -> (m: Self)
        where T: Default
        requires
            self.wf(),
            row < self.spec_rows(),
            col < self.spec_cols(),
        ensures
            m.wf(),
            m.spec_rows() == self.spec_rows() - 1,
            m.spec_cols() == self.spec_cols() - 1,
            forall|y: int, x: int| 0 <= y < m.spec_rows() && 0 <= x < m.spec_cols() ==>
                #[trigger] m.entries()[y][x]
                    == self.entries()[if y < row { y } else { y + 1 }][if x < col { x } else { x + 1 }],
    {
        let nrows = self.rows.len() - 1;
        let ncols = self.cols - 1;
        let mut ret = Self::new(nrows, ncols);
        for y in 0..nrows
            invariant
                nrows == self.spec_rows() - 1,
                ncols == self.spec_cols() - 1,
                row < self.spec_rows(),
                col < self.spec_cols(),
                self.wf(),
                ret.wf(),
                ret.spec_rows() == nrows,
                ret.spec_cols() == ncols,
                forall|yy: int, x: int| 0 <= yy < y && 0 <= x < ncols ==>
                    #[trigger] ret.entries()[yy][x]
                        == self.entries()[if yy < row { yy } else { yy + 1 }][if x < col { x } else { x + 1 }],
        {
            for x in 0..ncols
                invariant
                    nrows == self.spec_rows() - 1,
                    ncols == self.spec_cols() - 1,
                    row < self.spec_rows(),
                    col < self.spec_cols(),
                    0 <= y < nrows,
                    self.wf(),
                    ret.wf(),
                    ret.spec_rows() == nrows,
                    ret.spec_cols() == ncols,
                    forall|yy: int, xx: int| 0 <= yy < nrows && 0 <= xx < ncols && (yy < y || (yy == y && xx < x)) ==>
                        #[trigger] ret.entries()[yy][xx]
                            == self.entries()[if yy < row { yy } else { yy + 1 }][if xx < col { xx } else { xx + 1 }],
            {
                let real_y = if y < row { y } else { y + 1 };
                let real_x = if x < col { x } else { x + 1 };
                ret.set(y, x, self.get(real_y, real_x));
            }
        }
        ret
    }
}


impl<T: Copy> Matrix<T> {
    /// The first three elements of column 0 divided by the fourth: a point in
    /// homogeneous coordinates brought back to three coordinates.
    pub fn to_array(src: Self) -> (r: Array<T>)
        where T: core::ops::Div<Output = T>
        requires
            src.wf(),
            src.spec_rows() >= 4,
            src.spec_cols() >= 1,
            src.entries()[0][0].div_req(src.entries()[3][0]),
            src.entries()[1][0].div_req(src.entries()[3][0]),
            src.entries()[2][0].div_req(src.entries()[3][0]),
        ensures
            r@.len() == 3,
            T::obeys_div_spec() ==> r@ == seq![
                src.entries()[0][0].div_spec(src.entries()[3][0]),
                src.entries()[1][0].div_spec(src.entries()[3][0]),
                src.entries()[2][0].div_spec(src.entries()[3][0]),
            ],
    {
        let w = src.get(3, 0);
        let x = src.get(0, 0) / w;
        let y = src.get(1, 0) / w;
        let z = src.get(2, 0) / w;
        let v = vec![x, y, z];
        Array::from(v)
    }

    /// Element `(i, j)` of the product `self * rhs`: `T::default()` plus the products
    /// of row `i` of `self` with column `j` of `rhs`.
    fn product_entry(&self, rhs: &Self, i: usize, j: usize) -> (r: T)
        where T: core::ops::Add<Output = T> + core::ops::Mul<Output = T> + Default
        requires
            self.wf(),
            rhs.wf(),
            self.spec_cols() == rhs.spec_rows(),
            i < self.spec_rows(),
            j < rhs.spec_cols(),
            T::obeys_add_spec(),
            T::obeys_mul_spec(),
            forall|d: T| #[trigger] is_default(d) ==> dot_defined(d, self.entries()[i as int],
                rhs.column(j as int), self.spec_cols() as int),
        ensures
            is_dot_product(r, self.entries()[i as int], rhs.column(j as int), self.spec_cols() as int),
    {
        let d = T::default();
        assert(is_default(d));
        let mut ret = d;
        let n = self.cols;
        for k in 0..n
            invariant
                n == self.spec_cols(),
                self.wf(),
                rhs.wf(),
                self.spec_cols() == rhs.spec_rows(),
                i < self.spec_rows(),
                j < rhs.spec_cols(),
                T::obeys_add_spec(),
                T::obeys_mul_spec(),
                is_default(d),
                dot_defined(d, self.entries()[i as int], rhs.column(j as int), n as int),
                ret == dot_from(d, self.entries()[i as int], rhs.column(j as int), k as int),
        {
            let a = self.get(i, k);
            let b = rhs.get(k, j);
            assert(a == self.entries()[i as int][k as int]);
            assert(b == rhs.column(j as int)[k as int]);
            ret = ret + a * b;
        }
        ret
    }

    /// The matrix product `self * rhs`.
    pub fn multiply(&self, rhs: &Self) -> (m: Self)
        where T: core::ops::Add<Output = T> + core::ops::Mul<Output = T> + Default
        requires
            self.wf(),
            rhs.wf(),
            self.spec_cols() == rhs.spec_rows(),
            T::obeys_add_spec(),
            T::obeys_mul_spec(),
            forall|i: int, j: int, d: T| 0 <= i < self.spec_rows() && 0 <= j < rhs.spec_cols()
                && #[trigger] is_default(d) ==> dot_defined(d, #[trigger] self.entries()[i],
                #[trigger] rhs.column(j), self.spec_cols() as int),
        ensures
            m.wf(),
            m.spec_rows() == self.spec_rows(),
            m.spec_cols() == rhs.spec_cols(),
            forall|i: int, j: int| 0 <= i < self.spec_rows() && 0 <= j < rhs.spec_cols() ==>
                is_dot_product(#[trigger] m.entries()[i][j], self.entries()[i], rhs.column(j), self.spec_cols() as int),
    {
        let nrows = self.rows.len();
        let ncols = rhs.cols;
        let mut ret: Self = Self::new(nrows, ncols);
        for i in 0..nrows
            invariant
                nrows == self.spec_rows(),
                ncols == rhs.spec_cols(),
                self.wf(),
                rhs.wf(),
                self.spec_cols() == rhs.spec_rows(),
                T::obeys_add_spec(),
                T::obeys_mul_spec(),
                forall|i: int, j: int, d: T| 0 <= i < self.spec_rows() && 0 <= j < rhs.spec_cols()
                    && #[trigger] is_default(d) ==> dot_defined(d, #[trigger] self.entries()[i],
                    #[trigger] rhs.column(j), self.spec_cols() as int),
                ret.wf(),
                ret.spec_rows() == nrows,
                ret.spec_cols() == ncols,
                forall|ii: int, j: int| 0 <= ii < i && 0 <= j < ncols ==>
                    is_dot_product(#[trigger] ret.entries()[ii][j], self.entries()[ii], rhs.column(j), self.spec_cols() as int),
        {
            for j in 0..ncols
                invariant
                    nrows == self.spec_rows(),
                    ncols == rhs.spec_cols(),
                    0 <= i < nrows,
                    self.wf(),
                    rhs.wf(),
                    self.spec_cols() == rhs.spec_rows(),
                    T::obeys_add_spec(),
                    T::obeys_mul_spec(),
                    forall|i: int, j: int, d: T| 0 <= i < self.spec_rows() && 0 <= j < rhs.spec_cols()
                        && #[trigger] is_default(d) ==> dot_defined(d, #[trigger] self.entries()[i],
                        #[trigger] rhs.column(j), self.spec_cols() as int),
                    ret.wf(),
                    ret.spec_rows() == nrows,
                    ret.spec_cols() == ncols,
                    forall|ii: int, jj: int| 0 <= ii < nrows && 0 <= jj < ncols && (ii < i || (ii == i && jj < j)) ==>
                        is_dot_product(#[trigger] ret.entries()[ii][jj], self.entries()[ii], rhs.column(jj), self.spec_cols() as int),
            {
                proof {
                    assert forall|d: T| #[trigger] is_default(d) implies dot_defined(d, self.entries()[i as int],
                        rhs.column(j as int), self.spec_cols() as int) by {
                    }
                }
                let e = self.product_entry(rhs, i, j);
                ret.set(i, j, e);
            }
        }
        ret
    }
}

/// `&a * &b` is the matrix product `a.multiply(&b)`.
impl<'a, T> core::ops::Mul for &'a Matrix<T>
    where T: Copy + core::ops::Add<Output = T> + core::ops::Mul<Output = T> + Default
{
    type Output = Matrix<T>;

    fn mul(self, rhs: Self) -> (m: Matrix<T>)
        ensures
            m.wf(),
            m.spec_rows() == self.spec_rows(),
            m.spec_cols() == rhs.spec_cols(),
            forall|i: int, j: int| 0 <= i < self.spec_rows() && 0 <= j < rhs.spec_cols() ==>
                is_dot_product(#[trigger] m.entries()[i][j], self.entries()[i], rhs.column(j), self.spec_cols() as int),
    {
        self.multiply(rhs)
    }
}

impl<'a, T> vstd::std_specs::ops::MulSpecImpl for &'a Matrix<T>
    where T: Copy + core::ops::Add<Output = T> + core::ops::Mul<Output = T> + Default
{
    open spec fn obeys_mul_spec() -> bool {
        false
    }

    open spec fn mul_req(self, rhs: Self) -> bool {
        &&& self.wf()
        &&& rhs.wf()
        &&& self.spec_cols() == rhs.spec_rows()
        &&& T::obeys_add_spec()
        &&& T::obeys_mul_spec()
        &&& forall|i: int, j: int, d: T| 0 <= i < self.spec_rows() && 0 <= j < rhs.spec_cols()
                && #[trigger] is_default(d) ==> dot_defined(d, #[trigger] self.entries()[i],
                #[trigger] rhs.column(j), self.spec_cols() as int)
    }

    open spec fn mul_spec(self, rhs: Self) -> Matrix<T> {
        choose|m: Matrix<T>| m.spec_rows() == self.spec_rows() && m.spec_cols() == rhs.spec_cols()
    }
}

} // verus!

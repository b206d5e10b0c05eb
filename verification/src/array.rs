//! Dense row-major arrays.

use vstd::prelude::*;

use crate::buffer::push_range;
use crate::error::{length_mismatch, Error};

verus! {

/// The number of items that an array of the given shape holds.
pub open spec fn product(shape: Seq<usize>) -> nat
    decreases shape.len(),
{
    if shape.len() == 0 {
        1
    } else {
        product(shape.drop_last()) * shape.last() as nat
    }
}

/// What an array holds: its shape, and its items in row-major order.
#[verifier::ext_equal]
pub struct ArrayModel<T> {
    pub shape: Seq<usize>,
    pub data: Seq<T>,
}

/// A dense array of any rank, with its items in row-major order.
#[derive(Debug)]
pub struct Array<T> {
    shape: Vec<usize>,
    data: Vec<T>,
}

impl<T> View for Array<T> {
    type V = ArrayModel<T>;

    closed spec fn view(&self) -> ArrayModel<T> {
        ArrayModel { shape: self.shape@, data: self.data@ }
    }
}

/// One more axis multiplies the number of items by its extent.
pub proof fn lemma_product_push(shape: Seq<usize>, extent: usize)
    ensures
        product(shape.push(extent)) == product(shape) * extent as nat,
{
    assert(shape.push(extent).drop_last() =~= shape);
}

/// The number of items of a vector.
pub proof fn lemma_product_1(a: usize)
    ensures
        product(seq![a]) == a,
{
    lemma_product_push(Seq::empty(), a);
    assert(seq![a] =~= Seq::<usize>::empty().push(a));
    assert(product(Seq::<usize>::empty()) * a as nat == a) by (nonlinear_arith)
        requires
            product(Seq::<usize>::empty()) == 1,
    ;
}

/// The number of items of a matrix.
pub proof fn lemma_product_2(a: usize, b: usize)
    ensures
        product(seq![a, b]) == a * b,
{
    lemma_product_1(a);
    lemma_product_push(seq![a], b);
    assert(seq![a].push(b) =~= seq![a, b]);
}

/// The number of items of an array of rank three.
pub proof fn lemma_product_3(a: usize, b: usize, c: usize)
    ensures
        product(seq![a, b, c]) == a * b * c,
{
    lemma_product_2(a, b);
    lemma_product_push(seq![a, b], c);
    assert(seq![a, b].push(c) =~= seq![a, b, c]);
}

/// The number of items of an array of rank four.
pub proof fn lemma_product_4(a: usize, b: usize, c: usize, d: usize)
    ensures
        product(seq![a, b, c, d]) == a * b * c * d,
{
    lemma_product_3(a, b, c);
    lemma_product_push(seq![a, b, c], d);
    assert(seq![a, b, c].push(d) =~= seq![a, b, c, d]);
}

proof fn lemma_product_zero(shape: Seq<usize>, i: int)
    requires
        0 <= i < shape.len(),
        shape[i] == 0,
    ensures
        product(shape) == 0,
    decreases shape.len(),
{
    if i < shape.len() - 1 {
        assert(shape.drop_last()[i] == 0);
        lemma_product_zero(shape.drop_last(), i);
    }
    assert(product(shape.drop_last()) * shape.last() as nat == 0) by (nonlinear_arith)
        requires
            product(shape.drop_last()) == 0 || shape.last() == 0,
    ;
}

proof fn lemma_product_grows(shape: Seq<usize>, n: int)
    requires
        0 <= n <= shape.len(),
        forall|i: int| 0 <= i < shape.len() ==> shape[i] > 0,
    ensures
        0 < product(shape.take(n)) <= product(shape),
    decreases shape.len(),
{
    if n == shape.len() {
        assert(shape.take(n) =~= shape);
        if n > 0 {
            lemma_product_grows(shape.drop_last(), n - 1);
            assert(shape.drop_last().take(n - 1) =~= shape.drop_last());
            assert(0 < product(shape.drop_last()) * shape.last() as nat) by (nonlinear_arith)
                requires
                    0 < product(shape.drop_last()),
                    0 < shape.last(),
            ;
        }
    } else {
        lemma_product_grows(shape.drop_last(), n);
        assert(shape.drop_last().take(n) =~= shape.take(n));
        assert(product(shape.drop_last()) <= product(shape.drop_last()) * shape.last() as nat)
            by (nonlinear_arith)
            requires
                0 <= product(shape.drop_last()),
                1 <= shape.last(),
        ;
    }
}

/// The number of items of a shape, or `None` where it does not fit `usize`.
pub fn element_count(shape: &[usize]) -> (r: Option<usize>)
    ensures
        match r {
            Some(n) => n == product(shape@),
            None => product(shape@) > usize::MAX,
        },
{
    let mut i: usize = 0;
    while i < shape.len()
        invariant
            i <= shape@.len(),
            forall|j: int| 0 <= j < i ==> shape@[j] > 0,
        decreases shape@.len() - i,
    {
        if shape[i] == 0 {
            proof {
                lemma_product_zero(shape@, i as int);
            }
            return Some(0);
        }
        i += 1;
    }
    let mut n: usize = 1;
    let mut k: usize = 0;
    while k < shape.len()
        invariant
            k <= shape@.len(),
            n == product(shape@.take(k as int)),
            forall|j: int| 0 <= j < shape@.len() ==> shape@[j] > 0,
        decreases shape@.len() - k,
    {
        proof {
            assert(shape@.take(k + 1).drop_last() =~= shape@.take(k as int));
            lemma_product_grows(shape@, k + 1);
        }
        match n.checked_mul(shape[k]) {
            Some(next) => {
                n = next;
            },
            None => {
                return None;
            },
        }
        k += 1;
    }
    assert(shape@.take(k as int) =~= shape@);
    Some(n)
}

impl<T> Array<T> {
    #[verifier::type_invariant]
    closed spec fn inv(self) -> bool {
        product(self.shape@) == self.data@.len()
    }

    /// The array of the given shape that holds `data` in row-major order.
    pub fn from_vec(data: Vec<T>, shape: Vec<usize>) -> (r: Result<Array<T>, Error>)
        ensures
            match r {
                Ok(a) => product(shape@) == data@.len() && a@ == (ArrayModel {
                    shape: shape@,
                    data: data@,
                }),
                Err(e) => product(shape@) != data@.len() && e == length_mismatch(
                    "Array: item count vs shape",
                    if product(shape@) <= usize::MAX {
                        product(shape@) as usize
                    } else {
                        usize::MAX
                    },
                    data@.len() as usize,
                ),
            },
    {
        match element_count(shape.as_slice()) {
            Some(n) => if n == data.len() {
                Ok(Array { shape, data })
            } else {
                Err(length_mismatch("Array: item count vs shape", n, data.len()))
            },
            None => Err(
                length_mismatch("Array: item count vs shape", usize::MAX, data.len()),
            ),
        }
    }

    /// The array of the given shape that holds `data`, where the two agree.
    pub fn of(data: Vec<T>, shape: Vec<usize>) -> (r: Array<T>)
        requires
            product(shape@) == data@.len(),
        ensures
            r@ == (ArrayModel { shape: shape@, data: data@ }),
    {
        Array { shape, data }
    }

    /// The extent of each axis.
    pub fn shape(&self) -> (r: &Vec<usize>)
        ensures
            r@ == self@.shape,
    {
        &self.shape
    }

    /// The number of axes.
    pub fn ndim(&self) -> (r: usize)
        ensures
            r == self@.shape.len(),
    {
        self.shape.len()
    }

    /// The number of items: the product of the extents.
    pub fn len(&self) -> (r: usize)
        ensures
            r == self@.data.len(),
            r == product(self@.shape),
    {
        proof {
            use_type_invariant(self);
        }
        self.data.len()
    }

    /// The items in row-major order.
    pub fn data(&self) -> (r: &Vec<T>)
        ensures
            r@ == self@.data,
    {
        &self.data
    }

    /// Gives up the items, in row-major order.
    pub fn into_data(self) -> (r: Vec<T>)
        ensures
            r@ == self@.data,
    {
        self.data
    }
}

/// The same extents in a vector of their own.
pub fn copied(shape: &Vec<usize>) -> (r: Vec<usize>)
    ensures
        r@ == shape@,
{
    let mut out: Vec<usize> = Vec::new();
    let mut i: usize = 0;
    while i < shape.len()
        invariant
            i <= shape@.len(),
            out@ == shape@.take(i as int),
        decreases shape@.len() - i,
    {
        out.push(shape[i]);
        i += 1;
        assert(out@ =~= shape@.take(i as int));
    }
    assert(out@ =~= shape@);
    out
}

/// Where an index lies in a sequence of blocks of length `w`.
pub proof fn lemma_block_position(n: int, w: int, j: int)
    requires
        0 <= n,
        0 <= j < w,
    ensures
        (n * w + j) / w == n,
        (n * w + j) % w == j,
        (n + 1) * w == n * w + w,
        0 <= n * w,
{
    vstd::arithmetic::div_mod::lemma_fundamental_div_mod_converse(n * w + j, w, n, j);
    assert((n + 1) * w == n * w + w) by (nonlinear_arith);
    assert(0 <= n * w) by (nonlinear_arith)
        requires
            0 <= n,
            0 < w,
    ;
}

/// Where the cell of an index lies in a grid whose cells are `p` long.
pub proof fn lemma_cell(q: int, rows: int, cols: int, p: int)
    requires
        0 <= q < rows * cols,
        0 <= cols,
        0 <= p,
    ensures
        0 < cols,
        0 <= q / cols < rows,
        0 <= q % cols < cols,
        0 <= (q / cols) * p,
        (q / cols) * p + p <= rows * p,
        0 <= (q % cols) * p,
        (q % cols) * p + p <= cols * p,
{
    assert(0 < cols) by (nonlinear_arith)
        requires
            0 <= q < rows * cols,
            0 <= cols,
    ;
    vstd::arithmetic::div_mod::lemma_fundamental_div_mod(q, cols);
    let a = q / cols;
    let b = q % cols;
    assert(0 <= a) by (nonlinear_arith)
        requires
            cols * a + b == q,
            0 <= q,
            b < cols,
            0 < cols,
    ;
    assert(a < rows) by (nonlinear_arith)
        requires
            cols * a + b == q,
            q < rows * cols,
            0 <= b,
            0 < cols,
    ;
    assert(0 <= a * p && a * p + p <= rows * p) by (nonlinear_arith)
        requires
            0 <= a < rows,
            0 <= p,
    ;
    assert(0 <= b * p && b * p + p <= cols * p) by (nonlinear_arith)
        requires
            0 <= b < cols,
            0 <= p,
    ;
}

/// A pair of indices within its bounds gives an index within theirs.
pub proof fn lemma_pair_bound(a: int, m: int, b: int, n: int)
    requires
        0 <= a < m,
        0 <= b < n,
    ensures
        0 <= a * n + b < m * n,
{
    assert(0 <= a * n && a * n + n <= m * n) by (nonlinear_arith)
        requires
            0 <= a < m,
            0 < n,
    ;
}

// ---------------------------------------------------------------------------
// Exchanging axes
// ---------------------------------------------------------------------------

/// Where row `r` of a `(b, m, n)` grid of rows stands in the `(b, n, m)` grid that
/// its two inner axes were exchanged in.
pub open spec fn exchanged_row(r: int, m: int, n: int) -> int {
    let outer = r / n;
    ((outer / m) * n + r % n) * m + outer % m
}

/// The items of a `(b, n, m, d)` array as a `(b, m, n, d)` one.
pub open spec fn exchanged<T>(data: Seq<T>, b: int, m: int, n: int, d: int) -> Seq<T> {
    Seq::new(
        (b * m * n * d) as nat,
        |k: int| data[exchanged_row(k / d, m, n) * d + k % d],
    )
}

/// Every row has its place, and exchanging the axes back finds it again.
pub proof fn lemma_exchanged_row(r: int, b: int, m: int, n: int)
    requires
        0 <= r < b * m * n,
        0 <= b,
        0 <= m,
        0 <= n,
    ensures
        0 < m,
        0 < n,
        0 <= exchanged_row(r, m, n) < b * n * m,
        exchanged_row(exchanged_row(r, m, n), n, m) == r,
{
    lemma_cell(r, b * m, n, 1);
    let outer = r / n;
    let j = r % n;
    lemma_cell(outer, b, m, 1);
    let image = outer / m;
    let i = outer % m;
    lemma_pair_bound(image, b, j, n);
    let inner = image * n + j;
    lemma_pair_bound(inner, b * n, i, m);
    lemma_block_position(inner, m, i);
    lemma_block_position(image, n, j);
    vstd::arithmetic::div_mod::lemma_fundamental_div_mod(r, n);
    vstd::arithmetic::div_mod::lemma_fundamental_div_mod(outer, m);
    assert(n * outer == outer * n && m * image == image * m) by (nonlinear_arith);
}

/// Exchanges the two inner axes of a `(b, n, m, d)` array; see [`exchanged`]. The
/// items go into the empty `buffer`.
pub fn exchange<T: Copy>(
    data: &[T],
    b: usize,
    m: usize,
    n: usize,
    d: usize,
    buffer: Vec<T>,
) -> (r: Vec<T>)
    requires
        data@.len() == b * n * m * d,
        b * m * n <= usize::MAX,
        b * n * m <= usize::MAX,
        buffer@.len() == 0,
    ensures
        r@ == exchanged(data@, b as int, m as int, n as int, d as int),
{
    let len: usize = data.len();
    proof {
        assert(b * m * n == b * n * m) by (nonlinear_arith);
        assert(b * m <= b * m * n || n == 0) by (nonlinear_arith);
    }
    let ghost g = |k: int| data@[exchanged_row(k / (d as int), m as int, n as int) * d + k % (d as int)];
    let mut out: Vec<T> = buffer;
    if n == 0 || m == 0 {
        proof {
            assert(b * m * n * d == 0) by (nonlinear_arith)
                requires
                    n == 0 || m == 0,
            ;
            assert(out@ =~= exchanged(data@, b as int, m as int, n as int, d as int));
        }
        return out;
    }
    let rows: usize = b * m * n;
    let mut r: usize = 0;
    assert(out@ =~= Seq::new((0 * d) as nat, g));
    while r < rows
        invariant
            r <= rows,
            0 < m,
            0 < n,
            rows == b * m * n,
            b * n * m <= usize::MAX,
            len == data@.len(),
            data@.len() == b * n * m * d,
            g == (|k: int|
                data@[exchanged_row(k / (d as int), m as int, n as int) * d + k % (d as int)]),
            out@ == Seq::new((r * d) as nat, g),
        decreases rows - r,
    {
        let ghost before = out@;
        proof {
            lemma_exchanged_row(r as int, b as int, m as int, n as int);
            lemma_cell(r as int, b * m, n as int, 1);
            lemma_cell(r as int / n as int, b as int, m as int, 1);
            let image = (r as int / n as int) / (m as int);
            lemma_pair_bound(image, b as int, r as int % n as int, n as int);
            lemma_pair_bound(
                image * n + r as int % n as int,
                b * n,
                (r as int / n as int) % (m as int),
                m as int,
            );
            let inner = image * n + r as int % n as int;
            assert(image * n <= inner && inner <= inner * m) by (nonlinear_arith)
                requires
                    inner == image * n + r as int % n as int,
                    0 <= r as int % n as int,
                    0 <= inner,
                    1 <= m,
            ;
        }
        let outer: usize = r / n;
        let source: usize = ((outer / m) * n + r % n) * m + outer % m;
        proof {
            let total = b * n * m;
            assert(0 <= source * d && source * d + d <= total * d) by (nonlinear_arith)
                requires
                    0 <= source < total,
                    0 <= d,
            ;
        }
        push_range(&mut out, data, source * d, source * d + d);
        proof {
            assert((r + 1) * d == r * d + d) by (nonlinear_arith);
            assert forall|j: int| 0 <= j < d implies #[trigger] out@[r * d + j] == g(r * d + j) by {
                lemma_block_position(r as int, d as int, j);
                assert(out@[r * d + j] == data@.subrange(source * d, source * d + d)[j]);
            }
            assert forall|k: int| 0 <= k < (r + 1) * d implies #[trigger] out@[k] == g(k) by {
                if k < r * d {
                    assert(out@[k] == before[k]);
                } else {
                    assert(out@[r * d + (k - r * d)] == g(k));
                }
            }
            assert(out@ =~= Seq::new(((r + 1) * d) as nat, g));
        }
        r += 1;
    }
    assert(out@ =~= exchanged(data@, b as int, m as int, n as int, d as int));
    out
}

/// Exchanging two axes and exchanging them again gives the items back.
pub proof fn law_exchanging_twice_changes_nothing<T>(data: Seq<T>, b: int, m: int, n: int, d: int)
    requires
        0 <= b,
        0 <= m,
        0 <= n,
        0 <= d,
        data.len() == b * n * m * d,
    ensures
        exchanged(exchanged(data, b, m, n, d), b, n, m, d) == data,
{
    let once = exchanged(data, b, m, n, d);
    let twice = exchanged(once, b, n, m, d);
    assert(b * m * n == b * n * m) by (nonlinear_arith);
    assert forall|k: int| 0 <= k < data.len() implies #[trigger] twice[k] == data[k] by {
        lemma_cell(k, b * n * m, d, 1);
        let r = k / d;
        let j = k % d;
        lemma_exchanged_row(r, b, n, m);
        let s = exchanged_row(r, n, m);
        lemma_pair_bound(s, b * m * n, j, d);
        lemma_block_position(s, d, j);
        vstd::arithmetic::div_mod::lemma_fundamental_div_mod(k, d);
        assert(d * r == r * d) by (nonlinear_arith);
    }
    assert(twice =~= data);
}


/// The item `(i, j, k, l)` of an array whose inner axes are exchanged is the item
/// `(i, k, j, l)` of the array.
pub proof fn law_exchanging_moves_each_item<T>(
    data: Seq<T>,
    b: int,
    m: int,
    n: int,
    d: int,
    i: int,
    j: int,
    k: int,
    l: int,
)
    requires
        0 <= i < b,
        0 <= j < m,
        0 <= k < n,
        0 <= l < d,
    ensures
        exchanged(data, b, m, n, d).len() == b * m * n * d,
        0 <= ((i * m + j) * n + k) * d + l < b * m * n * d,
        exchanged(data, b, m, n, d)[((i * m + j) * n + k) * d + l] == data[((i * n + k) * m + j) * d
            + l],
{
    lemma_pair_bound(i, b, j, m);
    let outer = i * m + j;
    lemma_pair_bound(outer, b * m, k, n);
    let r = outer * n + k;
    lemma_pair_bound(r, b * m * n, l, d);
    lemma_block_position(r, d, l);
    lemma_block_position(outer, n, k);
    lemma_block_position(i, m, j);
}

/// An array holds the product of its extents: one item where it has no axis, and each
/// further axis multiplies that.
pub proof fn law_shapes_multiply(shape: Seq<usize>, extent: usize)
    ensures
        product(Seq::<usize>::empty()) == 1,
        product(shape.push(extent)) == product(shape) * extent,
{
    assert(shape.push(extent).drop_last() =~= shape);
}

} // verus!

//! The layout engine: the mapping between logical multi-dimensional indices
//! and linear buffer positions, and every shape/stride transformation
//! (broadcast, expand, reshape, transpose, permute, squeeze, reduce).
//! Layouts are immutable value objects; transformations return new layouts
//! and never touch numeric data.

use vstd::prelude::*;
use vstd::slice::slice_to_vec;
use crate::tensor::arith::{
    dims, dot, in_range, ints, lemma_dot_le_span, lemma_dot_take_le, lemma_product_bounds,
    lemma_product_push, lemma_product_skip, lemma_product_skip_le, lemma_product_take_le,
    lemma_radix_decode, lemma_radix_encode, lemma_span_row_major, multi_index, padded_product,
    product, row_major, span, span_term,
};
use crate::tensor::error::TensorError;

verus! {

/// Shape and stride metadata describing how logical indices map to buffer
/// positions, independent of the values stored.
#[derive(Debug)]
pub struct Layout {
    shape: Vec<usize>,
    strides: Vec<usize>,
}

impl Layout {
    /// The shape, as a sequence of dimension sizes.
    pub closed spec fn shape_spec(&self) -> Seq<usize> {
        self.shape@
    }

    /// The strides, as a sequence of per-dimension buffer-position deltas.
    pub closed spec fn strides_spec(&self) -> Seq<usize> {
        self.strides@
    }

    /// The number of logical elements: the product of the dimension sizes.
    pub open spec fn elems_spec(&self) -> int {
        product(self.shape_spec())
    }

    /// Well-formedness: one stride per dimension, and the layout small enough
    /// that element counting and position arithmetic stay within `usize`.
    pub open spec fn wf(&self) -> bool {
        &&& self.strides_spec().len() == self.shape_spec().len()
        &&& padded_product(self.shape_spec()) <= usize::MAX as int
        &&& span(dims(self.shape_spec(), self.strides_spec())) <= usize::MAX as int
    }

    /// Whether the strides are exactly the row-major (C-order) strides of the
    /// shape: the canonical layout every constructor produces.
    pub open spec fn is_row_major(&self) -> bool {
        forall|i: int|
            0 <= i < self.shape_spec().len() ==> #[trigger] self.strides_spec()[i] as int
                == product(self.shape_spec().skip(i + 1))
    }

    /// Whether a row-major traversal of this layout visits buffer positions
    /// in canonical order (`0, 1, 2, …`): every dimension of size above 1
    /// carries its row-major stride; a dimension of size 1 (or 0) is stepped
    /// at most zero times, so its stride never matters. See
    /// `lemma_contiguous_position`.
    pub open spec fn is_contiguous(&self) -> bool {
        forall|i: int|
            0 <= i < self.shape_spec().len() ==> (#[trigger] self.shape_spec()[i]) <= 1
                || self.strides_spec()[i] as int == product(self.shape_spec().skip(i + 1))
    }

    /// Law: on a contiguous layout the row-major traversal is the identity on
    /// positions — the `k`-th index maps to buffer position `k`, exactly what
    /// a canonical layout of any same-sized shape expects.
    pub proof fn lemma_contiguous_position(&self, k: int)
        requires
            self.wf(),
            self.is_contiguous(),
            0 <= k < self.elems_spec(),
        ensures
            in_range(multi_index(self.shape_spec(), k), self.shape_spec()),
            self.position_spec(multi_index(self.shape_spec(), k)) == k,
    {
        let s = self.shape_spec();
        let st = self.strides_spec();
        lemma_radix_decode(s, k);
        let mi = multi_index(s, k);
        lemma_product_bounds(s);
        assert forall|i: int|
            0 <= i < mi.len() implies #[trigger] (mi[i] * ints(st)[i]) == #[trigger] (mi[i]
            * row_major(s)[i]) by {
            assert(0 <= mi[i] < s[i]);
            if s[i] <= 1 {
                assert(mi[i] == 0);
                assert(0 * ints(st)[i] == 0) by (nonlinear_arith);
                assert(0 * row_major(s)[i] == 0) by (nonlinear_arith);
            } else {
                assert(st[i] as int == product(s.skip(i + 1)));
            }
        }
        crate::tensor::arith::lemma_dot_terms(mi, ints(st), mi, row_major(s));
    }

    /// The buffer position a multi-index denotes under this layout.
    pub open spec fn position_spec(&self, ix: Seq<int>) -> int {
        dot(ix, ints(self.strides_spec()))
    }

    /// The rank-0 layout of a scalar.
    pub fn scalar() -> (r: Layout)
        ensures
            r.wf(),
            r.is_row_major(),
            r.shape_spec() == Seq::<usize>::empty(),
            r.strides_spec() == Seq::<usize>::empty(),
    {
        let r = Layout { shape: Vec::new(), strides: Vec::new() };
        proof {
            assert(dims(r.shape@, r.strides@) =~= Seq::<(usize, usize)>::empty());
        }
        r
    }

    /// The canonical row-major layout for a shape. The shape must be small
    /// enough that its element count (with every dimension counted as at
    /// least 1) fits in `usize`.
    pub fn from(shape: &[usize]) -> (r: Layout)
        requires
            padded_product(shape@) <= usize::MAX as int,
        ensures
            r.wf(),
            r.is_row_major(),
            r.shape_spec() == shape@,
    {
        let n = shape.len();
        let shape_v = slice_to_vec(shape);
        let mut strides: Vec<usize> = Vec::new();
        let mut k: usize = 0;
        while k < n
            invariant
                strides@.len() == k,
                0 <= k <= n,
            decreases n - k,
        {
            strides.push(0);
            k += 1;
        }
        let mut acc: usize = 1;
        let mut j = n;
        proof {
            assert(shape@.skip(n as int) =~= Seq::<usize>::empty());
        }
        while j > 0
            invariant
                0 <= j <= n,
                n == shape@.len(),
                shape_v@ == shape@,
                strides@.len() == n,
                padded_product(shape@) <= usize::MAX as int,
                acc as int == product(shape@.skip(j as int)),
                forall|m: int|
                    j <= m < n ==> #[trigger] strides@[m] as int == product(shape@.skip(m + 1)),
            decreases j,
        {
            j -= 1;
            strides.set(j, acc);
            proof {
                lemma_product_skip(shape@, j as int);
                lemma_product_skip_le(shape@, j as int);
                lemma_product_bounds(shape@.skip(j as int));
            }
            acc = shape_v[j] * acc;
        }
        let r = Layout { shape: shape_v, strides };
        proof {
            lemma_span_row_major(r.shape@, r.strides@);
            lemma_product_bounds(r.shape@);
        }
        r
    }

    /// The shape of this layout.
    pub fn shape(&self) -> (r: &Vec<usize>)
        ensures
            r@ == self.shape_spec(),
    {
        &self.shape
    }

    /// The strides of this layout.
    pub fn strides(&self) -> (r: &Vec<usize>)
        ensures
            r@ == self.strides_spec(),
    {
        &self.strides
    }

    /// The number of elements the layout addresses: the product of its
    /// dimension sizes (1 for a scalar, 0 if any dimension is 0).
    pub fn elems(&self) -> (r: usize)
        requires
            self.wf(),
        ensures
            r as int == self.elems_spec(),
    {
        let n = self.shape.len();
        let mut acc: usize = 1;
        let mut i: usize = 0;
        proof {
            assert(self.shape@.take(0) =~= Seq::<usize>::empty());
        }
        while i < n
            invariant
                0 <= i <= n,
                n == self.shape@.len(),
                self.wf(),
                acc as int == product(self.shape@.take(i as int)),
            decreases n - i,
        {
            proof {
                assert(self.shape@.take(i + 1) =~= self.shape@.take(i as int).push(self.shape@[i as int]));
                lemma_product_push(self.shape@.take(i as int), self.shape@[i as int]);
                lemma_product_take_le(self.shape@, i + 1);
                lemma_product_bounds(self.shape@.take(i + 1));
            }
            acc = acc * self.shape[i];
            i += 1;
        }
        proof {
            assert(self.shape@.take(n as int) =~= self.shape@);
        }
        acc
    }

    /// The linear buffer position of a per-dimension index: the dot product
    /// of the index with the strides. Any index that is valid for the shape
    /// satisfies the bound in the precondition (see
    /// `arith::lemma_dot_le_span`); the bound itself is only what `usize`
    /// arithmetic forces.
    pub fn index_to_position(&self, index: &[usize]) -> (r: usize)
        requires
            self.wf(),
            index@.len() == self.shape_spec().len(),
            dot(ints(index@), ints(self.strides_spec())) <= usize::MAX as int,
        ensures
            r as int == self.position_spec(ints(index@)),
    {
        let n = index.len();
        let mut acc: usize = 0;
        let mut i: usize = 0;
        proof {
            assert(ints(index@).take(0) =~= Seq::<int>::empty());
            assert(ints(self.strides@).take(0) =~= Seq::<int>::empty());
        }
        while i < n
            invariant
                0 <= i <= n,
                n == index@.len(),
                self.wf(),
                index@.len() == self.shape_spec().len(),
                dot(ints(index@), ints(self.strides@)) <= usize::MAX as int,
                acc as int == dot(ints(index@).take(i as int), ints(self.strides@).take(i as int)),
            decreases n - i,
        {
            proof {
                let a = ints(index@);
                let b = ints(self.strides@);
                assert(forall|j: int| 0 <= j < a.len() ==> #[trigger] a[j] >= 0);
                assert(forall|j: int| 0 <= j < b.len() ==> #[trigger] b[j] >= 0);
                lemma_dot_take_le(a, b, i + 1);
                assert(a.take(i + 1) =~= a.take(i as int).push(a[i as int]));
                assert(b.take(i + 1) =~= b.take(i as int).push(b[i as int]));
                crate::tensor::arith::lemma_dot_push(a.take(i as int), b.take(i as int), a[i as int], b[i as int]);
                vstd::arithmetic::mul::lemma_mul_nonnegative(a[i as int], b[i as int]);
            }
            acc = acc + index[i] * self.strides[i];
            i += 1;
        }
        proof {
            assert(ints(index@).take(n as int) =~= ints(index@));
            assert(ints(self.strides@).take(n as int) =~= ints(self.strides@));
        }
        acc
    }

    /// The inverse of `index_to_position` for a canonical (row-major) layout:
    /// decomposes a flat position into the per-dimension index whose
    /// canonical position it is — the mixed-radix digits of the position.
    pub fn position_to_index(&self, position: usize) -> (r: Vec<usize>)
        requires
            self.wf(),
            self.is_row_major(),
            position < self.elems_spec(),
        ensures
            ints(r@) == multi_index(self.shape_spec(), position as int),
            in_range(ints(r@), self.shape_spec()),
            self.position_spec(ints(r@)) == position,
    {
        let ghost msh = self.shape@;
        let ghost mfull = multi_index(msh, position as int);
        proof {
            lemma_radix_decode(msh, position as int);
            lemma_product_bounds(msh);
        }
        let n = self.shape.len();
        let mut r: Vec<usize> = Vec::new();
        let mut rem: usize = position;
        let mut i: usize = 0;
        proof {
            assert(msh.skip(0) =~= msh);
            assert(ints(r@) =~= mfull.take(0));
        }
        while i < n
            invariant
                0 <= i <= n,
                n == msh.len(),
                self.wf(),
                self.is_row_major(),
                msh == self.shape@,
                mfull == multi_index(msh, position as int),
                in_range(mfull, msh),
                0 <= position < product(msh),
                r@.len() == i,
                ints(r@) == mfull.take(i as int),
                multi_index(msh.skip(i as int), rem as int) == mfull.skip(i as int),
                0 <= rem < product(msh.skip(i as int)),
            decreases n - i,
        {
            proof {
                lemma_product_bounds(msh);
                assert(forall|m: int| 0 <= m < msh.len() ==> msh[m] > 0);
                assert(forall|m: int|
                    0 <= m < msh.skip(i + 1).len() ==> #[trigger] msh.skip(i + 1)[m] == msh[m + i + 1]);
                lemma_product_bounds(msh.skip(i + 1));
                assert(product(msh.skip(i + 1)) > 0);
                assert(msh.skip(i as int).drop_first() =~= msh.skip(i + 1));
                assert(self.strides@[i as int] as int == product(msh.skip(i + 1)));
            }
            let p = self.strides[i];
            let q = rem / p;
            let ghost old_r = r@;
            let ghost old_rem = rem;
            r.push(q);
            rem = rem % p;
            i += 1;
            proof {
                let ii = i - 1;
                let tail = msh.skip(ii as int);
                let pp = product(tail.drop_first());
                assert(multi_index(tail, old_rem as int) == seq![old_rem as int / pp] + multi_index(
                    tail.drop_first(),
                    old_rem as int % pp,
                ));
                assert(mfull.skip(ii as int)[0] == mfull[ii as int]);
                assert(mfull[ii as int] == old_rem as int / pp);
                assert(q as int == old_rem as int / pp);
                assert(ints(r@) =~= ints(old_r).push(q as int));
                assert(mfull.take(ii + 1) =~= mfull.take(ii as int).push(mfull[ii as int]));
                assert(multi_index(tail.drop_first(), rem as int) =~= mfull.skip(ii as int).drop_first());
                assert(mfull.skip(ii as int).drop_first() =~= mfull.skip(ii + 1));
                vstd::arithmetic::div_mod::lemma_mod_bound(old_rem as int, pp);
            }
        }
        proof {
            assert(ints(r@) == mfull.take(n as int));
            assert(mfull.take(n as int) =~= mfull);
            let st = ints(self.strides@);
            assert(st =~= row_major(msh));
        }
        r
    }
}

} // verus!

verus! {

/// One step of filtering out the size-1 dimensions of a prefix: filtering a
/// one-longer prefix either appends the next dimension or leaves the result
/// unchanged, by the next dimension's size.
proof fn lemma_filter_step(ds: Seq<(usize, usize)>, i: int)
    requires
        0 <= i < ds.len(),
    ensures
        ds[i].0 != 1 ==> ds.take(i + 1).filter(|d: (usize, usize)| d.0 != 1) == ds.take(i).filter(
            |d: (usize, usize)| d.0 != 1,
        ).push(ds[i]),
        ds[i].0 == 1 ==> ds.take(i + 1).filter(|d: (usize, usize)| d.0 != 1) == ds.take(i).filter(
            |d: (usize, usize)| d.0 != 1,
        ),
{
    reveal(Seq::filter);
    let pred = |d: (usize, usize)| d.0 != 1;
    let a = ds.take(i + 1);
    assert(a.drop_last() =~= ds.take(i));
    assert(a.last() == ds[i]);
    assert(a.len() > 0);
    assert(a.filter(pred) == if pred(a.last()) {
        a.drop_last().filter(pred).push(a.last())
    } else {
        a.drop_last().filter(pred)
    });
}

impl Layout {
    /// Swaps the entries at `dim0` and `dim1` in both shape and strides;
    /// no buffer is involved. Fails exactly when either dimension index is
    /// out of range, carrying the shape and the two offending indices.
    pub fn transpose(&self, dim0: usize, dim1: usize) -> (r: Result<Layout, TensorError>)
        requires
            self.wf(),
        ensures
            dim0 < self.shape_spec().len() && dim1 < self.shape_spec().len() ==> (r matches Ok(l)
                && {
                &&& l.wf()
                &&& l.shape_spec() == self.shape_spec().update(
                    dim0 as int,
                    self.shape_spec()[dim1 as int],
                ).update(dim1 as int, self.shape_spec()[dim0 as int])
                &&& l.strides_spec() == self.strides_spec().update(
                    dim0 as int,
                    self.strides_spec()[dim1 as int],
                ).update(dim1 as int, self.strides_spec()[dim0 as int])
                &&& l.elems_spec() == self.elems_spec()
                &&& span(dims(l.shape_spec(), l.strides_spec())) == span(
                    dims(self.shape_spec(), self.strides_spec()),
                )
            }),
            !(dim0 < self.shape_spec().len() && dim1 < self.shape_spec().len()) ==> (r matches Err(e)
                && e matches TensorError::IncompatibleShapes(a, b) && a@ == self.shape_spec()
                && b@ == seq![dim0, dim1]),
    {
        let n = self.shape.len();
        if dim0 >= n || dim1 >= n {
            let mut ds: Vec<usize> = Vec::new();
            ds.push(dim0);
            ds.push(dim1);
            proof {
                assert(ds@ =~= seq![dim0, dim1]);
            }
            return Err(TensorError::IncompatibleShapes(slice_to_vec(self.shape.as_slice()), ds));
        }
        let mut shape = slice_to_vec(self.shape.as_slice());
        let mut strides = slice_to_vec(self.strides.as_slice());
        let s0 = shape[dim0];
        let s1 = shape[dim1];
        shape.set(dim0, s1);
        shape.set(dim1, s0);
        let t0 = strides[dim0];
        let t1 = strides[dim1];
        strides.set(dim0, t1);
        strides.set(dim1, t0);
        let l = Layout { shape, strides };
        proof {
            let nn = n as int;
            let p = Seq::new(n as nat, |k: int| if k == dim0 { dim1 as int } else if k == dim1 { dim0 as int } else { k });
            assert forall|i: int, k: int| (0 <= i < nn && 0 <= k < nn && i != k) implies #[trigger] p[i] != #[trigger] p[k] by {}
            assert(p.no_duplicates());
            assert(forall|i: int| 0 <= i < nn ==> 0 <= #[trigger] p[i] < nn);
            let od = dims(self.shape@, self.strides@);
            let nd = dims(l.shape@, l.strides@);
            assert forall|i: int| 0 <= i < nn implies #[trigger] nd[i] == od[p[i]] by {}
            crate::tensor::arith::lemma_permuted_multiset(od, nd, p);
            crate::tensor::arith::lemma_span_multiset(nd, od);
            assert forall|i: int| 0 <= i < nn implies #[trigger] l.shape@[i] == self.shape@[p[i]] by {}
            crate::tensor::arith::lemma_permuted_multiset(self.shape@, l.shape@, p);
            crate::tensor::arith::lemma_product_multiset(l.shape@, self.shape@);
            crate::tensor::arith::lemma_pprod_multiset(l.shape@, self.shape@);
        }
        Ok(l)
    }

    /// Whether `p` lists every dimension index below `n` exactly once.
    pub open spec fn is_permutation(p: Seq<usize>, n: int) -> bool {
        &&& p.len() == n
        &&& forall|i: int| 0 <= i < p.len() ==> (#[trigger] p[i]) < n
        &&& p.no_duplicates()
    }

    /// Reorders shape and strides by the given permutation of the dimensions
    /// (`order[i]` names the source dimension that lands at position `i`);
    /// no buffer is involved. Fails exactly when `order` is not a permutation
    /// of all dimensions, carrying the shape and the offending order.
    pub fn permute(&self, order: &[usize]) -> (r: Result<Layout, TensorError>)
        requires
            self.wf(),
        ensures
            Self::is_permutation(order@, self.shape_spec().len() as int) ==> (r matches Ok(l) && {
                &&& l.wf()
                &&& l.shape_spec().len() == self.shape_spec().len()
                &&& l.strides_spec().len() == self.shape_spec().len()
                &&& forall|i: int|
                    0 <= i < l.shape_spec().len() ==> #[trigger] l.shape_spec()[i]
                        == self.shape_spec()[order@[i] as int]
                &&& forall|i: int|
                    0 <= i < l.strides_spec().len() ==> #[trigger] l.strides_spec()[i]
                        == self.strides_spec()[order@[i] as int]
                &&& l.elems_spec() == self.elems_spec()
                &&& span(dims(l.shape_spec(), l.strides_spec())) == span(
                    dims(self.shape_spec(), self.strides_spec()),
                )
            }),
            !Self::is_permutation(order@, self.shape_spec().len() as int) ==> (r matches Err(e)
                && e matches TensorError::IncompatibleShapes(a, b) && a@ == self.shape_spec()
                && b@ == order@),
    {
        let n = self.shape.len();
        if order.len() != n {
            return Err(TensorError::IncompatibleShapes(
                slice_to_vec(self.shape.as_slice()),
                slice_to_vec(order),
            ));
        }
        let mut seen: Vec<bool> = Vec::new();
        let mut k: usize = 0;
        while k < n
            invariant
                seen@.len() == k,
                0 <= k <= n,
                forall|w: int| 0 <= w < k ==> !(#[trigger] seen@[w]),
            decreases n - k,
        {
            seen.push(false);
            k += 1;
        }
        let mut i: usize = 0;
        while i < n
            invariant
                0 <= i <= n,
                n == self.shape@.len(),
                order@.len() == n,
                seen@.len() == n,
                forall|j: int| 0 <= j < i ==> (#[trigger] order@[j]) < n,
                forall|j: int, m: int|
                    0 <= j < i && 0 <= m < i && j != m ==> order@[j] != order@[m],
                forall|w: int|
                    0 <= w < n ==> ((#[trigger] seen@[w]) <==> (exists|j: int|
                        0 <= j < i && (#[trigger] order@[j]) as int == w)),
            decreases n - i,
        {
            let v = order[i];
            if v >= n {
                return Err(TensorError::IncompatibleShapes(
                    slice_to_vec(self.shape.as_slice()),
                    slice_to_vec(order),
                ));
            }
            if seen[v] {
                proof {
                    let j = choose|j: int| 0 <= j < i && (#[trigger] order@[j]) as int == v as int;
                    assert(order@[j] == order@[i as int]);
                    assert(!order@.no_duplicates());
                }
                return Err(TensorError::IncompatibleShapes(
                    slice_to_vec(self.shape.as_slice()),
                    slice_to_vec(order),
                ));
            }
            seen.set(v, true);
            proof {
                assert forall|w: int|
                    0 <= w < n implies ((#[trigger] seen@[w]) <==> (exists|j: int|
                        0 <= j < i + 1 && (#[trigger] order@[j]) as int == w)) by {
                    if w == v as int {
                        assert(order@[i as int] as int == w);
                    }
                }
            }
            i += 1;
        }
        let mut shape: Vec<usize> = Vec::new();
        let mut strides: Vec<usize> = Vec::new();
        let mut m: usize = 0;
        while m < n
            invariant
                0 <= m <= n,
                n == self.shape@.len(),
                self.wf(),
                order@.len() == n,
                forall|j: int| 0 <= j < n ==> (#[trigger] order@[j]) < n,
                shape@.len() == m,
                strides@.len() == m,
                forall|j: int| 0 <= j < m ==> #[trigger] shape@[j] == self.shape@[order@[j] as int],
                forall|j: int|
                    0 <= j < m ==> #[trigger] strides@[j] == self.strides@[order@[j] as int],
            decreases n - m,
        {
            let ghost old_sh = shape@;
            let ghost old_st = strides@;
            let d = order[m];
            shape.push(self.shape[d]);
            strides.push(self.strides[d]);
            proof {
                assert forall|j: int| 0 <= j < m + 1 implies #[trigger] shape@[j]
                    == self.shape@[order@[j] as int] by {
                    if j < m {
                        assert(shape@[j] == old_sh[j]);
                    }
                }
                assert forall|j: int| 0 <= j < m + 1 implies #[trigger] strides@[j]
                    == self.strides@[order@[j] as int] by {
                    if j < m {
                        assert(strides@[j] == old_st[j]);
                    }
                }
            }
            m += 1;
        }
        let l = Layout { shape, strides };
        proof {
            let nn = n as int;
            let p = ints(order@);
            assert forall|a: int, b: int| (0 <= a < nn && 0 <= b < nn && a != b) implies #[trigger] p[a]
                != #[trigger] p[b] by {
                assert(order@[a] != order@[b]);
            }
            assert(p.no_duplicates());
            assert(forall|a: int| 0 <= a < nn ==> 0 <= #[trigger] p[a] < nn);
            let od = dims(self.shape@, self.strides@);
            let nd = dims(l.shape@, l.strides@);
            assert forall|a: int| 0 <= a < nn implies #[trigger] nd[a] == od[p[a]] by {
                assert(l.shape@[a] == self.shape@[order@[a] as int]);
                assert(l.strides@[a] == self.strides@[order@[a] as int]);
            }
            crate::tensor::arith::lemma_permuted_multiset(od, nd, p);
            crate::tensor::arith::lemma_span_multiset(nd, od);
            assert forall|a: int| 0 <= a < nn implies #[trigger] l.shape@[a] == self.shape@[p[a]] by {}
            crate::tensor::arith::lemma_permuted_multiset(self.shape@, l.shape@, p);
            crate::tensor::arith::lemma_product_multiset(l.shape@, self.shape@);
            crate::tensor::arith::lemma_pprod_multiset(l.shape@, self.shape@);
        }
        Ok(l)
    }

    /// Removes every dimension of size 1 together with its stride; no buffer
    /// is involved. The element count is unchanged; a rank-0 layout results
    /// if every dimension was 1.
    pub fn squeeze(&self) -> (r: Layout)
        requires
            self.wf(),
        ensures
            r.wf(),
            dims(r.shape_spec(), r.strides_spec()) == dims(self.shape_spec(), self.strides_spec())
                .filter(|d: (usize, usize)| d.0 != 1),
            r.elems_spec() == self.elems_spec(),
            span(dims(r.shape_spec(), r.strides_spec())) <= span(
                dims(self.shape_spec(), self.strides_spec()),
            ),
    {
        let ghost od = dims(self.shape@, self.strides@);
        let n = self.shape.len();
        let mut shape: Vec<usize> = Vec::new();
        let mut strides: Vec<usize> = Vec::new();
        let mut i: usize = 0;
        proof {
            assert(od.take(0) =~= Seq::<(usize, usize)>::empty());
            assert(dims(shape@, strides@) =~= od.take(0).filter(|d: (usize, usize)| d.0 != 1));
            assert(self.shape@.take(0) =~= Seq::<usize>::empty());
        }
        while i < n
            invariant
                0 <= i <= n,
                n == self.shape@.len(),
                self.wf(),
                od == dims(self.shape@, self.strides@),
                shape@.len() == strides@.len(),
                dims(shape@, strides@) == od.take(i as int).filter(|d: (usize, usize)| d.0 != 1),
                product(shape@) == product(self.shape@.take(i as int)),
                padded_product(shape@) <= padded_product(self.shape@.take(i as int)),
                span(dims(shape@, strides@)) <= span(od.take(i as int)),
            decreases n - i,
        {
            let ghost old_sh = shape@;
            let ghost old_st = strides@;
            let s = self.shape[i];
            let t = self.strides[i];
            proof {
                assert(od.take(i + 1).drop_last() =~= od.take(i as int));
                assert(od.take(i + 1).last() == od[i as int]);
                assert(od.take(i + 1) =~= od.take(i as int).push(od[i as int]));
                assert(od[i as int] == (s, t));
                assert(self.shape@.take(i + 1) =~= self.shape@.take(i as int).push(s));
                lemma_product_push(self.shape@.take(i as int), s);
                crate::tensor::arith::lemma_span_push(od.take(i as int), od[i as int]);
                crate::tensor::arith::lemma_span_term_nonneg(od[i as int]);
                lemma_product_bounds(self.shape@.take(i as int));
                lemma_product_bounds(shape@);
            }
            if s != 1 {
                shape.push(s);
                strides.push(t);
                proof {
                    assert(dims(shape@, strides@) =~= dims(old_sh, old_st).push((s, t)));
                    crate::tensor::arith::lemma_span_push(dims(old_sh, old_st), (s, t));
                    lemma_product_push(old_sh, s);
                    let f: int = if s == 0 { 1 } else { s as int };
                    assert(padded_product(old_sh) * f <= padded_product(
                        self.shape@.take(i as int),
                    ) * f) by (nonlinear_arith)
                        requires
                            padded_product(old_sh) <= padded_product(self.shape@.take(i as int)),
                            f >= 1,
                    ;
                    assert(product(shape@) == product(old_sh) * s);
                    assert(product(shape@) == product(self.shape@.take(i + 1)));
                    lemma_filter_step(od, i as int);
                }
            } else {
                proof {
                    assert((s as int - 1) * (t as int) == 0) by (nonlinear_arith)
                        requires s == 1;
                    assert(span_term((s, t)) == 0);
                    assert(padded_product(self.shape@.take(i + 1)) == padded_product(
                        self.shape@.take(i as int),
                    ) * 1);
                    assert(product(self.shape@.take(i + 1)) == product(self.shape@.take(i as int)) * s);
                    assert(product(self.shape@.take(i as int)) * (s as int) == product(
                        self.shape@.take(i as int),
                    )) by (nonlinear_arith)
                        requires s == 1;
                    assert(product(shape@) == product(self.shape@.take(i + 1)));
                    lemma_filter_step(od, i as int);
                }
            }
            i += 1;
        }
        let l = Layout { shape, strides };
        proof {
            assert(od.take(n as int) =~= od);
            assert(self.shape@.take(n as int) =~= self.shape@);
            crate::tensor::arith::lemma_span_take_le(od, n as int);
            lemma_product_take_le(self.shape@, n as int);
        }
        l
    }
}

} // verus!

verus! {

/// The size of `s` seen at position `i` when `s` is aligned at the trailing
/// end of an `n`-dimensional shape; missing leading dimensions count as 1.
pub open spec fn aligned_dim(s: Seq<usize>, n: int, i: int) -> int {
    if i >= n - s.len() {
        s[i - (n - s.len())] as int
    } else {
        1
    }
}

/// The rank two shapes broadcast to: the larger of the two ranks.
pub open spec fn broadcast_rank(a: Seq<usize>, b: Seq<usize>) -> int {
    if a.len() >= b.len() {
        a.len() as int
    } else {
        b.len() as int
    }
}

/// NumPy-style broadcast compatibility: aligned at the trailing dimension,
/// every pair of sizes must be equal or contain a 1.
pub open spec fn compatible(a: Seq<usize>, b: Seq<usize>) -> bool {
    forall|i: int|
        0 <= i < broadcast_rank(a, b) ==> #[trigger] aligned_dim(a, broadcast_rank(a, b), i)
            == aligned_dim(b, broadcast_rank(a, b), i) || aligned_dim(a, broadcast_rank(a, b), i)
            == 1 || aligned_dim(b, broadcast_rank(a, b), i) == 1
}

/// The common shape two compatible shapes broadcast to: pointwise, a size-1
/// dimension adopts the other size and anything else keeps its own (for
/// compatible pairs that is the larger size, except that pairing 1 with 0
/// yields 0: nothing repeats into zero elements).
pub open spec fn broadcast_shape(a: Seq<usize>, b: Seq<usize>) -> Seq<usize> {
    Seq::new(
        broadcast_rank(a, b) as nat,
        |i: int|
            if aligned_dim(a, broadcast_rank(a, b), i) == 1 {
                aligned_dim(b, broadcast_rank(a, b), i) as usize
            } else {
                aligned_dim(a, broadcast_rank(a, b), i) as usize
            },
    )
}

/// Whether a layout of shape `s` can expand to `target`: `target` is at least
/// as long, and every aligned size of `s` either matches or is 1.
pub open spec fn expandable(s: Seq<usize>, target: Seq<usize>) -> bool {
    &&& target.len() >= s.len()
    &&& forall|j: int|
        0 <= j < s.len() ==> #[trigger] s[j] == target[j + target.len() - s.len()] || s[j] == 1
}

/// The strides of a layout with shape `sh` and strides `st` reinterpreted
/// over the superset shape `out`: prepended and broadcast-up dimensions get
/// stride 0 (the value repeats), matching dimensions keep their stride.
pub open spec fn expand_strides(sh: Seq<usize>, st: Seq<usize>, out: Seq<usize>) -> Seq<usize> {
    Seq::new(
        out.len() as nat,
        |i: int|
            if i < out.len() - sh.len() {
                0usize
            } else if sh[i - (out.len() - sh.len())] == 1 && out[i] != 1 {
                0usize
            } else {
                st[i - (out.len() - sh.len())]
            },
    )
}

impl Layout {
    /// Expands size-1 dimensions (and prepends leading dimensions) to reach
    /// the superset shape `shape` by giving every expanded dimension stride 0;
    /// no buffer grows. Fails exactly when a dimension of size other than 1
    /// would have to change, carrying the two shapes.
    pub fn expand(&self, shape: &[usize]) -> (r: Result<Layout, TensorError>)
        requires
            self.wf(),
            padded_product(shape@) <= usize::MAX as int,
        ensures
            expandable(self.shape_spec(), shape@) ==> (r matches Ok(l) && {
                &&& l.wf()
                &&& l.shape_spec() == shape@
                &&& l.strides_spec() == expand_strides(
                    self.shape_spec(),
                    self.strides_spec(),
                    shape@,
                )
                &&& span(dims(l.shape_spec(), l.strides_spec())) <= span(
                    dims(self.shape_spec(), self.strides_spec()),
                )
            }),
            !expandable(self.shape_spec(), shape@) ==> (r matches Err(e) && e matches TensorError::IncompatibleShapes(a, b)
                && a@ == self.shape_spec() && b@ == shape@),
    {
        let n = shape.len();
        let rk = self.shape.len();
        if n < rk {
            return Err(TensorError::IncompatibleShapes(
                slice_to_vec(self.shape.as_slice()),
                slice_to_vec(shape),
            ));
        }
        let pad = n - rk;
        let mut strides: Vec<usize> = Vec::new();
        let mut i: usize = 0;
        while i < n
            invariant
                0 <= i <= n,
                n == shape@.len(),
                rk == self.shape@.len(),
                self.wf(),
                pad == n - rk,
                n >= rk,
                strides@.len() == i,
                forall|m: int|
                    0 <= m < i ==> #[trigger] strides@[m] == expand_strides(
                        self.shape@,
                        self.strides@,
                        shape@,
                    )[m],
                forall|j: int|
                    0 <= j < i - pad ==> #[trigger] self.shape@[j] == shape@[j + pad] || self.shape@[j]
                        == 1,
            decreases n - i,
        {
            if i < pad {
                strides.push(0);
            } else {
                let j = i - pad;
                let sj = self.shape[j];
                if sj == shape[i] {
                    strides.push(self.strides[j]);
                } else if sj == 1 {
                    strides.push(0);
                } else {
                    return Err(TensorError::IncompatibleShapes(
                        slice_to_vec(self.shape.as_slice()),
                        slice_to_vec(shape),
                    ));
                }
            }
            i += 1;
        }
        let l = Layout { shape: slice_to_vec(shape), strides };
        proof {
            let ex = expand_strides(self.shape@, self.strides@, shape@);
            assert(l.strides@ =~= ex);
            let nd = dims(l.shape@, l.strides@);
            let head = nd.take(pad as int);
            let tail = nd.skip(pad as int);
            crate::tensor::arith::lemma_span_split(nd, pad as int);
            assert forall|m: int| 0 <= m < head.len() implies span_term(#[trigger] head[m]) == 0 by {
                assert(head[m] == nd[m]);
                assert(nd[m].1 == 0usize);
                if nd[m].0 > 0 {
                    assert((nd[m].0 - 1) * (nd[m].1 as int) == 0) by (nonlinear_arith)
                        requires nd[m].1 == 0usize;
                }
            }
            crate::tensor::arith::lemma_span_zero(head);
            let od = dims(self.shape@, self.strides@);
            assert(tail.len() == od.len());
            assert forall|m: int|
                0 <= m < tail.len() implies span_term(#[trigger] tail[m]) <= span_term(od[m]) by {
                assert(tail[m] == nd[m + pad]);
                crate::tensor::arith::lemma_span_term_nonneg(od[m]);
                if nd[m + pad].1 == 0usize {
                    if nd[m + pad].0 > 0 {
                        assert((nd[m + pad].0 - 1) * (nd[m + pad].1 as int) == 0) by (nonlinear_arith)
                            requires nd[m + pad].1 == 0usize;
                    }
                } else {
                    assert(nd[m + pad].1 == self.strides@[m]);
                    if self.shape@[m] == 1 {
                        assert(shape@[m + pad] == 1);
                        assert(span_term(tail[m]) == (1 - 1) * (self.strides@[m] as int));
                        assert((1 - 1) * (self.strides@[m] as int) == 0) by (nonlinear_arith);
                    } else {
                        assert(nd[m + pad].0 == self.shape@[m]);
                    }
                }
            }
            crate::tensor::arith::lemma_span_pointwise_le(tail, od);
        }
        Ok(l)
    }

    /// Broadcasts two layouts to their common shape: aligns the shapes at the
    /// trailing dimension, pads the shorter with leading 1s, and expands each
    /// size-1 dimension by stride-0 repetition. Fails exactly when some
    /// aligned pair of sizes is unequal with neither equal to 1, carrying the
    /// two original shapes. The precondition asks only that the broadcast
    /// shape's element count fit in `usize` when the shapes are compatible.
    pub fn broadcast(&self, other: &Layout) -> (r: Result<(Layout, Layout), TensorError>)
        requires
            self.wf(),
            other.wf(),
            compatible(self.shape_spec(), other.shape_spec()) ==> padded_product(
                broadcast_shape(self.shape_spec(), other.shape_spec()),
            ) <= usize::MAX as int,
        ensures
            compatible(self.shape_spec(), other.shape_spec()) ==> (r matches Ok(p) && {
                &&& p.0.wf()
                &&& p.1.wf()
                &&& p.0.shape_spec() == broadcast_shape(self.shape_spec(), other.shape_spec())
                &&& p.1.shape_spec() == broadcast_shape(self.shape_spec(), other.shape_spec())
                &&& p.0.strides_spec() == expand_strides(
                    self.shape_spec(),
                    self.strides_spec(),
                    broadcast_shape(self.shape_spec(), other.shape_spec()),
                )
                &&& p.1.strides_spec() == expand_strides(
                    other.shape_spec(),
                    other.strides_spec(),
                    broadcast_shape(self.shape_spec(), other.shape_spec()),
                )
                &&& span(dims(p.0.shape_spec(), p.0.strides_spec())) <= span(
                    dims(self.shape_spec(), self.strides_spec()),
                )
                &&& span(dims(p.1.shape_spec(), p.1.strides_spec())) <= span(
                    dims(other.shape_spec(), other.strides_spec()),
                )
            }),
            !compatible(self.shape_spec(), other.shape_spec()) ==> (r matches Err(e)
                && e matches TensorError::IncompatibleShapes(a, b) && a@ == self.shape_spec()
                && b@ == other.shape_spec()),
            r is Ok ==> compatible(self.shape_spec(), other.shape_spec()),
    {
        let ra = self.shape.len();
        let rb = other.shape.len();
        let n = if ra >= rb { ra } else { rb };
        let pa = n - ra;
        let pb = n - rb;
        let ghost bsh = broadcast_shape(self.shape@, other.shape@);
        let mut out: Vec<usize> = Vec::new();
        let mut i: usize = 0;
        while i < n
            invariant
                0 <= i <= n,
                ra == self.shape@.len(),
                rb == other.shape@.len(),
                n == broadcast_rank(self.shape@, other.shape@),
                pa == n - ra,
                pb == n - rb,
                bsh == broadcast_shape(self.shape@, other.shape@),
                out@.len() == i,
                forall|m: int| 0 <= m < i ==> #[trigger] out@[m] == bsh[m],
                forall|m: int|
                    0 <= m < i ==> #[trigger] aligned_dim(self.shape@, n as int, m) == aligned_dim(
                        other.shape@,
                        n as int,
                        m,
                    ) || aligned_dim(self.shape@, n as int, m) == 1 || aligned_dim(
                        other.shape@,
                        n as int,
                        m,
                    ) == 1,
            decreases n - i,
        {
            let da = if i < pa {
                1
            } else {
                self.shape[i - pa]
            };
            let db = if i < pb {
                1
            } else {
                other.shape[i - pb]
            };
            proof {
                assert(da as int == aligned_dim(self.shape@, n as int, i as int));
                assert(db as int == aligned_dim(other.shape@, n as int, i as int));
            }
            if da != db && da != 1 && db != 1 {
                return Err(TensorError::IncompatibleShapes(
                    slice_to_vec(self.shape.as_slice()),
                    slice_to_vec(other.shape.as_slice()),
                ));
            }
            if da == 1 {
                out.push(db);
            } else {
                out.push(da);
            }
            i += 1;
        }
        proof {
            assert(compatible(self.shape@, other.shape@));
            assert(out@ =~= bsh);
            assert(expandable(self.shape@, bsh)) by {
                assert forall|j: int|
                    0 <= j < self.shape@.len() implies #[trigger] self.shape@[j] == bsh[j + bsh.len()
                    - self.shape@.len()] || self.shape@[j] == 1 by {
                    let m = j + bsh.len() - self.shape@.len();
                    assert(aligned_dim(self.shape@, n as int, m) == self.shape@[j]);
                }
            }
            assert(expandable(other.shape@, bsh)) by {
                assert forall|j: int|
                    0 <= j < other.shape@.len() implies #[trigger] other.shape@[j] == bsh[j + bsh.len()
                    - other.shape@.len()] || other.shape@[j] == 1 by {
                    let m = j + bsh.len() - other.shape@.len();
                    assert(aligned_dim(other.shape@, n as int, m) == other.shape@[j]);
                }
            }
        }
        let la = match self.expand(out.as_slice()) {
            Ok(l) => l,
            Err(e) => {
                proof {
                    assert(false);
                }
                return Err(e);
            },
        };
        let lb = match other.expand(out.as_slice()) {
            Ok(l) => l,
            Err(e) => {
                proof {
                    assert(false);
                }
                return Err(e);
            },
        };
        Ok((la, lb))
    }
}

} // verus!

verus! {

/// The shape left by reducing away the dimensions listed in `ds`: each
/// reduced dimension's size becomes 1, the rest keep theirs.
pub open spec fn masked_shape(sh: Seq<usize>, ds: Seq<usize>) -> Seq<usize> {
    Seq::new(
        sh.len() as nat,
        |i: int|
            if ds.contains(i as usize) {
                1usize
            } else {
                sh[i]
            },
    )
}

/// The strides of the reducer layout: the row-major strides of the masked
/// shape, with stride 0 at every reduced dimension so that all source
/// indices along it land on one accumulator position.
pub open spec fn reducer_strides(sh: Seq<usize>, ds: Seq<usize>) -> Seq<usize> {
    Seq::new(
        sh.len() as nat,
        |i: int|
            if ds.contains(i as usize) {
                0usize
            } else {
                product(masked_shape(sh, ds).skip(i + 1)) as usize
            },
    )
}

/// Whether `ds` is a valid list of dimensions to reduce over a rank-`n`
/// layout: every entry in range and none repeated.
pub open spec fn valid_dims(ds: Seq<usize>, n: int) -> bool {
    &&& forall|i: int| 0 <= i < ds.len() ==> (#[trigger] ds[i]) < n
    &&& ds.no_duplicates()
}

impl Layout {
    /// Attempts to reinterpret this layout as `shape` without moving data:
    /// possible exactly when this layout is contiguous — every dimension of
    /// size above 1 carries its row-major stride — in which case a single
    /// row-major traversal visits buffer positions `0, 1, 2, …`, the order a
    /// canonical layout of `shape` expects over the same elements. Returns
    /// the canonical layout of `shape` when possible, `None` when a data pass
    /// is needed first, and fails exactly when the element counts differ,
    /// carrying the two shapes.
    pub fn reshape(&self, shape: &[usize]) -> (r: Result<Option<Layout>, TensorError>)
        requires
            self.wf(),
            padded_product(shape@) <= usize::MAX as int,
        ensures
            product(shape@) == self.elems_spec() && self.is_contiguous() ==> (r matches Ok(o)
                && o matches Some(l) && {
                &&& l.wf()
                &&& l.is_row_major()
                &&& l.shape_spec() == shape@
            }),
            product(shape@) == self.elems_spec() && !self.is_contiguous() ==> (r matches Ok(o)
                && o is None),
            product(shape@) != self.elems_spec() ==> (r matches Err(e)
                && e matches TensorError::IncompatibleShapes(a, b) && a@ == self.shape_spec()
                && b@ == shape@),
    {
        let target = Layout::from(shape);
        if target.elems() != self.elems() {
            return Err(TensorError::IncompatibleShapes(
                slice_to_vec(self.shape.as_slice()),
                slice_to_vec(shape),
            ));
        }
        let canon = Layout::from(self.shape.as_slice());
        let n = self.shape.len();
        let mut same = true;
        let mut i: usize = 0;
        while i < n
            invariant
                0 <= i <= n,
                n == self.shape@.len(),
                self.wf(),
                canon.shape_spec() == self.shape@,
                canon.is_row_major(),
                canon.strides_spec().len() == n,
                same <==> (forall|m: int|
                    0 <= m < i ==> (#[trigger] self.shape@[m]) <= 1 || self.strides@[m]
                        == canon.strides_spec()[m]),
            decreases n - i,
        {
            if self.shape[i] > 1 && self.strides[i] != canon.strides()[i] {
                same = false;
            }
            i += 1;
        }
        if same {
            proof {
                assert forall|m: int|
                    0 <= m < n implies (#[trigger] self.shape@[m]) <= 1 || self.strides@[m] as int
                    == product(self.shape@.skip(m + 1)) by {
                    assert(self.shape@[m] <= 1 || self.strides@[m] == canon.strides_spec()[m]);
                }
            }
            Ok(Some(target))
        } else {
            proof {
                if self.is_contiguous() {
                    assert forall|m: int|
                        0 <= m < n implies (#[trigger] self.shape@[m]) <= 1 || self.strides@[m]
                        == canon.strides_spec()[m] by {
                        if self.shape@[m] > 1 {
                            assert(self.strides@[m] as int == product(self.shape@.skip(m + 1)));
                            assert(canon.strides_spec()[m] as int == product(self.shape@.skip(m + 1)));
                        }
                    }
                }
            }
            Ok(None)
        }
    }

    /// Computes the layout pair for a reduction over the dimensions in
    /// `rdims`: the result layout — the canonical layout of the shape with
    /// those dimensions set to size 1 — and the reducer layout, which has the
    /// same shape but stride 0 along every reduced dimension, so that
    /// `index_to_position` maps each source index to the accumulator position
    /// its element is folded into. Every position the reducer produces for a
    /// valid source index lies inside the result's element count. Fails
    /// exactly when a dimension index is out of range or repeated, carrying
    /// the shape and the offending list.
    pub fn reduce(&self, rdims: &[usize]) -> (r: Result<(Layout, Layout), TensorError>)
        requires
            self.wf(),
        ensures
            valid_dims(rdims@, self.shape_spec().len() as int) ==> (r matches Ok(p) && {
                &&& p.0.wf()
                &&& p.0.is_row_major()
                &&& p.0.shape_spec() == masked_shape(self.shape_spec(), rdims@)
                &&& p.1.wf()
                &&& p.1.shape_spec() == masked_shape(self.shape_spec(), rdims@)
                &&& p.1.strides_spec() == reducer_strides(self.shape_spec(), rdims@)
                &&& forall|ix: Seq<int>|
                    in_range(ix, self.shape_spec()) ==> 0 <= #[trigger] dot(
                        ix,
                        ints(p.1.strides_spec()),
                    ) < p.0.elems_spec()
            }),
            !valid_dims(rdims@, self.shape_spec().len() as int) ==> (r matches Err(e)
                && e matches TensorError::IncompatibleShapes(a, b) && a@ == self.shape_spec()
                && b@ == rdims@),
    {
        let n = self.shape.len();
        let nd = rdims.len();
        let mut seen: Vec<bool> = Vec::new();
        let mut k: usize = 0;
        while k < n
            invariant
                seen@.len() == k,
                0 <= k <= n,
                forall|w: int| 0 <= w < k ==> !(#[trigger] seen@[w]),
            decreases n - k,
        {
            seen.push(false);
            k += 1;
        }
        let mut i: usize = 0;
        while i < nd
            invariant
                0 <= i <= nd,
                nd == rdims@.len(),
                n == self.shape@.len(),
                seen@.len() == n,
                forall|j: int| 0 <= j < i ==> (#[trigger] rdims@[j]) < n,
                forall|j: int, m: int|
                    0 <= j < i && 0 <= m < i && j != m ==> rdims@[j] != rdims@[m],
                forall|w: int|
                    0 <= w < n ==> ((#[trigger] seen@[w]) <==> (exists|j: int|
                        0 <= j < i && (#[trigger] rdims@[j]) as int == w)),
            decreases nd - i,
        {
            let v = rdims[i];
            if v >= n {
                return Err(TensorError::IncompatibleShapes(
                    slice_to_vec(self.shape.as_slice()),
                    slice_to_vec(rdims),
                ));
            }
            if seen[v] {
                proof {
                    let j = choose|j: int| 0 <= j < i && (#[trigger] rdims@[j]) as int == v as int;
                    assert(rdims@[j] == rdims@[i as int]);
                    assert(!rdims@.no_duplicates());
                }
                return Err(TensorError::IncompatibleShapes(
                    slice_to_vec(self.shape.as_slice()),
                    slice_to_vec(rdims),
                ));
            }
            seen.set(v, true);
            proof {
                assert forall|w: int|
                    0 <= w < n implies ((#[trigger] seen@[w]) <==> (exists|j: int|
                        0 <= j < i + 1 && (#[trigger] rdims@[j]) as int == w)) by {
                    if w == v as int {
                        assert(rdims@[i as int] as int == w);
                    }
                }
            }
            i += 1;
        }
        let ghost msk = masked_shape(self.shape@, rdims@);
        proof {
            assert forall|w: int| 0 <= w < n implies ((#[trigger] seen@[w]) <==> rdims@.contains(
                w as usize,
            )) by {}
        }
        let mut masked: Vec<usize> = Vec::new();
        let mut m: usize = 0;
        while m < n
            invariant
                0 <= m <= n,
                n == self.shape@.len(),
                self.wf(),
                seen@.len() == n,
                msk == masked_shape(self.shape@, rdims@),
                forall|w: int| 0 <= w < n ==> ((#[trigger] seen@[w]) <==> rdims@.contains(w as usize)),
                masked@.len() == m,
                forall|w: int| 0 <= w < m ==> #[trigger] masked@[w] == msk[w],
            decreases n - m,
        {
            if seen[m] {
                masked.push(1);
            } else {
                masked.push(self.shape[m]);
            }
            m += 1;
        }
        proof {
            assert(masked@ =~= msk);
            assert forall|w: int|
                0 <= w < n implies (if msk[w] == 0 {
                1int
            } else {
                msk[w] as int
            }) <= (if self.shape@[w] == 0 {
                1int
            } else {
                self.shape@[w] as int
            }) by {}
            crate::tensor::arith::lemma_pprod_pointwise_le(msk, self.shape@);
        }
        let res = Layout::from(masked.as_slice());
        let mut rst: Vec<usize> = Vec::new();
        let mut q: usize = 0;
        while q < n
            invariant
                0 <= q <= n,
                n == self.shape@.len(),
                seen@.len() == n,
                msk == masked_shape(self.shape@, rdims@),
                forall|w: int| 0 <= w < n ==> ((#[trigger] seen@[w]) <==> rdims@.contains(w as usize)),
                res.wf(),
                res.is_row_major(),
                res.shape_spec() == msk,
                rst@.len() == q,
                forall|w: int| 0 <= w < q ==> #[trigger] rst@[w] == reducer_strides(self.shape@, rdims@)[w],
            decreases n - q,
        {
            if seen[q] {
                rst.push(0);
            } else {
                rst.push(res.strides()[q]);
                proof {
                    lemma_product_skip_le(msk, q + 1);
                    lemma_product_bounds(msk);
                }
            }
            q += 1;
        }
        let red = Layout { shape: slice_to_vec(masked.as_slice()), strides: rst };
        proof {
            assert(red.shape@ =~= msk);
            assert(red.strides@ =~= reducer_strides(self.shape@, rdims@));
            let rd = dims(msk, red.strides@);
            let cd = dims(msk, res.strides_spec());
            assert forall|w: int| 0 <= w < n implies span_term(#[trigger] rd[w]) <= span_term(
                cd[w],
            ) by {
                crate::tensor::arith::lemma_span_term_nonneg(cd[w]);
                if rdims@.contains(w as usize) {
                    assert(rd[w].0 == 1usize);
                    assert((1 - 1) * (rd[w].1 as int) == 0) by (nonlinear_arith);
                }
            }
            crate::tensor::arith::lemma_span_pointwise_le(rd, cd);
            assert(red.wf());
            assert forall|ix: Seq<int>|
                in_range(ix, self.shape@) implies 0 <= #[trigger] dot(ix, ints(red.strides@))
                < res.elems_spec() by {
                let sd = dims(self.shape@, red.strides@);
                lemma_dot_le_span(ix, self.shape@, red.strides@);
                assert forall|w: int| 0 <= w < n implies span_term(#[trigger] sd[w]) <= span_term(
                    cd[w],
                ) by {
                    crate::tensor::arith::lemma_span_term_nonneg(cd[w]);
                    if rdims@.contains(w as usize) {
                        if sd[w].0 > 0 {
                            assert((sd[w].0 - 1) * (sd[w].1 as int) == 0) by (nonlinear_arith)
                                requires sd[w].1 == 0usize;
                        }
                    } else {
                        assert(sd[w] == cd[w]);
                    }
                }
                crate::tensor::arith::lemma_span_pointwise_le(sd, cd);
                lemma_span_row_major(msk, res.strides_spec());
                assert forall|w: int| 0 <= w < n implies msk[w] > 0 by {
                    assert(0 <= ix[w] < self.shape@[w]);
                }
                crate::tensor::arith::lemma_product_eq_padded(msk);
            }
        }
        Ok((res, red))
    }
}

} // verus!

verus! {

impl Layout {
    /// Law: on a canonical layout the index/position correspondence is a
    /// bijection. Converting any valid index to its buffer position and
    /// decomposing that position recovers the index; and every position below
    /// the element count decomposes to a valid index that maps back to it.
    pub proof fn lemma_index_position_round_trip(&self, ix: Seq<int>, k: int)
        requires
            self.wf(),
            self.is_row_major(),
            in_range(ix, self.shape_spec()),
            0 <= k < self.elems_spec(),
        ensures
            0 <= self.position_spec(ix) < self.elems_spec(),
            multi_index(self.shape_spec(), self.position_spec(ix)) == ix,
            in_range(multi_index(self.shape_spec(), k), self.shape_spec()),
            self.position_spec(multi_index(self.shape_spec(), k)) == k,
    {
        lemma_radix_encode(ix, self.shape_spec());
        lemma_radix_decode(self.shape_spec(), k);
        assert(ints(self.strides_spec()) =~= row_major(self.shape_spec()));
    }
}

/// A lazy, finite, restartable walk over all valid indices of a layout's
/// shape, in row-major order: the last dimension varies fastest.
pub struct IndexIterator {
    scan: Layout,
    cursor: usize,
    total: usize,
}

impl IndexIterator {
    /// The shape whose indices are walked.
    pub closed spec fn shape_spec(&self) -> Seq<usize> {
        self.scan.shape_spec()
    }

    /// How many indices have been handed out.
    pub closed spec fn cursor_spec(&self) -> int {
        self.cursor as int
    }

    /// Well-formedness: the embedded layout is the shape's canonical layout
    /// and the cursor is within the element count.
    pub open spec fn wf(&self) -> bool {
        &&& self.inner_spec().wf()
        &&& self.inner_spec().is_row_major()
        &&& 0 <= self.cursor_spec() <= self.total_spec()
        &&& self.total_spec() == product(self.shape_spec())
    }

    /// The embedded canonical layout.
    pub closed spec fn inner_spec(&self) -> Layout {
        self.scan
    }

    /// The element count being walked.
    pub closed spec fn total_spec(&self) -> int {
        self.total as int
    }

    /// The next index in row-major order, or `None` when the walk is done.
    pub fn next(&mut self) -> (r: Option<Vec<usize>>)
        requires
            old(self).wf(),
        ensures
            final(self).wf(),
            final(self).shape_spec() == old(self).shape_spec(),
            final(self).total_spec() == old(self).total_spec(),
            old(self).cursor_spec() < old(self).total_spec() ==> (r matches Some(ix) && ints(ix@)
                == multi_index(old(self).shape_spec(), old(self).cursor_spec())
                && in_range(ints(ix@), old(self).shape_spec()) && final(self).cursor_spec() == old(
                self,
            ).cursor_spec() + 1),
            old(self).cursor_spec() >= old(self).total_spec() ==> r is None && *final(self)
                == *old(self),
    {
        if self.cursor < self.total {
            let ix = self.scan.position_to_index(self.cursor);
            self.cursor += 1;
            Some(ix)
        } else {
            None
        }
    }

    /// Restarts the walk from the first index.
    pub fn restart(&mut self)
        requires
            old(self).wf(),
        ensures
            final(self).wf(),
            final(self).shape_spec() == old(self).shape_spec(),
            final(self).total_spec() == old(self).total_spec(),
            final(self).cursor_spec() == 0,
    {
        self.cursor = 0;
    }
}

impl Layout {
    /// A lazy, finite, restartable sequence of all valid indices of this
    /// layout's shape, in row-major order.
    pub fn iter_index(&self) -> (r: IndexIterator)
        requires
            self.wf(),
        ensures
            r.wf(),
            r.shape_spec() == self.shape_spec(),
            r.cursor_spec() == 0,
            r.total_spec() == self.elems_spec(),
    {
        let scan = Layout::from(self.shape().as_slice());
        let total = scan.elems();
        IndexIterator { scan, cursor: 0, total }
    }
}

/// A lazy, finite, restartable walk over the buffer positions a layout's
/// row-major index walk visits: `index_to_position` applied to each index in
/// turn — the order an elementwise traversal reads the buffer.
pub struct PositionIterator {
    view_layout: Layout,
    indices: IndexIterator,
}

impl PositionIterator {
    /// The layout whose positions are walked.
    pub closed spec fn layout_of(&self) -> Layout {
        self.view_layout
    }

    /// How many positions have been handed out.
    pub closed spec fn cursor_spec(&self) -> int {
        self.indices.cursor_spec()
    }

    /// The element count being walked.
    pub closed spec fn total_spec(&self) -> int {
        self.indices.total_spec()
    }

    /// Well-formedness: the index walk runs over the layout's own shape.
    pub open spec fn wf(&self) -> bool {
        &&& self.layout_of().wf()
        &&& self.inner_spec().wf()
        &&& self.inner_spec().shape_spec() == self.layout_of().shape_spec()
        &&& self.cursor_spec() == self.inner_spec().cursor_spec()
        &&& self.total_spec() == self.inner_spec().total_spec()
    }

    /// The embedded index iterator.
    pub closed spec fn inner_spec(&self) -> IndexIterator {
        self.indices
    }

    /// The buffer position the layout assigns to position `k` of the walk.
    pub open spec fn position_at(&self, k: int) -> int {
        self.layout_of().position_spec(multi_index(self.layout_of().shape_spec(), k))
    }

    /// The next buffer position, or `None` when the walk is done.
    pub fn next(&mut self) -> (r: Option<usize>)
        requires
            old(self).wf(),
        ensures
            final(self).wf(),
            final(self).layout_of() == old(self).layout_of(),
            final(self).total_spec() == old(self).total_spec(),
            old(self).cursor_spec() < old(self).total_spec() ==> (r matches Some(p) && p as int
                == old(self).position_at(old(self).cursor_spec()) && final(self).cursor_spec()
                == old(self).cursor_spec() + 1),
            old(self).cursor_spec() >= old(self).total_spec() ==> r is None && *final(self)
                == *old(self),
    {
        let ix = match self.indices.next() {
            Some(ix) => ix,
            None => {
                return None;
            },
        };
        proof {
            lemma_dot_le_span(ints(ix@), self.view_layout.shape_spec(), self.view_layout.strides_spec());
        }
        Some(self.view_layout.index_to_position(ix.as_slice()))
    }

    /// Restarts the walk from the first position.
    pub fn restart(&mut self)
        requires
            old(self).wf(),
        ensures
            final(self).wf(),
            final(self).layout_of() == old(self).layout_of(),
            final(self).total_spec() == old(self).total_spec(),
            final(self).cursor_spec() == 0,
    {
        self.indices.restart();
    }
}

impl Layout {
    /// A lazy, finite, restartable sequence of the buffer positions the
    /// row-major index walk visits under this layout.
    pub fn iter_position(&self) -> (r: PositionIterator)
        requires
            self.wf(),
        ensures
            r.wf(),
            r.layout_of().shape_spec() == self.shape_spec(),
            r.layout_of().strides_spec() == self.strides_spec(),
            r.cursor_spec() == 0,
            r.total_spec() == self.elems_spec(),
    {
        let indices = self.iter_index();
        let view_layout = Layout {
            shape: slice_to_vec(self.shape.as_slice()),
            strides: slice_to_vec(self.strides.as_slice()),
        };
        PositionIterator { view_layout, indices }
    }
}

} // verus!

verus! {

/// Expanding a layout's strides over a superset shape never enlarges the
/// span: prepended and broadcast-up dimensions contribute stride 0, and a
/// matching dimension keeps its term.
pub proof fn lemma_expand_span(sh: Seq<usize>, st: Seq<usize>, out: Seq<usize>)
    requires
        st.len() == sh.len(),
        expandable(sh, out),
    ensures
        span(dims(out, expand_strides(sh, st, out))) <= span(dims(sh, st)),
{
    let ex = expand_strides(sh, st, out);
    let nd = dims(out, ex);
    let pad = out.len() - sh.len();
    let head = nd.take(pad as int);
    let tail = nd.skip(pad as int);
    crate::tensor::arith::lemma_span_split(nd, pad as int);
    assert forall|m: int| 0 <= m < head.len() implies span_term(#[trigger] head[m]) == 0 by {
        assert(head[m] == nd[m]);
        assert(nd[m].1 == 0usize);
        if nd[m].0 > 0 {
            assert((nd[m].0 - 1) * (nd[m].1 as int) == 0) by (nonlinear_arith)
                requires nd[m].1 == 0usize;
        }
    }
    crate::tensor::arith::lemma_span_zero(head);
    let od = dims(sh, st);
    assert(tail.len() == od.len());
    assert forall|m: int|
        0 <= m < tail.len() implies span_term(#[trigger] tail[m]) <= span_term(od[m]) by {
        assert(tail[m] == nd[m + pad]);
        crate::tensor::arith::lemma_span_term_nonneg(od[m]);
        if nd[m + pad].1 == 0usize {
            if nd[m + pad].0 > 0 {
                assert((nd[m + pad].0 - 1) * (nd[m + pad].1 as int) == 0) by (nonlinear_arith)
                    requires nd[m + pad].1 == 0usize;
            }
        } else {
            assert(nd[m + pad].1 == st[m]);
            if sh[m] == 1 {
                assert(out[m + pad] == 1);
                assert(span_term(tail[m]) == (1 - 1) * (st[m] as int));
                assert((1 - 1) * (st[m] as int) == 0) by (nonlinear_arith);
            } else {
                assert(nd[m + pad].0 == sh[m]);
            }
        }
    }
    crate::tensor::arith::lemma_span_pointwise_le(tail, od);
}

/// Two compatible shapes each expand to their common broadcast shape.
pub proof fn lemma_broadcast_expandable(a: Seq<usize>, b: Seq<usize>)
    requires
        compatible(a, b),
    ensures
        expandable(a, broadcast_shape(a, b)),
        expandable(b, broadcast_shape(a, b)),
{
    let n = broadcast_rank(a, b);
    let bsh = broadcast_shape(a, b);
    assert forall|j: int|
        0 <= j < a.len() implies #[trigger] a[j] == bsh[j + bsh.len() - a.len()] || a[j] == 1 by {
        let m = j + n - a.len();
        assert(aligned_dim(a, n, m) == a[j]);
        assert(aligned_dim(a, n, m) == aligned_dim(b, n, m) || aligned_dim(a, n, m) == 1
            || aligned_dim(b, n, m) == 1);
    }
    assert forall|j: int|
        0 <= j < b.len() implies #[trigger] b[j] == bsh[j + bsh.len() - b.len()] || b[j] == 1 by {
        let m = j + n - b.len();
        assert(aligned_dim(b, n, m) == b[j]);
        assert(aligned_dim(a, n, m) == aligned_dim(b, n, m) || aligned_dim(a, n, m) == 1
            || aligned_dim(b, n, m) == 1);
    }
}

} // verus!

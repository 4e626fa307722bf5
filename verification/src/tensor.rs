//! An N-dimension tensor.

pub mod arith;
pub mod error;
pub mod layout;

use std::rc::Rc;

use vstd::prelude::*;

use self::arith::{
    dims, dot, in_range, ints, lemma_dot_le_span, lemma_product_bounds, lemma_radix_decode,
    multi_index, padded_product, product, span,
};
use self::error::TensorError;
use self::layout::{aligned_dim, broadcast_rank, broadcast_shape, compatible, expand_strides, Layout};

verus! {

/// An N-dimension array holding elements in row-major logical order. Tensors
/// are immutable and new ones are created each time an operation is
/// performed. The underlying data is shared by reference counting and only
/// copied when an operation cannot be expressed as a reinterpretation of the
/// existing buffer.
#[derive(Debug)]
pub struct Tensor<T> {
    data: Rc<Vec<T>>,
    layout: Layout,
}

/// Relies on std's `Rc::clone`: the returned handle points at the same
/// allocation, so it holds the same vector.
#[verifier::external_body]
fn rc_clone<T>(rc: &Rc<Vec<T>>) -> (r: Rc<Vec<T>>)
    ensures
        r@ == rc@,
{
    Rc::clone(rc)
}

impl<T: Copy> Tensor<T> {
    /// The shared buffer's contents.
    pub closed spec fn data_spec(&self) -> Seq<T> {
        self.data@
    }

    /// The layout mapping logical indices into the buffer.
    pub closed spec fn layout_spec(&self) -> Layout {
        self.layout
    }

    /// The tensor's shape.
    pub open spec fn shape_spec(&self) -> Seq<usize> {
        self.layout_spec().shape_spec()
    }

    /// The number of logical elements.
    pub open spec fn elems_spec(&self) -> int {
        self.layout_spec().elems_spec()
    }

    /// Well-formedness: the layout is well formed, and (unless the tensor is
    /// empty) every position the layout can produce for a valid index lies
    /// inside the buffer.
    pub open spec fn wf(&self) -> bool {
        &&& self.layout_spec().wf()
        &&& (self.elems_spec() == 0 || span(
            dims(self.shape_spec(), self.layout_spec().strides_spec()),
        ) < self.data_spec().len())
    }

    /// The element a valid multi-index denotes.
    pub open spec fn elem_spec(&self, ix: Seq<int>) -> T {
        self.data_spec()[self.layout_spec().position_spec(ix)]
    }

    /// The logical value sequence: the elements in row-major order of their
    /// indices, honoring every view transformation, independent of physical
    /// buffer order.
    pub open spec fn logical(&self) -> Seq<T> {
        Seq::new(
            self.elems_spec() as nat,
            |k: int| self.elem_spec(multi_index(self.shape_spec(), k)),
        )
    }

    /// The element of this tensor that position `k` of a traversal over the
    /// broadcast shape `out` reads: the buffer entry under the stride-0
    /// expanded strides.
    pub open spec fn broadcast_elem(&self, out: Seq<usize>, k: int) -> T {
        self.data_spec()[dot(
            multi_index(out, k),
            ints(expand_strides(self.shape_spec(), self.layout_spec().strides_spec(), out)),
        )]
    }

    /// A valid multi-index of a well-formed non-empty tensor lands strictly
    /// inside the buffer.
    proof fn lemma_position_in_buffer(&self, ix: Seq<int>)
        requires
            self.wf(),
            in_range(ix, self.shape_spec()),
        ensures
            0 <= self.layout_spec().position_spec(ix) < self.data_spec().len(),
            self.layout_spec().position_spec(ix) <= span(
                dims(self.shape_spec(), self.layout_spec().strides_spec()),
            ),
            self.elems_spec() > 0,
    {
        lemma_dot_le_span(ix, self.shape_spec(), self.layout_spec().strides_spec());
        lemma_product_bounds(self.shape_spec());
        assert forall|i: int| 0 <= i < self.shape_spec().len() implies self.shape_spec()[i] > 0 by {
            assert(0 <= ix[i] < self.shape_spec()[i]);
        }
    }

    /// A row-major tensor whose buffer holds exactly one value per element
    /// realizes its buffer as its logical sequence.
    proof fn lemma_canonical_logical(&self)
        requires
            self.layout_spec().wf(),
            self.layout_spec().is_row_major(),
            self.data_spec().len() == self.elems_spec(),
        ensures
            self.wf(),
            self.logical() == self.data_spec(),
    {
        let sh = self.shape_spec();
        let st = self.layout_spec().strides_spec();
        if self.elems_spec() > 0 {
            lemma_product_bounds(sh);
            crate::tensor::arith::lemma_product_eq_padded(sh);
            crate::tensor::arith::lemma_span_row_major(sh, st);
            assert(span(dims(sh, st)) <= self.elems_spec() - 1);
        }
        assert forall|k: int| 0 <= k < self.elems_spec() implies #[trigger] self.logical()[k]
            == self.data_spec()[k] by {
            lemma_radix_decode(sh, k);
            assert(ints(st) =~= crate::tensor::arith::row_major(sh));
            assert(self.layout_spec().position_spec(multi_index(sh, k)) == k);
        }
        assert(self.logical() =~= self.data_spec());
    }

    /// In a row-major tensor the logical sequence reads the buffer in order:
    /// logical position `p` is buffer position `p`.
    proof fn lemma_row_major_flat(&self, p: int)
        requires
            self.layout_spec().wf(),
            self.layout_spec().is_row_major(),
            0 <= p < self.elems_spec(),
        ensures
            self.logical()[p] == self.data_spec()[p],
    {
        lemma_radix_decode(self.shape_spec(), p);
        assert(ints(self.layout_spec().strides_spec()) =~= crate::tensor::arith::row_major(
            self.shape_spec(),
        ));
    }

    /// The canonical tensor over a freshly produced row-major buffer.
    fn canonical(shape: &[usize], data: Vec<T>) -> (r: Tensor<T>)
        requires
            padded_product(shape@) <= usize::MAX as int,
            data@.len() == product(shape@),
        ensures
            r.wf(),
            r.shape_spec() == shape@,
            r.layout_spec().is_row_major(),
            r.data_spec() == data@,
            r.logical() == data@,
    {
        let layout = Layout::from(shape);
        let r = Tensor { data: Rc::new(data), layout };
        proof {
            r.lemma_canonical_logical();
        }
        r
    }

    /// A rank-0 tensor holding a single scalar.
    pub fn scalar(x: T) -> (r: Tensor<T>)
        ensures
            r.wf(),
            r.shape_spec() == Seq::<usize>::empty(),
            r.logical() == seq![x],
    {
        let mut data: Vec<T> = Vec::new();
        data.push(x);
        let layout = Layout::scalar();
        let r = Tensor { data: Rc::new(data), layout };
        proof {
            r.lemma_canonical_logical();
            assert(r.logical() =~= seq![x]);
        }
        r
    }

    /// A rank-1 tensor over the given data.
    pub fn from(data: Vec<T>) -> (r: Tensor<T>)
        ensures
            r.wf(),
            r.shape_spec() == seq![data@.len() as usize],
            r.layout_spec().is_row_major(),
            r.logical() == data@,
    {
        let n = data.len();
        let mut shape: Vec<usize> = Vec::new();
        shape.push(n);
        proof {
            assert(shape@ =~= seq![n]);
            assert(seq![n].drop_first() =~= Seq::<usize>::empty());
            assert(padded_product(Seq::<usize>::empty()) == 1);
            assert(product(Seq::<usize>::empty()) == 1);
            assert(seq![n][0] == n && seq![n].len() == 1);
            assert(padded_product(seq![n]) == (if n == 0 { 1int } else { n as int }) * 1);
            assert(product(seq![n]) == n as int * 1);
            assert((if n == 0 { 1int } else { n as int }) * 1 <= usize::MAX as int) by (nonlinear_arith)
                requires n <= usize::MAX;
            assert(n as int * 1 == n as int) by (nonlinear_arith);
        }
        Self::canonical(shape.as_slice(), data)
    }

    /// A tensor of the given shape over the given data, which must hold
    /// exactly one value per element; fails otherwise, carrying the shape and
    /// the data length.
    pub fn shaped(shape: &[usize], data: &[T]) -> (r: Result<Tensor<T>, TensorError>)
        requires
            padded_product(shape@) <= usize::MAX as int,
        ensures
            product(shape@) == data@.len() ==> (r matches Ok(t) && {
                &&& t.wf()
                &&& t.shape_spec() == shape@
                &&& t.layout_spec().is_row_major()
                &&& t.logical() == data@
            }),
            product(shape@) != data@.len() ==> (r matches Err(e)
                && e matches TensorError::IncompatibleShapes(a, b) && a@ == shape@ && b@ == seq![
                data@.len() as usize,
            ]),
    {
        let layout = Layout::from(shape);
        if layout.elems() != data.len() {
            let mut lv: Vec<usize> = Vec::new();
            lv.push(data.len());
            proof {
                assert(lv@ =~= seq![data@.len() as usize]);
            }
            return Err(TensorError::IncompatibleShapes(vstd::slice::slice_to_vec(shape), lv));
        }
        Ok(Self::canonical(shape, vstd::slice::slice_to_vec(data)))
    }

    /// The layout of this tensor.
    pub fn layout(&self) -> (r: &Layout)
        ensures
            *r == self.layout_spec(),
    {
        &self.layout
    }

    /// The value at a flat buffer position (read-only; positions come from
    /// the layout's position arithmetic).
    pub fn at(&self, position: usize) -> (r: T)
        requires
            position < self.data_spec().len(),
        ensures
            r == self.data_spec()[position as int],
    {
        (*self.data)[position]
    }

    /// The value at a full per-dimension index.
    pub fn get(&self, index: &[usize]) -> (r: T)
        requires
            self.wf(),
            in_range(ints(index@), self.shape_spec()),
        ensures
            r == self.elem_spec(ints(index@)),
    {
        proof {
            self.lemma_position_in_buffer(ints(index@));
        }
        let pos = self.layout.index_to_position(index);
        self.at(pos)
    }

    /// The logical row-major realization of the tensor: every element, in the
    /// order `iter_index` produces the indices.
    pub fn to_values(&self) -> (r: Vec<T>)
        requires
            self.wf(),
        ensures
            r@ == self.logical(),
    {
        let n = self.layout.elems();
        let scan = Layout::from(self.layout.shape().as_slice());
        let mut r: Vec<T> = Vec::new();
        let mut k: usize = 0;
        while k < n
            invariant
                0 <= k <= n,
                self.wf(),
                n as int == self.elems_spec(),
                scan.wf(),
                scan.is_row_major(),
                scan.shape_spec() == self.shape_spec(),
                r@.len() == k,
                forall|m: int| 0 <= m < k ==> #[trigger] r@[m] == self.logical()[m],
            decreases n - k,
        {
            let ix = scan.position_to_index(k);
            proof {
                self.lemma_position_in_buffer(ints(ix@));
            }
            let pos = self.layout.index_to_position(ix.as_slice());
            r.push(self.at(pos));
            k += 1;
        }
        proof {
            assert(r@ =~= self.logical());
        }
        r
    }

    /// Applies `op` to every element, producing a fresh row-major tensor of
    /// the same shape. Never fails.
    pub fn map<F: Fn(T) -> T>(&self, op: F) -> (r: Tensor<T>)
        requires
            self.wf(),
            forall|x: T| call_requires(op, (x,)),
        ensures
            r.wf(),
            r.shape_spec() == self.shape_spec(),
            r.layout_spec().is_row_major(),
            r.logical().len() == self.logical().len(),
            forall|k: int|
                0 <= k < r.logical().len() ==> call_ensures(
                    op,
                    (self.logical()[k],),
                    #[trigger] r.logical()[k],
                ),
    {
        let vals = self.to_values();
        let n = vals.len();
        let mut out: Vec<T> = Vec::new();
        let mut k: usize = 0;
        while k < n
            invariant
                0 <= k <= n,
                n == vals@.len(),
                forall|x: T| call_requires(op, (x,)),
                out@.len() == k,
                forall|m: int|
                    0 <= m < k ==> call_ensures(op, (vals@[m],), #[trigger] out@[m]),
            decreases n - k,
        {
            out.push(op(vals[k]));
            k += 1;
        }
        proof {
            lemma_product_bounds(self.shape_spec());
        }
        Self::canonical(self.layout.shape().as_slice(), out)
    }

    /// Applies the binary `op` to the elements of `self` and `other` paired
    /// under NumPy-style broadcasting, in lockstep row-major order over the
    /// common shape, producing a fresh row-major tensor of that shape. Fails
    /// exactly when the shapes are not broadcast-compatible, carrying both.
    pub fn zip<F: Fn(T, T) -> T>(&self, other: &Tensor<T>, op: F) -> (r: Result<
        Tensor<T>,
        TensorError,
    >)
        requires
            self.wf(),
            other.wf(),
            forall|x: T, y: T| call_requires(op, (x, y)),
            compatible(self.shape_spec(), other.shape_spec()) ==> padded_product(
                broadcast_shape(self.shape_spec(), other.shape_spec()),
            ) <= usize::MAX as int,
        ensures
            compatible(self.shape_spec(), other.shape_spec()) ==> (r matches Ok(t) && {
                &&& t.wf()
                &&& t.shape_spec() == broadcast_shape(self.shape_spec(), other.shape_spec())
                &&& t.layout_spec().is_row_major()
                &&& t.logical().len() == product(
                    broadcast_shape(self.shape_spec(), other.shape_spec()),
                )
                &&& forall|k: int|
                    0 <= k < t.logical().len() ==> call_ensures(
                        op,
                        (
                            self.broadcast_elem(
                                broadcast_shape(self.shape_spec(), other.shape_spec()),
                                k,
                            ),
                            other.broadcast_elem(
                                broadcast_shape(self.shape_spec(), other.shape_spec()),
                                k,
                            ),
                        ),
                        #[trigger] t.logical()[k],
                    )
            }),
            !compatible(self.shape_spec(), other.shape_spec()) ==> (r matches Err(e)
                && e matches TensorError::IncompatibleShapes(a, b) && a@ == self.shape_spec()
                && b@ == other.shape_spec()),
    {
        let (la, lb) = match self.layout.broadcast(&other.layout) {
            Ok(p) => p,
            Err(e) => {
                return Err(e);
            },
        };
        let ghost out_sh = broadcast_shape(self.shape_spec(), other.shape_spec());
        let n = la.elems();
        let scan = Layout::from(la.shape().as_slice());
        let mut out: Vec<T> = Vec::new();
        let mut k: usize = 0;
        while k < n
            invariant
                0 <= k <= n,
                self.wf(),
                other.wf(),
                forall|x: T, y: T| call_requires(op, (x, y)),
                la.wf(),
                lb.wf(),
                compatible(self.shape_spec(), other.shape_spec()),
                out_sh == broadcast_shape(self.shape_spec(), other.shape_spec()),
                la.shape_spec() == out_sh,
                lb.shape_spec() == out_sh,
                la.strides_spec() == expand_strides(
                    self.shape_spec(),
                    self.layout_spec().strides_spec(),
                    out_sh,
                ),
                lb.strides_spec() == expand_strides(
                    other.shape_spec(),
                    other.layout_spec().strides_spec(),
                    out_sh,
                ),
                span(dims(la.shape_spec(), la.strides_spec())) <= span(
                    dims(self.shape_spec(), self.layout_spec().strides_spec()),
                ),
                span(dims(lb.shape_spec(), lb.strides_spec())) <= span(
                    dims(other.shape_spec(), other.layout_spec().strides_spec()),
                ),
                n as int == product(out_sh),
                scan.wf(),
                scan.is_row_major(),
                scan.shape_spec() == out_sh,
                out@.len() == k,
                forall|m: int|
                    0 <= m < k ==> call_ensures(
                        op,
                        (self.broadcast_elem(out_sh, m), other.broadcast_elem(out_sh, m)),
                        #[trigger] out@[m],
                    ),
            decreases n - k,
        {
            let ix = scan.position_to_index(k);
            proof {
                lemma_dot_le_span(ints(ix@), out_sh, la.strides_spec());
                lemma_dot_le_span(ints(ix@), out_sh, lb.strides_spec());
                assert forall|i: int| 0 <= i < out_sh.len() implies out_sh[i] > 0 by {
                    assert(0 <= ints(ix@)[i] < out_sh[i]);
                }
                let nn = broadcast_rank(self.shape_spec(), other.shape_spec());
                assert(out_sh.len() == nn);
                assert(in_range(ints(ix@), out_sh));
                assert(nn >= self.shape_spec().len() && nn >= other.shape_spec().len());
                assert forall|i: int| 0 <= i < self.shape_spec().len() implies self.shape_spec()[i]
                    > 0 by {
                    let m = i + nn - self.shape_spec().len();
                    assert(0 <= m < nn);
                    assert(aligned_dim(self.shape_spec(), nn, m) == self.shape_spec()[i] as int);
                    assert(0 <= ints(ix@)[m] < out_sh[m]);
                    if self.shape_spec()[i] != 1 {
                        assert(out_sh[m] as int == aligned_dim(self.shape_spec(), nn, m));
                    }
                }
                assert forall|i: int|
                    0 <= i < other.shape_spec().len() implies other.shape_spec()[i] > 0 by {
                    let m = i + nn - other.shape_spec().len();
                    assert(0 <= m < nn);
                    assert(aligned_dim(other.shape_spec(), nn, m) == other.shape_spec()[i] as int);
                    assert(0 <= ints(ix@)[m] < out_sh[m]);
                    if other.shape_spec()[i] != 1 {
                        if aligned_dim(self.shape_spec(), nn, m) == 1 {
                            assert(out_sh[m] as int == aligned_dim(other.shape_spec(), nn, m));
                        } else {
                            assert(aligned_dim(self.shape_spec(), nn, m) == aligned_dim(
                                other.shape_spec(),
                                nn,
                                m,
                            ));
                            assert(out_sh[m] as int == aligned_dim(other.shape_spec(), nn, m));
                        }
                    }
                }
                lemma_product_bounds(self.shape_spec());
                lemma_product_bounds(other.shape_spec());
            }
            let pa = la.index_to_position(ix.as_slice());
            let pb = lb.index_to_position(ix.as_slice());
            let v = op(self.at(pa), other.at(pb));
            out.push(v);
            k += 1;
        }
        let t = Self::canonical(la.shape().as_slice(), out);
        proof {
            assert forall|k: int|
                0 <= k < t.logical().len() implies call_ensures(
                op,
                (self.broadcast_elem(out_sh, k), other.broadcast_elem(out_sh, k)),
                #[trigger] t.logical()[k],
            ) by {
                assert(t.logical()[k] == out@[k]);
            }
        }
        Ok(t)
    }
}

} // verus!

verus! {

/// One accumulation trace of a reduction over the dimensions `rdims` of
/// `shape`: `vals` is the source's logical value sequence and `tr` lists the
/// accumulator buffer after each source element has been folded in, in the
/// row-major order of the source's indices. Step `j` folds `vals[j]` into the
/// accumulator position the reducer strides give its index, through `op`, and
/// touches nothing else.
pub open spec fn fold_trace<T: Copy, F: Fn(T, T) -> T>(
    vals: Seq<T>,
    shape: Seq<usize>,
    rdims: Seq<usize>,
    op: F,
    default: T,
    tr: Seq<Seq<T>>,
) -> bool {
    &&& vals.len() == product(shape)
    &&& tr.len() == vals.len() + 1
    &&& tr[0] == Seq::new(
        product(crate::tensor::layout::masked_shape(shape, rdims)) as nat,
        |i: int| default,
    )
    &&& forall|j: int|
        0 <= j < tr.len() - 1 ==> {
            let dst = dot(
                multi_index(shape, j),
                ints(crate::tensor::layout::reducer_strides(shape, rdims)),
            );
            &&& #[trigger] tr[j + 1] == tr[j].update(dst, tr[j + 1][dst])
            &&& call_ensures(op, (tr[j][dst], vals[j]), tr[j + 1][dst])
        }
}

impl<T: Copy> Tensor<T> {
    /// Folds all elements along the given dimensions into single elements
    /// with `op`, starting from `default`, visiting source elements in
    /// row-major order; the result keeps the source's rank, with every
    /// reduced dimension's size set to 1. Fails exactly when a dimension
    /// index is out of range or repeated, carrying the shape and the list.
    pub fn reduce<F: Fn(T, T) -> T>(&self, rdims: &[usize], default: T, op: F) -> (r: Result<
        Tensor<T>,
        TensorError,
    >)
        requires
            self.wf(),
            forall|x: T, y: T| call_requires(op, (x, y)),
        ensures
            crate::tensor::layout::valid_dims(rdims@, self.shape_spec().len() as int) ==> (
            r matches Ok(t) && {
                &&& t.wf()
                &&& t.shape_spec() == crate::tensor::layout::masked_shape(self.shape_spec(), rdims@)
                &&& t.layout_spec().is_row_major()
                &&& exists|tr: Seq<Seq<T>>|
                    fold_trace(self.logical(), self.shape_spec(), rdims@, op, default, tr)
                        && t.logical() == tr.last()
            }),
            !crate::tensor::layout::valid_dims(rdims@, self.shape_spec().len() as int) ==> (
            r matches Err(e) && e matches TensorError::IncompatibleShapes(a, b)
                && a@ == self.shape_spec() && b@ == rdims@),
    {
        let (res_l, red_l) = match self.layout.reduce(rdims) {
            Ok(p) => p,
            Err(e) => {
                return Err(e);
            },
        };
        let ghost msk = crate::tensor::layout::masked_shape(self.shape_spec(), rdims@);
        let n_out = res_l.elems();
        let mut acc: Vec<T> = Vec::new();
        let mut w: usize = 0;
        while w < n_out
            invariant
                acc@.len() == w,
                0 <= w <= n_out,
                forall|m: int| 0 <= m < w ==> #[trigger] acc@[m] == default,
            decreases n_out - w,
        {
            acc.push(default);
            w += 1;
        }
        let n_src = self.layout.elems();
        let scan = Layout::from(self.layout.shape().as_slice());
        let ghost mut tr: Seq<Seq<T>> = seq![acc@];
        proof {
            assert(acc@ =~= Seq::new(product(msk) as nat, |i: int| default));
        }
        let mut k: usize = 0;
        while k < n_src
            invariant
                0 <= k <= n_src,
                self.wf(),
                forall|x: T, y: T| call_requires(op, (x, y)),
                n_src as int == self.elems_spec(),
                msk == crate::tensor::layout::masked_shape(self.shape_spec(), rdims@),
                res_l.wf(),
                res_l.is_row_major(),
                res_l.shape_spec() == msk,
                red_l.wf(),
                red_l.shape_spec() == msk,
                red_l.strides_spec() == crate::tensor::layout::reducer_strides(
                    self.shape_spec(),
                    rdims@,
                ),
                forall|ix: Seq<int>|
                    in_range(ix, self.shape_spec()) ==> 0 <= #[trigger] dot(
                        ix,
                        ints(red_l.strides_spec()),
                    ) < res_l.elems_spec(),
                scan.wf(),
                scan.is_row_major(),
                scan.shape_spec() == self.shape_spec(),
                acc@.len() == res_l.elems_spec(),
                n_out as int == res_l.elems_spec(),
                tr.len() == k + 1,
                tr[0] == Seq::new(product(msk) as nat, |i: int| default),
                tr.last() == acc@,
                forall|j: int|
                    0 <= j < k ==> {
                        let dst = dot(
                            multi_index(self.shape_spec(), j),
                            ints(crate::tensor::layout::reducer_strides(self.shape_spec(), rdims@)),
                        );
                        &&& #[trigger] tr[j + 1] == tr[j].update(dst, tr[j + 1][dst])
                        &&& call_ensures(op, (tr[j][dst], self.logical()[j]), tr[j + 1][dst])
                    },
            decreases n_src - k,
        {
            let ix = scan.position_to_index(k);
            proof {
                self.lemma_position_in_buffer(ints(ix@));
            }
            let spos = self.layout.index_to_position(ix.as_slice());
            let dpos = red_l.index_to_position(ix.as_slice());
            let cur = acc[dpos];
            let v = op(cur, self.at(spos));
            acc.set(dpos, v);
            proof {
                tr = tr.push(acc@);
                assert(tr.last() == acc@);
                let j = k as int;
                assert(tr[j + 1] =~= tr[j].update(dpos as int, v));
                assert(self.logical()[j] == self.elem_spec(multi_index(self.shape_spec(), j)));
            }
            k += 1;
        }
        let t = Tensor { data: Rc::new(acc), layout: res_l };
        proof {
            t.lemma_canonical_logical();
            assert(fold_trace(self.logical(), self.shape_spec(), rdims@, op, default, tr));
        }
        Ok(t)
    }

    /// Removes all singleton dimensions; the result shares the buffer.
    pub fn squeeze(&self) -> (r: Tensor<T>)
        requires
            self.wf(),
        ensures
            r.wf(),
            r.data_spec() == self.data_spec(),
            dims(r.shape_spec(), r.layout_spec().strides_spec()) == dims(
                self.shape_spec(),
                self.layout_spec().strides_spec(),
            ).filter(|d: (usize, usize)| d.0 != 1),
            r.elems_spec() == self.elems_spec(),
    {
        let layout = self.layout.squeeze();
        Tensor { data: rc_clone(&self.data), layout }
    }

    /// Swaps two dimensions without touching the data; the result shares the
    /// buffer. Fails exactly when either dimension index is out of range.
    pub fn transpose(&self, dim0: usize, dim1: usize) -> (r: Result<Tensor<T>, TensorError>)
        requires
            self.wf(),
        ensures
            dim0 < self.shape_spec().len() && dim1 < self.shape_spec().len() ==> (r matches Ok(t)
                && {
                &&& t.wf()
                &&& t.data_spec() == self.data_spec()
                &&& t.shape_spec() == self.shape_spec().update(
                    dim0 as int,
                    self.shape_spec()[dim1 as int],
                ).update(dim1 as int, self.shape_spec()[dim0 as int])
                &&& t.layout_spec().strides_spec() == self.layout_spec().strides_spec().update(
                    dim0 as int,
                    self.layout_spec().strides_spec()[dim1 as int],
                ).update(dim1 as int, self.layout_spec().strides_spec()[dim0 as int])
                &&& t.elems_spec() == self.elems_spec()
            }),
            !(dim0 < self.shape_spec().len() && dim1 < self.shape_spec().len()) ==> (r matches Err(
                e,
            ) && e matches TensorError::IncompatibleShapes(a, b) && a@ == self.shape_spec() && b@
                == seq![dim0, dim1]),
    {
        let layout = match self.layout.transpose(dim0, dim1) {
            Ok(l) => l,
            Err(e) => {
                return Err(e);
            },
        };
        Ok(Tensor { data: rc_clone(&self.data), layout })
    }

    /// Reorders the dimensions by the given permutation without touching the
    /// data; the result shares the buffer. Fails exactly when `order` is not
    /// a permutation of all dimensions.
    pub fn permute(&self, order: &[usize]) -> (r: Result<Tensor<T>, TensorError>)
        requires
            self.wf(),
        ensures
            Layout::is_permutation(order@, self.shape_spec().len() as int) ==> (r matches Ok(t)
                && {
                &&& t.wf()
                &&& t.data_spec() == self.data_spec()
                &&& t.shape_spec().len() == self.shape_spec().len()
                &&& forall|i: int|
                    0 <= i < t.shape_spec().len() ==> #[trigger] t.shape_spec()[i]
                        == self.shape_spec()[order@[i] as int]
                &&& forall|i: int|
                    0 <= i < t.shape_spec().len() ==> #[trigger] t.layout_spec().strides_spec()[i]
                        == self.layout_spec().strides_spec()[order@[i] as int]
                &&& t.elems_spec() == self.elems_spec()
            }),
            !Layout::is_permutation(order@, self.shape_spec().len() as int) ==> (r matches Err(e)
                && e matches TensorError::IncompatibleShapes(a, b) && a@ == self.shape_spec() && b@
                == order@),
    {
        let layout = match self.layout.permute(order) {
            Ok(l) => l,
            Err(e) => {
                return Err(e);
            },
        };
        let ghost glay = layout;
        let t = Tensor { data: rc_clone(&self.data), layout };
        proof {
            if Layout::is_permutation(order@, self.shape_spec().len() as int) {
                assert(Layout::is_permutation(order@, self.layout.shape_spec().len() as int));
                assert(t.layout_spec() == glay);
                assert(t.elems_spec() == self.elems_spec());
                assert(span(dims(t.shape_spec(), t.layout_spec().strides_spec())) == span(
                    dims(self.shape_spec(), self.layout_spec().strides_spec()),
                ));
                assert(t.wf());
            }
        }
        Ok(t)
    }

    /// Reinterprets the tensor as `shape`. When the current layout is
    /// contiguous the result is a view sharing the buffer; otherwise the
    /// logical values are realized into a fresh row-major buffer first. The
    /// logical value sequence is unchanged either way. Fails exactly when the
    /// element counts differ, carrying both shapes.
    pub fn reshape(&self, shape: &[usize]) -> (r: Result<Tensor<T>, TensorError>)
        requires
            self.wf(),
            padded_product(shape@) <= usize::MAX as int,
        ensures
            product(shape@) == self.elems_spec() ==> (r matches Ok(t) && {
                &&& t.wf()
                &&& t.shape_spec() == shape@
                &&& t.layout_spec().is_row_major()
                &&& t.logical() == self.logical()
            }),
            product(shape@) != self.elems_spec() ==> (r matches Err(e)
                && e matches TensorError::IncompatibleShapes(a, b) && a@ == self.shape_spec() && b@
                == shape@),
    {
        let viewed = match self.layout.reshape(shape) {
            Ok(o) => o,
            Err(e) => {
                return Err(e);
            },
        };
        match viewed {
            Some(layout) => {
                let t = Tensor { data: rc_clone(&self.data), layout };
                proof {
                    lemma_product_bounds(shape@);
                    if t.elems_spec() > 0 {
                        crate::tensor::arith::lemma_product_eq_padded(shape@);
                        crate::tensor::arith::lemma_span_row_major(
                            shape@,
                            t.layout_spec().strides_spec(),
                        );
                        self.layout_spec().lemma_contiguous_position(self.elems_spec() - 1);
                        lemma_dot_le_span(
                            multi_index(self.shape_spec(), self.elems_spec() - 1),
                            self.shape_spec(),
                            self.layout_spec().strides_spec(),
                        );
                        assert(self.elems_spec() - 1 < self.data_spec().len());
                    }
                    assert forall|k: int| 0 <= k < t.elems_spec() implies #[trigger] t.logical()[k]
                        == self.logical()[k] by {
                        lemma_radix_decode(shape@, k);
                        self.layout_spec().lemma_contiguous_position(k);
                        assert(ints(t.layout_spec().strides_spec())
                            =~= crate::tensor::arith::row_major(shape@));
                    }
                    assert(t.logical() =~= self.logical());
                }
                Ok(t)
            },
            None => {
                proof {
                    lemma_product_bounds(shape@);
                    lemma_product_bounds(self.shape_spec());
                }
                let vals = self.to_values();
                let t = Self::canonical(shape, vals);
                Ok(t)
            },
        }
    }
}

} // verus!

verus! {

/// The left operand's shape after rank-1 promotion: a vector becomes a
/// one-row matrix.
pub open spec fn mm_lhs(a: Seq<usize>) -> Seq<usize> {
    if a.len() == 1 {
        seq![1usize] + a
    } else {
        a
    }
}

/// The right operand's shape after rank-1 promotion: a vector becomes a
/// one-column matrix.
pub open spec fn mm_rhs(b: Seq<usize>) -> Seq<usize> {
    if b.len() == 1 {
        b.push(1usize)
    } else {
        b
    }
}

/// The promoted left shape with a unit axis before its last:
/// `(…, m, k)` becomes `(…, m, 1, k)`.
pub open spec fn mm_lhs3(a: Seq<usize>) -> Seq<usize> {
    mm_lhs(a).insert(mm_lhs(a).len() - 1, 1usize)
}

/// The promoted right shape with a unit axis before its last-but-one:
/// `(…, k, n)` becomes `(…, 1, k, n)`.
pub open spec fn mm_rhs3(b: Seq<usize>) -> Seq<usize> {
    mm_rhs(b).insert(mm_rhs(b).len() - 2, 1usize)
}

/// `mm_rhs3` with its last two axes swapped: `(…, 1, n, k)`.
pub open spec fn mm_rhs3t(b: Seq<usize>) -> Seq<usize> {
    let r = mm_rhs3(b);
    r.update(r.len() - 2, r[r.len() - 1]).update(r.len() - 1, r[r.len() - 2])
}

/// Whether the contracted dimensions agree: the promoted left operand's last
/// dimension equals the promoted right operand's last-but-one.
pub open spec fn mm_inner_ok(a: Seq<usize>, b: Seq<usize>) -> bool {
    mm_lhs(a).last() == mm_rhs(b)[mm_rhs(b).len() - 2]
}

/// Whether two shapes admit a matrix product: neither is rank 0, the
/// contracted dimensions agree, and the batch dimensions broadcast.
pub open spec fn mm_ok(a: Seq<usize>, b: Seq<usize>) -> bool {
    &&& a.len() >= 1
    &&& b.len() >= 1
    &&& mm_inner_ok(a, b)
    &&& compatible(mm_lhs3(a), mm_rhs3t(b))
}

/// The shape the broadcast multiply produces: `(…, m, n, k)`.
pub open spec fn mm_big(a: Seq<usize>, b: Seq<usize>) -> Seq<usize> {
    broadcast_shape(mm_lhs3(a), mm_rhs3t(b))
}

/// The matrix product's shape: the broadcast shape with the contracted axis
/// summed away and each rank-1 promotion undone.
pub open spec fn mm_shape(a: Seq<usize>, b: Seq<usize>) -> Seq<usize> {
    let t1 = mm_big(a, b).take(mm_big(a, b).len() - 1);
    let t2 = if a.len() == 1 {
        t1.remove(t1.len() - 2)
    } else {
        t1
    };
    if b.len() == 1 {
        t2.remove(t2.len() - 1)
    } else {
        t2
    }
}

/// The strides of the transposed right operand at the multiply stage: the
/// row-major strides of `mm_rhs3` with the last two entries swapped.
pub open spec fn mm_rhs3t_strides(b: Seq<usize>) -> Seq<usize> {
    let s = crate::tensor::arith::row_major_strides(mm_rhs3(b));
    s.update(s.len() - 2, s[s.len() - 1]).update(s.len() - 1, s[s.len() - 2])
}

/// The flat position in the left operand's logical value sequence that
/// position `k` of the broadcast multiply reads: the promoted operand is
/// row-major, so the read goes through its expanded row-major strides.
pub open spec fn mm_lhs_pos(a: Seq<usize>, b: Seq<usize>, k: int) -> int {
    dot(
        multi_index(mm_big(a, b), k),
        ints(
            expand_strides(
                mm_lhs3(a),
                crate::tensor::arith::row_major_strides(mm_lhs3(a)),
                mm_big(a, b),
            ),
        ),
    )
}

/// The flat position in the right operand's logical value sequence that
/// position `k` of the broadcast multiply reads, through the transposed
/// strides.
pub open spec fn mm_rhs_pos(a: Seq<usize>, b: Seq<usize>, k: int) -> int {
    dot(
        multi_index(mm_big(a, b), k),
        ints(expand_strides(mm_rhs3t(b), mm_rhs3t_strides(b), mm_big(a, b))),
    )
}

} // verus!

verus! {

impl<T: Copy> Tensor<T> {
    /// Batched matrix product, expressed through broadcasting, transposition
    /// and reduction rather than a dedicated kernel. `zero`, `add` and `mul`
    /// supply the scalar ring: the contracted axis is multiplied pointwise
    /// and then folded with `add` starting from `zero`. A rank-1 left operand
    /// is treated as a one-row matrix and a rank-1 right operand as a
    /// one-column matrix, and the promotions are undone in the result's
    /// shape. On success the contract pins the values: some sequence of
    /// pairwise `mul` results over the operands' elements at the positions
    /// `mm_lhs_pos`/`mm_rhs_pos` pair up, folded with `add` along the
    /// contracted axis in row-major order (a `fold_trace`), yields exactly
    /// the result's logical values. Fails exactly when an operand is rank 0,
    /// the contracted dimensions differ, or the batch dimensions do not
    /// broadcast.
    #[verifier::rlimit(100)]
    pub fn matmul<FA: Fn(T, T) -> T, FM: Fn(T, T) -> T>(
        &self,
        other: &Tensor<T>,
        zero: T,
        add: FA,
        mul: FM,
    ) -> (r: Result<Tensor<T>, TensorError>)
        requires
            self.wf(),
            other.wf(),
            forall|x: T, y: T| call_requires(add, (x, y)),
            forall|x: T, y: T| call_requires(mul, (x, y)),
            mm_ok(self.shape_spec(), other.shape_spec()) ==> padded_product(
                mm_big(self.shape_spec(), other.shape_spec()),
            ) <= usize::MAX as int,
        ensures
            mm_ok(self.shape_spec(), other.shape_spec()) ==> (r matches Ok(t) && {
                &&& t.wf()
                &&& t.shape_spec() == mm_shape(self.shape_spec(), other.shape_spec())
                &&& exists|pv: Seq<T>, tr: Seq<Seq<T>>|
                    {
                        &&& pv.len() == product(mm_big(self.shape_spec(), other.shape_spec()))
                        &&& (forall|k: int|
                            0 <= k < pv.len() ==> call_ensures(
                                mul,
                                (
                                    self.logical()[mm_lhs_pos(
                                        self.shape_spec(),
                                        other.shape_spec(),
                                        k,
                                    )],
                                    other.logical()[mm_rhs_pos(
                                        self.shape_spec(),
                                        other.shape_spec(),
                                        k,
                                    )],
                                ),
                                #[trigger] pv[k],
                            ))
                        &&& fold_trace(
                            pv,
                            mm_big(self.shape_spec(), other.shape_spec()),
                            seq![(mm_big(self.shape_spec(), other.shape_spec()).len() - 1) as usize],
                            add,
                            zero,
                            tr,
                        )
                        &&& t.logical() == tr.last()
                    }
            }),
            self.shape_spec().len() == 0 || other.shape_spec().len() == 0 ==> (r matches Err(e)
                && e matches TensorError::IncompatibleShapes(x, y) && x@ == self.shape_spec() && y@
                == other.shape_spec()),
            self.shape_spec().len() >= 1 && other.shape_spec().len() >= 1 && !mm_inner_ok(
                self.shape_spec(),
                other.shape_spec(),
            ) ==> (r matches Err(e) && e matches TensorError::IncompatibleShapes(x, y) && x@
                == mm_lhs(self.shape_spec()) && y@ == mm_rhs(other.shape_spec())),
            self.shape_spec().len() >= 1 && other.shape_spec().len() >= 1 && mm_inner_ok(
                self.shape_spec(),
                other.shape_spec(),
            ) && !compatible(mm_lhs3(self.shape_spec()), mm_rhs3t(other.shape_spec())) ==> (
            r matches Err(e) && e matches TensorError::IncompatibleShapes(x, y) && x@ == mm_lhs3(
                self.shape_spec(),
            ) && y@ == mm_rhs3t(other.shape_spec())),
    {
        let ghost ga = self.shape_spec();
        let ghost gb = other.shape_spec();
        let ra = self.layout.shape().len();
        let rb = other.layout.shape().len();
        if ra == 0 || rb == 0 {
            return Err(TensorError::IncompatibleShapes(
                vstd::slice::slice_to_vec(self.layout.shape().as_slice()),
                vstd::slice::slice_to_vec(other.layout.shape().as_slice()),
            ));
        }
        let mut lhs_shape = vstd::slice::slice_to_vec(self.layout.shape().as_slice());
        if ra == 1 {
            lhs_shape.insert(0, 1);
        }
        let mut rhs_shape = vstd::slice::slice_to_vec(other.layout.shape().as_slice());
        if rb == 1 {
            rhs_shape.push(1);
        }
        proof {
            assert(lhs_shape@ =~= mm_lhs(ga));
            assert(rhs_shape@ =~= mm_rhs(gb));
        }
        if lhs_shape[lhs_shape.len() - 1] != rhs_shape[rhs_shape.len() - 2] {
            return Err(TensorError::IncompatibleShapes(lhs_shape, rhs_shape));
        }
        let li = lhs_shape.len() - 1;
        lhs_shape.insert(li, 1);
        let ri = rhs_shape.len() - 2;
        rhs_shape.insert(ri, 1);
        proof {
            assert(lhs_shape@ =~= mm_lhs3(ga));
            assert(rhs_shape@ =~= mm_rhs3t(gb).update(
                mm_rhs3t(gb).len() - 2,
                mm_rhs3t(gb)[mm_rhs3t(gb).len() - 1],
            ).update(mm_rhs3t(gb).len() - 1, mm_rhs3t(gb)[mm_rhs3t(gb).len() - 2]));
            assert(rhs_shape@ =~= mm_rhs3(gb));
            assert(lhs_shape@.remove(li as int) =~= mm_lhs(ga));
            crate::tensor::arith::lemma_pprod_remove(lhs_shape@, li as int);
            crate::tensor::arith::lemma_product_remove(lhs_shape@, li as int);
            assert(rhs_shape@.remove(ri as int) =~= mm_rhs(gb));
            crate::tensor::arith::lemma_pprod_remove(rhs_shape@, ri as int);
            crate::tensor::arith::lemma_product_remove(rhs_shape@, ri as int);
            if ga.len() == 1 {
                assert(mm_lhs(ga).remove(0) =~= ga);
                crate::tensor::arith::lemma_pprod_remove(mm_lhs(ga), 0);
                crate::tensor::arith::lemma_product_remove(mm_lhs(ga), 0);
            }
            if gb.len() == 1 {
                assert(mm_rhs(gb).remove(gb.len() as int) =~= gb);
                crate::tensor::arith::lemma_pprod_remove(mm_rhs(gb), gb.len() as int);
                crate::tensor::arith::lemma_product_remove(mm_rhs(gb), gb.len() as int);
            }
            lemma_product_bounds(ga);
            lemma_product_bounds(gb);
            assert(lhs_shape@[li as int] == 1usize);
            assert(rhs_shape@[ri as int] == 1usize);
            assert(1 * padded_product(mm_lhs(ga)) == padded_product(mm_lhs(ga))) by (nonlinear_arith);
            assert(1 * product(mm_lhs(ga)) == product(mm_lhs(ga))) by (nonlinear_arith);
            assert(1 * padded_product(mm_rhs(gb)) == padded_product(mm_rhs(gb))) by (nonlinear_arith);
            assert(1 * product(mm_rhs(gb)) == product(mm_rhs(gb))) by (nonlinear_arith);
            assert(1 * padded_product(ga) == padded_product(ga)) by (nonlinear_arith);
            assert(1 * product(ga) == product(ga)) by (nonlinear_arith);
            assert(1 * padded_product(gb) == padded_product(gb)) by (nonlinear_arith);
            assert(1 * product(gb) == product(gb)) by (nonlinear_arith);
            assert(padded_product(lhs_shape@) == padded_product(mm_lhs(ga)));
            assert(product(lhs_shape@) == product(mm_lhs(ga)));
            assert(padded_product(rhs_shape@) == padded_product(mm_rhs(gb)));
            assert(product(rhs_shape@) == product(mm_rhs(gb)));
            if ga.len() == 1 {
                assert(mm_lhs(ga)[0] == 1usize);
                assert(padded_product(mm_lhs(ga)) == padded_product(ga));
                assert(product(mm_lhs(ga)) == product(ga));
            }
            if gb.len() == 1 {
                assert(mm_rhs(gb)[gb.len() as int] == 1usize);
                assert(padded_product(mm_rhs(gb)) == padded_product(gb));
                assert(product(mm_rhs(gb)) == product(gb));
            }
        }
        let lhs = match self.reshape(lhs_shape.as_slice()) {
            Ok(t) => t,
            Err(e) => {
                proof {
                    assert(false);
                }
                return Err(e);
            },
        };
        let rhs = match other.reshape(rhs_shape.as_slice()) {
            Ok(t) => t,
            Err(e) => {
                proof {
                    assert(false);
                }
                return Err(e);
            },
        };
        let rhs_t = match rhs.transpose(rhs_shape.len() - 1, rhs_shape.len() - 2) {
            Ok(t) => t,
            Err(e) => {
                proof {
                    assert(false);
                }
                return Err(e);
            },
        };
        proof {
            assert(rhs_t.shape_spec() =~= mm_rhs3t(gb));
            assert(broadcast_shape(lhs.shape_spec(), rhs_t.shape_spec()) == mm_big(ga, gb));
        }
        let prod = match lhs.zip(&rhs_t, mul) {
            Ok(t) => t,
            Err(e) => {
                return Err(e);
            },
        };
        let pr = prod.layout.shape().len();
        let mut rdim: Vec<usize> = Vec::new();
        rdim.push(pr - 1);
        proof {
            assert(rdim@ =~= seq![(pr - 1) as usize]);
            assert(rdim@.no_duplicates());
            assert(prod.shape_spec() == mm_big(ga, gb));
            assert(pr >= 3) by {
                assert(mm_big(ga, gb).len() == broadcast_rank(mm_lhs3(ga), mm_rhs3t(gb)));
                assert(mm_lhs3(ga).len() >= 3);
            }
            assert(crate::tensor::layout::valid_dims(rdim@, prod.shape_spec().len() as int));
        }
        let sumprod = match prod.reduce(rdim.as_slice(), zero, add) {
            Ok(t) => t,
            Err(e) => {
                proof {
                    assert(false);
                }
                return Err(e);
            },
        };
        let ghost big = mm_big(ga, gb);
        let ghost msk = crate::tensor::layout::masked_shape(big, rdim@);
        let ghost t1 = big.take(big.len() - 1);
        let ss = sumprod.layout.shape();
        let base = vstd::slice::slice_to_vec(
            vstd::slice::slice_subrange(ss.as_slice(), 0, ss.len() - 1),
        );
        let mut fin = base;
        proof {
            assert(fin@ =~= t1);
            let n_ = big.len() as int;
            assert forall|i: int| 0 <= i < msk.len() implies msk[i] == t1.push(1usize)[i] by {
                assert(forall|j: int| 0 <= j < rdim@.len() ==> rdim@[j] == ((pr - 1) as usize));
                if i < n_ - 1 {
                    assert(!rdim@.contains(i as usize));
                } else {
                    assert(rdim@[0] == ((pr - 1) as usize));
                    assert(rdim@.contains((n_ - 1) as usize));
                }
            }
            assert(msk =~= t1.push(1usize));
            crate::tensor::arith::lemma_product_push(t1, 1usize);
            crate::tensor::arith::lemma_product_take_le(big, big.len() - 1);
            lemma_product_bounds(t1);
            let n = big.len() as int;
            let l3 = mm_lhs3(ga);
            let r3 = mm_rhs3(gb);
            let r3t = mm_rhs3t(gb);
            assert(gb.len() == 1 ==> big[n - 2] == 1) by {
                if gb.len() == 1 {
                    assert(aligned_dim(l3, n, n - 2) == l3[l3.len() - 2]);
                    assert(l3[l3.len() - 2] == 1);
                    assert(aligned_dim(r3t, n, n - 2) == r3t[r3t.len() - 2]);
                    assert(r3t[r3t.len() - 2] == r3[r3.len() - 1]);
                    assert(r3[r3.len() - 1] == mm_rhs(gb).last());
                    assert(mm_rhs(gb).last() == 1);
                }
            }
            assert(big[n - 3] == 1 || ga.len() != 1) by {
                if ga.len() == 1 {
                    assert(l3.len() == 3);
                    assert(aligned_dim(l3, n, n - 3) == l3[0]);
                    assert(l3[0] == 1);
                    assert(r3t.len() >= 3);
                    assert(aligned_dim(r3t, n, n - 3) == r3t[r3t.len() - 3]);
                    assert(r3t[r3t.len() - 3] == r3[r3.len() - 3]);
                    assert(r3[r3.len() - 3] == 1);
                }
            }
        }
        if ra == 1 {
            let j = fin.len() - 2;
            fin.remove(j);
            proof {
                crate::tensor::arith::lemma_product_remove(t1, t1.len() - 2);
                crate::tensor::arith::lemma_pprod_remove(t1, t1.len() - 2);
                assert(t1[t1.len() - 2] == mm_big(ga, gb)[big.len() - 3]);
                assert(t1[t1.len() - 2] == 1usize);
                let rm = t1.remove(t1.len() - 2);
                assert(1 * padded_product(rm) == padded_product(rm)) by (nonlinear_arith);
                assert(1 * product(rm) == product(rm)) by (nonlinear_arith);
            }
        }
        if rb == 1 {
            let j = fin.len() - 1;
            let ghost t2 = fin@;
            fin.remove(j);
            proof {
                crate::tensor::arith::lemma_product_remove(t2, t2.len() - 1);
                crate::tensor::arith::lemma_pprod_remove(t2, t2.len() - 1);
                assert(t2.last() == t1.last());
                assert(t1.last() == mm_big(ga, gb)[big.len() - 2]);
                assert(t2.last() == 1usize);
                let rm = t2.remove(t2.len() - 1);
                assert(t2[t2.len() - 1] == t2.last());
                assert(1 * padded_product(rm) == padded_product(rm)) by (nonlinear_arith);
                assert(1 * product(rm) == product(rm)) by (nonlinear_arith);
            }
        }
        proof {
            assert(fin@ =~= mm_shape(ga, gb));
            lemma_product_bounds(fin@);
        }
        let out = match sumprod.reshape(fin.as_slice()) {
            Ok(t) => t,
            Err(e) => {
                proof {
                    assert(false);
                }
                return Err(e);
            },
        };
        proof {
            let pv = prod.logical();
            Self::lemma_mm_multiply_values(*self, *other, lhs, rhs, rhs_t, pv, mul);
            let tr0 = choose|tr: Seq<Seq<T>>|
                fold_trace(prod.logical(), prod.shape_spec(), rdim@, add, zero, tr)
                    && sumprod.logical() == tr.last();
            assert(rdim@ =~= seq![(big.len() - 1) as usize]);
            assert(fold_trace(pv, big, seq![(big.len() - 1) as usize], add, zero, tr0));
            assert(out.logical() == tr0.last());
        }
        Ok(out)
    }

    /// The values the broadcast-multiply stage of the matrix product
    /// produces, restated over the operands: position `k` of the multiply
    /// reads the left operand's logical sequence at `mm_lhs_pos` and the
    /// right operand's at `mm_rhs_pos`, whatever buffers the reshaped and
    /// transposed intermediates actually use.
    #[verifier::rlimit(100)]
    proof fn lemma_mm_multiply_values<FM: Fn(T, T) -> T>(
        slf: Tensor<T>,
        other: Tensor<T>,
        lhs: Tensor<T>,
        rhs: Tensor<T>,
        rhs_t: Tensor<T>,
        pv: Seq<T>,
        mul: FM,
    )
        requires
            slf.shape_spec().len() >= 1,
            other.shape_spec().len() >= 1,
            compatible(mm_lhs3(slf.shape_spec()), mm_rhs3t(other.shape_spec())),
            lhs.layout_spec().wf(),
            lhs.layout_spec().is_row_major(),
            lhs.shape_spec() == mm_lhs3(slf.shape_spec()),
            lhs.logical() == slf.logical(),
            rhs.layout_spec().wf(),
            rhs.layout_spec().is_row_major(),
            rhs.shape_spec() == mm_rhs3(other.shape_spec()),
            rhs.logical() == other.logical(),
            rhs_t.shape_spec() == mm_rhs3t(other.shape_spec()),
            rhs_t.data_spec() == rhs.data_spec(),
            rhs_t.layout_spec().strides_spec() == rhs.layout_spec().strides_spec().update(
                rhs.shape_spec().len() - 1,
                rhs.layout_spec().strides_spec()[rhs.shape_spec().len() - 2],
            ).update(
                rhs.shape_spec().len() - 2,
                rhs.layout_spec().strides_spec()[rhs.shape_spec().len() - 1],
            ),
            pv.len() == product(mm_big(slf.shape_spec(), other.shape_spec())),
            forall|k: int|
                0 <= k < pv.len() ==> call_ensures(
                    mul,
                    (
                        lhs.broadcast_elem(mm_big(slf.shape_spec(), other.shape_spec()), k),
                        rhs_t.broadcast_elem(mm_big(slf.shape_spec(), other.shape_spec()), k),
                    ),
                    #[trigger] pv[k],
                ),
        ensures
            forall|k: int|
                0 <= k < pv.len() ==> call_ensures(
                    mul,
                    (
                        slf.logical()[mm_lhs_pos(slf.shape_spec(), other.shape_spec(), k)],
                        other.logical()[mm_rhs_pos(slf.shape_spec(), other.shape_spec(), k)],
                    ),
                    #[trigger] pv[k],
                ),
    {
        let ga = slf.shape_spec();
        let gb = other.shape_spec();
        let big = mm_big(ga, gb);
        let l3 = mm_lhs3(ga);
        let r3 = mm_rhs3(gb);
        let r3t = mm_rhs3t(gb);
        let lst = crate::tensor::arith::row_major_strides(l3);
        let rst = crate::tensor::arith::row_major_strides(r3);
        let tst = mm_rhs3t_strides(gb);
        crate::tensor::layout::lemma_broadcast_expandable(l3, r3t);
        assert(lhs.layout_spec().strides_spec() =~= lst) by {
            assert forall|i: int|
                0 <= i < l3.len() implies #[trigger] lhs.layout_spec().strides_spec()[i]
                == lst[i] by {
                crate::tensor::arith::lemma_product_skip_le(l3, i + 1);
                lemma_product_bounds(l3.skip(i + 1));
            }
        }
        assert(rhs.layout_spec().strides_spec() =~= rst) by {
            assert forall|i: int|
                0 <= i < r3.len() implies #[trigger] rhs.layout_spec().strides_spec()[i]
                == rst[i] by {
                crate::tensor::arith::lemma_product_skip_le(r3, i + 1);
                lemma_product_bounds(r3.skip(i + 1));
            }
        }
        assert(rhs_t.layout_spec().strides_spec() =~= tst);
        let odm = dims(r3, rst);
        let ndm = dims(r3t, tst);
        let nn = r3.len() as int;
        let perm = Seq::new(
            nn as nat,
            |q: int|
                if q == nn - 1 {
                    nn - 2
                } else if q == nn - 2 {
                    nn - 1
                } else {
                    q
                },
        );
        assert forall|x: int, y: int|
            (0 <= x < nn && 0 <= y < nn && x != y) implies #[trigger] perm[x]
            != #[trigger] perm[y] by {}
        assert(perm.no_duplicates());
        assert(forall|x: int| 0 <= x < nn ==> 0 <= #[trigger] perm[x] < nn);
        assert forall|x: int| 0 <= x < nn implies #[trigger] ndm[x] == odm[perm[x]] by {}
        crate::tensor::arith::lemma_permuted_multiset(odm, ndm, perm);
        crate::tensor::arith::lemma_span_multiset(ndm, odm);
        assert forall|i: int| 0 <= i < l3.len() implies #[trigger] lst[i] as int == product(
            l3.skip(i + 1),
        ) by {
            crate::tensor::arith::lemma_product_skip_le(l3, i + 1);
            lemma_product_bounds(l3.skip(i + 1));
        }
        assert forall|i: int| 0 <= i < r3.len() implies #[trigger] rst[i] as int == product(
            r3.skip(i + 1),
        ) by {
            crate::tensor::arith::lemma_product_skip_le(r3, i + 1);
            lemma_product_bounds(r3.skip(i + 1));
        }
        crate::tensor::arith::lemma_span_row_major(l3, lst);
        crate::tensor::arith::lemma_span_row_major(r3, rst);
        assert forall|k: int|
            0 <= k < pv.len() implies call_ensures(
            mul,
            (slf.logical()[mm_lhs_pos(ga, gb, k)], other.logical()[mm_rhs_pos(ga, gb, k)]),
            #[trigger] pv[k],
        ) by {
            lemma_radix_decode(big, k);
            let mi_ = multi_index(big, k);
            assert forall|i: int| 0 <= i < big.len() implies big[i] > 0 by {
                assert(0 <= mi_[i] < big[i]);
            }
            assert forall|i: int| 0 <= i < l3.len() implies l3[i] > 0 by {
                assert(l3[i] == big[i + big.len() - l3.len()] || l3[i] == 1);
            }
            assert forall|i: int| 0 <= i < r3t.len() implies r3t[i] > 0 by {
                assert(r3t[i] == big[i + big.len() - r3t.len()] || r3t[i] == 1);
            }
            assert forall|i: int| 0 <= i < r3.len() implies r3[i] > 0 by {
                assert(r3[i] == ndm[perm[i]].0 || r3[i] == r3t[perm[i]]);
                assert(r3t[perm[i]] > 0);
            }
            let lpos = mm_lhs_pos(ga, gb, k);
            crate::tensor::arith::lemma_dot_le_span(mi_, big, expand_strides(l3, lst, big));
            crate::tensor::layout::lemma_expand_span(l3, lst, big);
            crate::tensor::arith::lemma_product_eq_padded(l3);
            assert(0 <= lpos < product(l3));
            lhs.lemma_row_major_flat(lpos);
            assert(lhs.broadcast_elem(big, k) == lhs.data_spec()[lpos]);
            assert(slf.logical()[lpos] == lhs.logical()[lpos]);
            let rpos = mm_rhs_pos(ga, gb, k);
            crate::tensor::arith::lemma_dot_le_span(mi_, big, expand_strides(r3t, tst, big));
            crate::tensor::layout::lemma_expand_span(r3t, tst, big);
            crate::tensor::arith::lemma_product_eq_padded(r3);
            assert(span(ndm) == span(odm));
            assert(0 <= rpos < product(r3));
            rhs.lemma_row_major_flat(rpos);
            assert(rhs_t.broadcast_elem(big, k) == rhs_t.data_spec()[rpos]);
            assert(rhs_t.data_spec()[rpos] == rhs.data_spec()[rpos]);
            assert(other.logical()[rpos] == rhs.logical()[rpos]);
            assert(call_ensures(
                mul,
                (lhs.broadcast_elem(big, k), rhs_t.broadcast_elem(big, k)),
                pv[k],
            ));
        }
    }
}

} // verus!

verus! {

impl<T: Copy> Tensor<T> {
    /// Law: two well-formed tensors of the same shape with the same logical
    /// value sequence agree on every element. In particular, reshaping to any
    /// shape of equal element count and back — each step preserves the
    /// logical sequence (see `reshape`) — leaves every element unchanged,
    /// whether or not either step copied the buffer.
    pub proof fn lemma_logical_determines_elements(a: Tensor<T>, b: Tensor<T>)
        requires
            a.wf(),
            b.wf(),
            a.shape_spec() == b.shape_spec(),
            a.logical() == b.logical(),
        ensures
            forall|ix: Seq<int>|
                in_range(ix, a.shape_spec()) ==> #[trigger] a.elem_spec(ix) == b.elem_spec(ix),
    {
        assert forall|ix: Seq<int>|
            in_range(ix, a.shape_spec()) implies #[trigger] a.elem_spec(ix) == b.elem_spec(ix) by {
            crate::tensor::arith::lemma_radix_encode(ix, a.shape_spec());
            let k = dot(ix, crate::tensor::arith::row_major(a.shape_spec()));
            lemma_product_bounds(a.shape_spec());
            assert(a.logical()[k] == a.elem_spec(ix));
            assert(b.logical()[k] == b.elem_spec(ix));
        }
    }

    /// Law: a reshape round trip preserves every logical element. If `once`
    /// is `t` reshaped to any shape `s2` of equal element count and `twice`
    /// is `once` reshaped back to `t`'s shape — so each step preserved the
    /// logical sequence, as `reshape` ensures, whether or not it copied the
    /// buffer — then `twice` holds the same logical elements as `t`, index
    /// by index.
    pub proof fn lemma_reshape_round_trip(
        t: Tensor<T>,
        once: Tensor<T>,
        twice: Tensor<T>,
        s2: Seq<usize>,
    )
        requires
            t.wf(),
            twice.wf(),
            product(s2) == t.elems_spec(),
            once.shape_spec() == s2,
            once.logical() == t.logical(),
            twice.shape_spec() == t.shape_spec(),
            twice.logical() == once.logical(),
        ensures
            twice.logical() == t.logical(),
            forall|ix: Seq<int>|
                in_range(ix, t.shape_spec()) ==> #[trigger] twice.elem_spec(ix) == t.elem_spec(ix),
    {
        Self::lemma_logical_determines_elements(t, twice);
    }

    /// Law: transposing the same two dimensions twice restores the original
    /// shape and strides exactly, over the same buffer contents — the double
    /// transpose is layout-equal to the original tensor and shares its values.
    pub proof fn lemma_transpose_involution(
        t: Tensor<T>,
        once: Tensor<T>,
        twice: Tensor<T>,
        d0: int,
        d1: int,
    )
        requires
            0 <= d0 < t.shape_spec().len(),
            0 <= d1 < t.shape_spec().len(),
            once.data_spec() == t.data_spec(),
            once.shape_spec() == t.shape_spec().update(d0, t.shape_spec()[d1]).update(
                d1,
                t.shape_spec()[d0],
            ),
            once.layout_spec().strides_spec() == t.layout_spec().strides_spec().update(
                d0,
                t.layout_spec().strides_spec()[d1],
            ).update(d1, t.layout_spec().strides_spec()[d0]),
            t.layout_spec().strides_spec().len() == t.shape_spec().len(),
            twice.data_spec() == once.data_spec(),
            twice.shape_spec() == once.shape_spec().update(d0, once.shape_spec()[d1]).update(
                d1,
                once.shape_spec()[d0],
            ),
            twice.layout_spec().strides_spec() == once.layout_spec().strides_spec().update(
                d0,
                once.layout_spec().strides_spec()[d1],
            ).update(d1, once.layout_spec().strides_spec()[d0]),
        ensures
            twice.shape_spec() == t.shape_spec(),
            twice.layout_spec().strides_spec() == t.layout_spec().strides_spec(),
            twice.data_spec() == t.data_spec(),
            twice.logical() == t.logical(),
    {
        assert(twice.shape_spec() =~= t.shape_spec());
        assert(twice.layout_spec().strides_spec() =~= t.layout_spec().strides_spec());
        assert forall|k: int| 0 <= k < t.logical().len() implies #[trigger] t.logical()[k]
            == twice.logical()[k] by {
            assert(ints(twice.layout_spec().strides_spec()) =~= ints(
                t.layout_spec().strides_spec(),
            ));
        }
        assert(twice.logical() =~= t.logical());
    }

    /// A row-major iterator over the tensor's elements: lazy, finite and
    /// restartable, sharing the buffer rather than copying it.
    pub fn into_iter(&self) -> (r: TensorRowIter<T>)
        requires
            self.wf(),
        ensures
            r.wf(),
            r.values() == self.logical(),
            r.cursor_spec() == 0,
    {
        let positions = self.layout.iter_position();
        let r = TensorRowIter { data: rc_clone(&self.data), positions };
        proof {
            assert(r.values() =~= self.logical());
        }
        r
    }
}

/// A lazy, finite, restartable row-major iterator over a tensor's elements,
/// honoring every view transformation: it walks the tensor's buffer positions
/// in logical order and reads the shared buffer.
pub struct TensorRowIter<T> {
    data: Rc<Vec<T>>,
    positions: crate::tensor::layout::PositionIterator,
}

impl<T: Copy> TensorRowIter<T> {
    /// The buffer the iterator reads.
    pub closed spec fn data_spec(&self) -> Seq<T> {
        self.data@
    }

    /// The embedded position walk.
    pub closed spec fn positions_spec(&self) -> crate::tensor::layout::PositionIterator {
        self.positions
    }

    /// How many elements have been handed out.
    pub open spec fn cursor_spec(&self) -> int {
        self.positions_spec().cursor_spec()
    }

    /// The value sequence the iterator walks: the tensor's logical sequence.
    pub open spec fn values(&self) -> Seq<T> {
        Seq::new(
            self.positions_spec().total_spec() as nat,
            |k: int| self.data_spec()[self.positions_spec().position_at(k)],
        )
    }

    /// Well-formedness: the position walk is well formed and every position
    /// it can produce lies inside the buffer.
    pub open spec fn wf(&self) -> bool {
        &&& self.positions_spec().wf()
        &&& self.positions_spec().total_spec() == product(
            self.positions_spec().layout_of().shape_spec(),
        )
        &&& (self.positions_spec().total_spec() == 0 || span(
            dims(
                self.positions_spec().layout_of().shape_spec(),
                self.positions_spec().layout_of().strides_spec(),
            ),
        ) < self.data_spec().len())
    }

    /// The next element in row-major logical order, or `None` when the walk
    /// is done.
    pub fn next(&mut self) -> (r: Option<T>)
        requires
            old(self).wf(),
        ensures
            final(self).wf(),
            final(self).values() == old(self).values(),
            old(self).cursor_spec() < old(self).values().len() ==> (r matches Some(v) && v == old(
                self,
            ).values()[old(self).cursor_spec()] && final(self).cursor_spec() == old(
                self,
            ).cursor_spec() + 1),
            old(self).cursor_spec() >= old(self).values().len() ==> r is None && final(self).cursor_spec() == old(self).cursor_spec(),
    {
        proof {
            if old(self).cursor_spec() < old(self).values().len() {
                let lo = self.positions_spec().layout_of();
                let k = old(self).cursor_spec();
                lemma_product_bounds(lo.shape_spec());
                crate::tensor::arith::lemma_radix_decode(lo.shape_spec(), k);
                crate::tensor::arith::lemma_dot_le_span(
                    multi_index(lo.shape_spec(), k),
                    lo.shape_spec(),
                    lo.strides_spec(),
                );
            }
        }
        let p = match self.positions.next() {
            Some(p) => p,
            None => {
                return None;
            },
        };
        Some((*self.data)[p])
    }

    /// Restarts the walk from the first element.
    pub fn restart(&mut self)
        requires
            old(self).wf(),
        ensures
            final(self).wf(),
            final(self).values() == old(self).values(),
            final(self).cursor_spec() == 0,
    {
        self.positions.restart();
    }
}

} // verus!

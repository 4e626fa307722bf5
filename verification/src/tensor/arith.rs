//! Sequence arithmetic underlying shape and stride algebra: products of
//! dimension sequences, dot products of indices with strides, and the
//! mixed-radix correspondence between flat positions and multi-indices.

use vstd::prelude::*;
use vstd::arithmetic::div_mod::{
    lemma_div_pos_is_pos, lemma_fundamental_div_mod, lemma_fundamental_div_mod_converse,
    lemma_mod_bound, lemma_multiply_divide_lt,
};
use vstd::arithmetic::mul::{lemma_mul_inequality, lemma_mul_nonnegative};
use vstd::seq_lib::{to_multiset_build, to_multiset_remove};
use vstd::set_lib::{lemma_int_range, lemma_subset_equality, set_int_range};

verus! {

/// The entries of a `usize` sequence, as mathematical integers.
pub open spec fn ints(s: Seq<usize>) -> Seq<int> {
    s.map_values(|x: usize| x as int)
}

/// Product of all entries; the empty product is 1.
pub open spec fn product(s: Seq<usize>) -> int
    decreases s.len(),
{
    if s.len() == 0 {
        1
    } else {
        s[0] * product(s.drop_first())
    }
}

/// Product of all entries with every entry counted as at least 1. This bounds
/// every partial product, every suffix product, and (via `lemma_span_row_major`)
/// the largest offset of a row-major layout, even in the presence of
/// zero-sized dimensions.
pub open spec fn padded_product(s: Seq<usize>) -> int
    decreases s.len(),
{
    if s.len() == 0 {
        1
    } else {
        (if s[0] == 0 {
            1int
        } else {
            s[0] as int
        }) * padded_product(s.drop_first())
    }
}

/// Sum of the pairwise products of two equally long sequences.
pub open spec fn dot(a: Seq<int>, b: Seq<int>) -> int
    decreases a.len(),
{
    if a.len() == 0 || b.len() == 0 {
        0
    } else {
        a[0] * b[0] + dot(a.drop_first(), b.drop_first())
    }
}

/// The row-major (C-order) strides of a shape: each dimension steps over the
/// product of all dimensions to its right.
pub open spec fn row_major(s: Seq<usize>) -> Seq<int> {
    Seq::new(s.len() as nat, |i: int| product(s.skip(i + 1)))
}

/// The row-major strides as machine words; meaningful whenever the padded
/// element count fits in `usize`, which bounds every suffix product.
pub open spec fn row_major_strides(s: Seq<usize>) -> Seq<usize> {
    Seq::new(s.len() as nat, |i: int| product(s.skip(i + 1)) as usize)
}

/// Whether `ix` is a valid multi-index for shape `s`.
pub open spec fn in_range(ix: Seq<int>, s: Seq<usize>) -> bool {
    ix.len() == s.len() && forall|i: int| 0 <= i < ix.len() ==> 0 <= #[trigger] ix[i] < s[i]
}

/// The `k`-th multi-index of shape `s` in row-major order (the last dimension
/// varies fastest): the mixed-radix digits of `k` with radices `s`.
pub open spec fn multi_index(s: Seq<usize>, k: int) -> Seq<int>
    decreases s.len(),
{
    if s.len() == 0 {
        Seq::empty()
    } else {
        let p = product(s.drop_first());
        seq![k / p] + multi_index(s.drop_first(), k % p)
    }
}

/// The (size, stride) pairs of a layout, the unit the dimension-reordering
/// transformations permute.
pub open spec fn dims(shape: Seq<usize>, strides: Seq<usize>) -> Seq<(usize, usize)> {
    Seq::new(shape.len() as nat, |i: int| (shape[i], strides[i]))
}

/// The largest offset a single dimension can contribute.
pub open spec fn span_term(d: (usize, usize)) -> int {
    if d.0 == 0 {
        0
    } else {
        (d.0 - 1) * d.1
    }
}

/// The largest offset any valid multi-index can reach over these dimensions.
pub open spec fn span(ds: Seq<(usize, usize)>) -> int
    decreases ds.len(),
{
    if ds.len() == 0 {
        0
    } else {
        span_term(ds[0]) + span(ds.drop_first())
    }
}

/// Products are non-negative, padded products are positive, the former is
/// bounded by the latter, and a product is positive exactly when every entry is.
pub proof fn lemma_product_bounds(s: Seq<usize>)
    ensures
        0 <= product(s),
        1 <= padded_product(s),
        product(s) <= padded_product(s),
        product(s) > 0 <==> (forall|i: int| 0 <= i < s.len() ==> s[i] > 0),
    decreases s.len(),
{
    if s.len() > 0 {
        let rest = s.drop_first();
        lemma_product_bounds(rest);
        let h = s[0] as int;
        let hp: int = if s[0] == 0 { 1 } else { s[0] as int };
        lemma_mul_nonnegative(h, product(rest));
        lemma_mul_inequality(product(rest), padded_product(rest), h);
        assert(h * product(rest) <= h * padded_product(rest)) by {
            lemma_mul_inequality(product(rest), padded_product(rest), h);
            assert(product(rest) * h <= padded_product(rest) * h) by (nonlinear_arith)
                requires product(rest) <= padded_product(rest), h >= 0;
            assert(h * product(rest) == product(rest) * h) by (nonlinear_arith);
            assert(h * padded_product(rest) == padded_product(rest) * h) by (nonlinear_arith);
        }
        assert(h * padded_product(rest) <= hp * padded_product(rest)) by (nonlinear_arith)
            requires h <= hp, padded_product(rest) >= 0;
        assert(1 <= hp * padded_product(rest)) by (nonlinear_arith)
            requires 1 <= hp, 1 <= padded_product(rest);
        if h > 0 && product(rest) > 0 {
            assert(h * product(rest) > 0) by (nonlinear_arith)
                requires h > 0, product(rest) > 0;
            assert(forall|i: int| 0 <= i < s.len() ==> s[i] > 0) by {
                assert(forall|i: int| 1 <= i < s.len() ==> s[i] == rest[i - 1]);
            }
        }
        if product(s) > 0 {
            assert(h != 0);
            assert(product(rest) != 0) by {
                if product(rest) == 0 {
                    assert(h * 0 == 0) by (nonlinear_arith);
                }
            }
        }
        if forall|i: int| 0 <= i < s.len() ==> s[i] > 0 {
            assert(forall|i: int| 0 <= i < rest.len() ==> rest[i] == s[i + 1]);
        }
    }
}

/// Appending an entry multiplies the product by it.
pub proof fn lemma_product_push(s: Seq<usize>, x: usize)
    ensures
        product(s.push(x)) == product(s) * x,
        padded_product(s.push(x)) == padded_product(s) * (if x == 0 { 1int } else { x as int }),
    decreases s.len(),
{
    let xp: int = if x == 0 { 1 } else { x as int };
    if s.len() == 0 {
        assert(s.push(x) =~= seq![x]);
        assert(seq![x].drop_first() =~= Seq::<usize>::empty());
        assert(product(Seq::<usize>::empty()) == 1);
        assert(padded_product(Seq::<usize>::empty()) == 1);
        assert(product(s.push(x)) == x as int * 1);
        assert(padded_product(s.push(x)) == xp * 1);
        assert(x as int * 1 == 1 * (x as int)) by (nonlinear_arith);
        assert(xp * 1 == 1 * xp) by (nonlinear_arith);
    } else {
        let rest = s.drop_first();
        lemma_product_push(rest, x);
        assert(s.push(x).drop_first() =~= rest.push(x));
        let h = s[0] as int;
        let hp: int = if s[0] == 0 { 1 } else { s[0] as int };
        assert(h * (product(rest) * x) == (h * product(rest)) * x) by (nonlinear_arith);
        assert(hp * (padded_product(rest) * xp) == (hp * padded_product(rest)) * xp)
            by (nonlinear_arith);
    }
}

/// A product splits at any cut point into the product of the prefix and of
/// the suffix; the padded product does the same.
pub proof fn lemma_product_split(s: Seq<usize>, i: int)
    requires
        0 <= i <= s.len(),
    ensures
        product(s) == product(s.take(i)) * product(s.skip(i)),
        padded_product(s) == padded_product(s.take(i)) * padded_product(s.skip(i)),
    decreases i,
{
    if i == 0 {
        assert(s.take(0) =~= Seq::<usize>::empty());
        assert(s.skip(0) =~= s);
        assert(1 * product(s) == product(s)) by (nonlinear_arith);
        assert(1 * padded_product(s) == padded_product(s)) by (nonlinear_arith);
    } else {
        lemma_product_split(s, i - 1);
        assert(s.take(i) =~= s.take(i - 1).push(s[i - 1]));
        lemma_product_push(s.take(i - 1), s[i - 1]);
        assert(s.skip(i - 1)[0] == s[i - 1]);
        assert(s.skip(i - 1).drop_first() =~= s.skip(i));
        let a = product(s.take(i - 1));
        let b = s[i - 1] as int;
        let c = product(s.skip(i));
        assert((a * b) * c == a * (b * c)) by (nonlinear_arith);
        let ap = padded_product(s.take(i - 1));
        let bp: int = if s[i - 1] == 0 { 1 } else { s[i - 1] as int };
        let cp = padded_product(s.skip(i));
        assert((ap * bp) * cp == ap * (bp * cp)) by (nonlinear_arith);
    }
}

/// Every prefix's padded product is bounded by the whole padded product, and
/// so is every prefix's plain product.
pub proof fn lemma_product_take_le(s: Seq<usize>, i: int)
    requires
        0 <= i <= s.len(),
    ensures
        product(s.take(i)) <= padded_product(s.take(i)),
        padded_product(s.take(i)) <= padded_product(s),
{
    lemma_product_bounds(s.take(i));
    lemma_product_bounds(s.skip(i));
    lemma_product_split(s, i);
    assert(padded_product(s.take(i)) * 1 <= padded_product(s.take(i)) * padded_product(s.skip(i)))
        by (nonlinear_arith)
        requires 1 <= padded_product(s.skip(i)), 0 <= padded_product(s.take(i));
    assert(padded_product(s.take(i)) * 1 == padded_product(s.take(i))) by (nonlinear_arith);
}

/// Unrolling a suffix product by one dimension.
pub proof fn lemma_product_skip(s: Seq<usize>, i: int)
    requires
        0 <= i < s.len(),
    ensures
        product(s.skip(i)) == s[i] * product(s.skip(i + 1)),
{
    assert(s.skip(i)[0] == s[i]);
    assert(s.skip(i).drop_first() =~= s.skip(i + 1));
}

/// Every suffix product is bounded by the whole padded product.
pub proof fn lemma_product_skip_le(s: Seq<usize>, i: int)
    requires
        0 <= i <= s.len(),
    ensures
        0 <= product(s.skip(i)),
        product(s.skip(i)) <= padded_product(s),
{
    lemma_product_bounds(s.take(i));
    lemma_product_bounds(s.skip(i));
    lemma_product_split(s, i);
    assert(1 * product(s.skip(i)) <= padded_product(s.take(i)) * padded_product(s.skip(i)))
        by (nonlinear_arith)
        requires
            1 <= padded_product(s.take(i)),
            0 <= product(s.skip(i)),
            product(s.skip(i)) <= padded_product(s.skip(i)),
    ;
    assert(1 * product(s.skip(i)) == product(s.skip(i))) by (nonlinear_arith);
}

/// Appending a pair to both sequences extends their dot product by one term.
pub proof fn lemma_dot_push(a: Seq<int>, b: Seq<int>, x: int, y: int)
    requires
        a.len() == b.len(),
    ensures
        dot(a.push(x), b.push(y)) == dot(a, b) + x * y,
    decreases a.len(),
{
    if a.len() == 0 {
        assert(a.push(x) =~= seq![x]);
        assert(b.push(y) =~= seq![y]);
        assert(seq![x].drop_first() =~= Seq::<int>::empty());
        assert(seq![y].drop_first() =~= Seq::<int>::empty());
        assert(dot(Seq::<int>::empty(), Seq::<int>::empty()) == 0);
        assert(dot(a.push(x), b.push(y)) == x * y + 0);
    } else {
        assert(a.push(x).drop_first() =~= a.drop_first().push(x));
        assert(b.push(y).drop_first() =~= b.drop_first().push(y));
        lemma_dot_push(a.drop_first(), b.drop_first(), x, y);
    }
}

/// A valid multi-index never reaches an offset beyond the span of the
/// dimensions, and never a negative one.
pub proof fn lemma_dot_le_span(ix: Seq<int>, shape: Seq<usize>, strides: Seq<usize>)
    requires
        in_range(ix, shape),
        strides.len() == shape.len(),
    ensures
        0 <= dot(ix, ints(strides)),
        dot(ix, ints(strides)) <= span(dims(shape, strides)),
    decreases ix.len(),
{
    if ix.len() > 0 {
        let ix1 = ix.drop_first();
        let sh1 = shape.drop_first();
        let st1 = strides.drop_first();
        assert(in_range(ix1, sh1)) by {
            assert(forall|i: int| 0 <= i < ix1.len() ==> ix1[i] == ix[i + 1] && sh1[i] == shape[i + 1]);
        }
        lemma_dot_le_span(ix1, sh1, st1);
        assert(ints(strides).drop_first() =~= ints(st1));
        assert(dims(shape, strides).drop_first() =~= dims(sh1, st1));
        let s0 = shape[0] as int;
        let t0 = strides[0] as int;
        lemma_mul_nonnegative(ix[0], t0);
        assert(ix[0] * t0 <= (s0 - 1) * t0) by {
            lemma_mul_inequality(ix[0], s0 - 1, t0);
        }
        assert(span_term(dims(shape, strides)[0]) == (s0 - 1) * t0);
        assert(ints(strides)[0] == t0);
    }
}

/// The span of a prefix is bounded by the span of the whole; spans are
/// never negative.
pub proof fn lemma_span_take_le(ds: Seq<(usize, usize)>, i: int)
    requires
        0 <= i <= ds.len(),
    ensures
        0 <= span(ds.take(i)),
        span(ds.take(i)) <= span(ds),
    decreases ds.len(),
{
    if ds.len() == 0 {
        assert(ds.take(i) =~= ds);
    } else if i == 0 {
        assert(ds.take(0) =~= Seq::<(usize, usize)>::empty());
        lemma_span_take_le(ds.drop_first(), 0);
        lemma_span_term_nonneg(ds[0]);
    } else {
        lemma_span_take_le(ds.drop_first(), i - 1);
        assert(ds.take(i).drop_first() =~= ds.drop_first().take(i - 1));
        assert(ds.take(i)[0] == ds[0]);
        lemma_span_term_nonneg(ds[0]);
    }
}

/// A single dimension's largest offset is non-negative.
pub proof fn lemma_span_term_nonneg(d: (usize, usize))
    ensures
        0 <= span_term(d),
{
    if d.0 > 0 {
        lemma_mul_nonnegative(d.0 - 1, d.1 as int);
    }
}

/// Appending a dimension extends the span by that dimension's term.
pub proof fn lemma_span_push(ds: Seq<(usize, usize)>, d: (usize, usize))
    ensures
        span(ds.push(d)) == span(ds) + span_term(d),
    decreases ds.len(),
{
    if ds.len() == 0 {
        assert(ds.push(d) =~= seq![d]);
        assert(seq![d].drop_first() =~= Seq::<(usize, usize)>::empty());
        assert(span(Seq::<(usize, usize)>::empty()) == 0);
        assert(span(ds.push(d)) == span_term(d) + 0);
    } else {
        assert(ds.push(d).drop_first() =~= ds.drop_first().push(d));
        lemma_span_push(ds.drop_first(), d);
    }
}

/// The span of a row-major layout is below its padded element count: every
/// position such a layout can produce fits strictly inside a buffer of
/// `padded_product` elements.
pub proof fn lemma_span_row_major(shape: Seq<usize>, strides: Seq<usize>)
    requires
        strides.len() == shape.len(),
        forall|i: int| 0 <= i < shape.len() ==> strides[i] as int == product(shape.skip(i + 1)),
    ensures
        span(dims(shape, strides)) <= padded_product(shape) - 1,
    decreases shape.len(),
{
    if shape.len() == 0 {
    } else {
        let sh1 = shape.drop_first();
        let st1 = strides.drop_first();
        assert(forall|i: int| 0 <= i < sh1.len() ==> st1[i] as int == product(sh1.skip(i + 1))) by {
            assert(forall|i: int| 0 <= i < sh1.len() ==> {
                &&& st1[i] == strides[i + 1]
                &&& shape.skip(i + 2) =~= sh1.skip(i + 1)
            });
        }
        lemma_span_row_major(sh1, st1);
        assert(dims(shape, strides).drop_first() =~= dims(sh1, st1));
        lemma_product_bounds(sh1);
        let s0 = shape[0] as int;
        let p0: int = if shape[0] == 0 { 1 } else { s0 };
        let t0 = strides[0] as int;
        assert(shape.skip(1) =~= sh1);
        assert(t0 == product(sh1));
        let term = span_term(dims(shape, strides)[0]);
        assert(term <= (p0 - 1) * padded_product(sh1)) by {
            if shape[0] == 0 {
                assert(term == 0);
                assert((p0 - 1) * padded_product(sh1) == 0) by (nonlinear_arith)
                    requires p0 == 1;
            } else {
                assert(term == (s0 - 1) * t0);
                assert((s0 - 1) * t0 <= (s0 - 1) * padded_product(sh1)) by (nonlinear_arith)
                    requires 0 <= s0 - 1, t0 <= padded_product(sh1);
            }
        }
        assert((p0 - 1) * padded_product(sh1) + padded_product(sh1) == p0 * padded_product(sh1))
            by (nonlinear_arith);
    }
}

/// Decoding: for every flat position `k` inside the shape's element count,
/// the `k`-th multi-index is valid and row-major strides map it back to `k`.
pub proof fn lemma_radix_decode(s: Seq<usize>, k: int)
    requires
        0 <= k < product(s),
    ensures
        in_range(multi_index(s, k), s),
        dot(multi_index(s, k), row_major(s)) == k,
    decreases s.len(),
{
    lemma_product_bounds(s);
    if s.len() == 0 {
        assert(multi_index(s, k) =~= Seq::<int>::empty());
    } else {
        let rest = s.drop_first();
        let p = product(rest);
        lemma_product_bounds(rest);
        assert(s[0] * p == product(s));
        assert(p > 0) by {
            if p == 0 {
                assert(s[0] as int * 0 == 0) by (nonlinear_arith);
            }
        }
        lemma_mod_bound(k, p);
        lemma_div_pos_is_pos(k, p);
        lemma_multiply_divide_lt(k, p, s[0] as int);
        assert(k < p * (s[0] as int)) by (nonlinear_arith)
            requires k < s[0] as int * p;
        lemma_radix_decode(rest, k % p);
        let mi = multi_index(s, k);
        assert(mi == seq![k / p] + multi_index(rest, k % p));
        assert(mi.drop_first() =~= multi_index(rest, k % p));
        assert(mi[0] == k / p);
        assert(in_range(mi, s)) by {
            let mi1 = multi_index(rest, k % p);
            assert(forall|i: int| 1 <= i < mi.len() ==> mi[i] == mi1[i - 1] && s[i] == rest[i - 1]);
        }
        assert(row_major(s)[0] == p) by {
            assert(s.skip(1) =~= rest);
        }
        assert(row_major(s).drop_first() =~= row_major(rest)) by {
            assert(forall|i: int| 0 <= i < rest.len() ==> {
                &&& row_major(s).drop_first()[i] == product(s.skip(i + 2))
                &&& s.skip(i + 2) =~= rest.skip(i + 1)
            });
        }
        lemma_fundamental_div_mod(k, p);
        assert(dot(mi, row_major(s)) == (k / p) * p + dot(multi_index(rest, k % p), row_major(rest)));
        assert(p * (k / p) == (k / p) * p) by (nonlinear_arith);
    }
}

/// Encoding: a valid multi-index maps under row-major strides to a flat
/// position inside the element count, and decoding that position recovers
/// the multi-index. Together with `lemma_radix_decode` this makes the
/// row-major index/position correspondence a bijection.
pub proof fn lemma_radix_encode(ix: Seq<int>, s: Seq<usize>)
    requires
        in_range(ix, s),
    ensures
        0 <= dot(ix, row_major(s)) < product(s),
        multi_index(s, dot(ix, row_major(s))) == ix,
    decreases s.len(),
{
    lemma_product_bounds(s);
    if s.len() == 0 {
        assert(multi_index(s, dot(ix, row_major(s))) =~= Seq::<int>::empty());
        assert(ix =~= Seq::<int>::empty());
    } else {
        let rest = s.drop_first();
        let ix1 = ix.drop_first();
        let p = product(rest);
        assert(in_range(ix1, rest)) by {
            assert(forall|i: int| 0 <= i < ix1.len() ==> ix1[i] == ix[i + 1] && rest[i] == s[i + 1]);
        }
        lemma_radix_encode(ix1, rest);
        lemma_product_bounds(rest);
        assert(p > 0) by {
            assert(forall|i: int| 0 <= i < rest.len() ==> rest[i] > 0) by {
                assert(forall|i: int| 0 <= i < rest.len() ==> rest[i] == s[i + 1] && 0 <= ix[i + 1] < s[i + 1]);
            }
        }
        assert(row_major(s)[0] == p) by {
            assert(s.skip(1) =~= rest);
        }
        assert(row_major(s).drop_first() =~= row_major(rest)) by {
            assert(forall|i: int| 0 <= i < rest.len() ==> {
                &&& row_major(s).drop_first()[i] == product(s.skip(i + 2))
                &&& s.skip(i + 2) =~= rest.skip(i + 1)
            });
        }
        let r = dot(ix1, row_major(rest));
        let d = dot(ix, row_major(s));
        assert(d == ix[0] * p + r);
        assert(d < product(s)) by {
            assert(ix[0] * p <= (s[0] - 1) * p) by {
                lemma_mul_inequality(ix[0], s[0] - 1, p);
            }
            assert((s[0] - 1) * p == s[0] * p - p) by (nonlinear_arith);
        }
        assert(0 <= d) by {
            lemma_mul_nonnegative(ix[0], p);
        }
        lemma_fundamental_div_mod_converse(d, p, ix[0], r);
        assert(multi_index(s, d) == seq![d / p] + multi_index(rest, d % p));
        assert(multi_index(s, d) =~= ix);
    }
}

/// Sums of dimension terms are invariant under removing one dimension and
/// adding its term back.
pub proof fn lemma_span_remove(ds: Seq<(usize, usize)>, j: int)
    requires
        0 <= j < ds.len(),
    ensures
        span(ds) == span_term(ds[j]) + span(ds.remove(j)),
    decreases j,
{
    if j == 0 {
        assert(ds.remove(0) =~= ds.drop_first());
    } else {
        assert(ds.remove(j).drop_first() =~= ds.drop_first().remove(j - 1));
        assert(ds.remove(j)[0] == ds[0]);
        lemma_span_remove(ds.drop_first(), j - 1);
    }
}

/// Padded products are invariant under removing one dimension and
/// multiplying its factor back.
pub proof fn lemma_pprod_remove(s: Seq<usize>, j: int)
    requires
        0 <= j < s.len(),
    ensures
        padded_product(s) == (if s[j] == 0 { 1int } else { s[j] as int }) * padded_product(
            s.remove(j),
        ),
    decreases j,
{
    let f: int = if s[j] == 0 { 1 } else { s[j] as int };
    if j == 0 {
        assert(s.remove(0) =~= s.drop_first());
    } else {
        assert(s.remove(j).drop_first() =~= s.drop_first().remove(j - 1));
        assert(s.remove(j)[0] == s[0]);
        lemma_pprod_remove(s.drop_first(), j - 1);
        let h: int = if s[0] == 0 { 1 } else { s[0] as int };
        let q = padded_product(s.drop_first().remove(j - 1));
        assert(h * (f * q) == f * (h * q)) by (nonlinear_arith);
    }
}

/// Two sequences of dimensions holding the same multiset of (size, stride)
/// pairs have the same span.
pub proof fn lemma_span_multiset(a: Seq<(usize, usize)>, b: Seq<(usize, usize)>)
    requires
        a.to_multiset() == b.to_multiset(),
    ensures
        span(a) == span(b),
    decreases a.len(),
{
    a.to_multiset_ensures();
    b.to_multiset_ensures();
    if a.len() == 0 {
        assert(b.len() == 0);
    } else {
        let x = a[0];
        assert(a.contains(x));
        assert(b.to_multiset().count(x) > 0);
        assert(b.contains(x));
        let j = choose|j: int| 0 <= j < b.len() && b[j] == x;
        to_multiset_remove(a, 0);
        to_multiset_remove(b, j);
        assert(a.remove(0) =~= a.drop_first());
        assert(a.drop_first().to_multiset() == b.remove(j).to_multiset());
        lemma_span_multiset(a.drop_first(), b.remove(j));
        lemma_span_remove(b, j);
    }
}

/// Two sequences of sizes holding the same multiset of entries have the same
/// padded product.
pub proof fn lemma_pprod_multiset(a: Seq<usize>, b: Seq<usize>)
    requires
        a.to_multiset() == b.to_multiset(),
    ensures
        padded_product(a) == padded_product(b),
    decreases a.len(),
{
    a.to_multiset_ensures();
    b.to_multiset_ensures();
    if a.len() == 0 {
        assert(b.len() == 0);
    } else {
        let x = a[0];
        assert(a.contains(x));
        assert(b.to_multiset().count(x) > 0);
        assert(b.contains(x));
        let j = choose|j: int| 0 <= j < b.len() && b[j] == x;
        to_multiset_remove(a, 0);
        to_multiset_remove(b, j);
        assert(a.remove(0) =~= a.drop_first());
        assert(a.drop_first().to_multiset() == b.remove(j).to_multiset());
        lemma_pprod_multiset(a.drop_first(), b.remove(j));
        lemma_pprod_remove(b, j);
    }
}

/// A duplicate-free sequence of `n` indices below `n` hits every index
/// below `n`.
pub proof fn lemma_no_dup_bounded_surjective(p: Seq<int>, n: int)
    requires
        p.len() == n,
        forall|i: int| 0 <= i < n ==> 0 <= #[trigger] p[i] < n,
        p.no_duplicates(),
    ensures
        forall|v: int| 0 <= v < n ==> p.contains(v),
{
    broadcast use vstd::set::group_set_axioms;

    p.unique_seq_to_set();
    vstd::seq_lib::seq_to_set_is_finite(p);
    let r = set_int_range(0, n);
    lemma_int_range(0, n);
    assert(p.to_set().subset_of(r)) by {
        assert(forall|v: int| p.to_set().contains(v) ==> p.contains(v) && 0 <= v < n);
    }
    lemma_subset_equality(p.to_set(), r);
    assert(p.to_set() =~= r);
    assert forall|v: int| 0 <= v < n implies p.contains(v) by {
        assert(r.contains(v));
        assert(p.to_set().contains(v));
    }
}

/// Rearranging a sequence by a duplicate-free full list of its indices keeps
/// its multiset of entries.
pub proof fn lemma_permuted_multiset<A>(s: Seq<A>, r: Seq<A>, p: Seq<int>)
    requires
        p.len() == s.len(),
        r.len() == s.len(),
        forall|i: int| 0 <= i < p.len() ==> 0 <= #[trigger] p[i] < s.len(),
        p.no_duplicates(),
        forall|i: int| 0 <= i < r.len() ==> #[trigger] r[i] == s[p[i]],
    ensures
        r.to_multiset() == s.to_multiset(),
    decreases s.len(),
{
    s.to_multiset_ensures();
    r.to_multiset_ensures();
    let n = s.len() as int;
    if n == 0 {
        assert(r.to_multiset() =~= s.to_multiset());
    } else {
        lemma_no_dup_bounded_surjective(p, n);
        assert(p.contains(n - 1));
        let j = choose|j: int| 0 <= j < n && p[j] == n - 1;
        let p1 = p.remove(j);
        let r1 = r.remove(j);
        let s1 = s.drop_last();
        assert forall|i: int, k: int|
            (0 <= i < p1.len() && 0 <= k < p1.len() && i != k) implies #[trigger] p1[i]
            != #[trigger] p1[k] by {
            let oi = if i < j { i } else { i + 1 };
            let ok = if k < j { k } else { k + 1 };
            assert(p1[i] == p[oi] && p1[k] == p[ok]);
        }
        assert(p1.no_duplicates());
        assert forall|i: int| 0 <= i < p1.len() implies 0 <= #[trigger] p1[i] < n - 1 by {
            let oi = if i < j { i } else { i + 1 };
            assert(p1[i] == p[oi]);
            assert(oi != j);
            assert(p[oi] != p[j]);
        }
        assert forall|i: int| 0 <= i < r1.len() implies #[trigger] r1[i] == s1[p1[i]] by {
            let oi = if i < j { i } else { i + 1 };
            assert(r1[i] == r[oi]);
            assert(p1[i] == p[oi]);
            assert(r[oi] == s[p[oi]]);
        }
        lemma_permuted_multiset(s1, r1, p1);
        to_multiset_remove(r, j);
        assert(s =~= s1.push(s.last()));
        to_multiset_build(s1, s.last());
        assert(r[j] == s[p[j]]);
        assert(r.contains(r[j]));
        assert(r.to_multiset().count(r[j]) > 0);
        assert(r.to_multiset() =~= r1.to_multiset().insert(r[j]));
        assert(s.to_multiset() =~= s1.to_multiset().insert(s.last()));
    }
}

} // verus!
// The lemmas below serve the layout engine's loops and transformations:
// bounds for partial dot products, splitting and comparing spans, and
// padded products under pointwise bounds.

verus! {

/// A dot product of non-negative sequences is non-negative.
pub proof fn lemma_dot_nonneg(a: Seq<int>, b: Seq<int>)
    requires
        forall|j: int| 0 <= j < a.len() ==> #[trigger] a[j] >= 0,
        forall|j: int| 0 <= j < b.len() ==> #[trigger] b[j] >= 0,
    ensures
        0 <= dot(a, b),
    decreases a.len(),
{
    if a.len() > 0 && b.len() > 0 {
        lemma_mul_nonnegative(a[0], b[0]);
        assert(forall|j: int| 0 <= j < a.drop_first().len() ==> #[trigger] a.drop_first()[j] == a[j + 1]);
        assert(forall|j: int| 0 <= j < b.drop_first().len() ==> #[trigger] b.drop_first()[j] == b[j + 1]);
        lemma_dot_nonneg(a.drop_first(), b.drop_first());
    }
}

/// For non-negative sequences, a prefix's dot product never exceeds the
/// whole dot product.
pub proof fn lemma_dot_take_le(a: Seq<int>, b: Seq<int>, i: int)
    requires
        a.len() == b.len(),
        0 <= i <= a.len(),
        forall|j: int| 0 <= j < a.len() ==> #[trigger] a[j] >= 0,
        forall|j: int| 0 <= j < b.len() ==> #[trigger] b[j] >= 0,
    ensures
        0 <= dot(a.take(i), b.take(i)),
        dot(a.take(i), b.take(i)) <= dot(a, b),
    decreases a.len(),
{
    lemma_dot_nonneg(a, b);
    if a.len() == 0 {
        assert(a.take(i) =~= a);
        assert(b.take(i) =~= b);
    } else if i == 0 {
        assert(a.take(0) =~= Seq::<int>::empty());
        assert(b.take(0) =~= Seq::<int>::empty());
    } else {
        let a1 = a.drop_first();
        let b1 = b.drop_first();
        assert(forall|j: int| 0 <= j < a1.len() ==> #[trigger] a1[j] == a[j + 1]);
        assert(forall|j: int| 0 <= j < b1.len() ==> #[trigger] b1[j] == b[j + 1]);
        lemma_dot_take_le(a1, b1, i - 1);
        assert(a.take(i).drop_first() =~= a1.take(i - 1));
        assert(b.take(i).drop_first() =~= b1.take(i - 1));
        assert(a.take(i)[0] == a[0] && b.take(i)[0] == b[0]);
        lemma_mul_nonnegative(a[0], b[0]);
    }
}

/// A span splits at any cut point.
pub proof fn lemma_span_split(ds: Seq<(usize, usize)>, i: int)
    requires
        0 <= i <= ds.len(),
    ensures
        span(ds) == span(ds.take(i)) + span(ds.skip(i)),
    decreases i,
{
    if i == 0 {
        assert(ds.take(0) =~= Seq::<(usize, usize)>::empty());
        assert(ds.skip(0) =~= ds);
    } else {
        lemma_span_split(ds, i - 1);
        assert(ds.take(i) =~= ds.take(i - 1).push(ds[i - 1]));
        lemma_span_push(ds.take(i - 1), ds[i - 1]);
        assert(ds.skip(i - 1)[0] == ds[i - 1]);
        assert(ds.skip(i - 1).drop_first() =~= ds.skip(i));
    }
}

/// Spans compare pointwise: dimensions with pointwise smaller largest
/// offsets have a smaller span.
pub proof fn lemma_span_pointwise_le(a: Seq<(usize, usize)>, b: Seq<(usize, usize)>)
    requires
        a.len() == b.len(),
        forall|i: int| 0 <= i < a.len() ==> span_term(#[trigger] a[i]) <= span_term(#[trigger] b[i]),
    ensures
        span(a) <= span(b),
    decreases a.len(),
{
    if a.len() > 0 {
        assert(forall|i: int| 0 <= i < a.drop_first().len() ==> #[trigger] a.drop_first()[i] == a[i + 1]);
        assert(forall|i: int| 0 <= i < b.drop_first().len() ==> #[trigger] b.drop_first()[i] == b[i + 1]);
        assert(span_term(a[0]) <= span_term(b[0]));
        lemma_span_pointwise_le(a.drop_first(), b.drop_first());
    }
}

/// Dimensions that each contribute no offset span nothing.
pub proof fn lemma_span_zero(ds: Seq<(usize, usize)>)
    requires
        forall|i: int| 0 <= i < ds.len() ==> span_term(#[trigger] ds[i]) == 0,
    ensures
        span(ds) == 0,
    decreases ds.len(),
{
    if ds.len() > 0 {
        assert(forall|i: int| 0 <= i < ds.drop_first().len() ==> #[trigger] ds.drop_first()[i] == ds[i + 1]);
        lemma_span_zero(ds.drop_first());
    }
}

/// With no zero-sized dimension, the product and the padded product agree.
pub proof fn lemma_product_eq_padded(s: Seq<usize>)
    requires
        forall|i: int| 0 <= i < s.len() ==> s[i] > 0,
    ensures
        product(s) == padded_product(s),
    decreases s.len(),
{
    if s.len() > 0 {
        assert(forall|i: int| 0 <= i < s.drop_first().len() ==> #[trigger] s.drop_first()[i] == s[i + 1]);
        lemma_product_eq_padded(s.drop_first());
    }
}

/// Padded products compare pointwise on the padded factors.
pub proof fn lemma_pprod_pointwise_le(a: Seq<usize>, b: Seq<usize>)
    requires
        a.len() == b.len(),
        forall|i: int|
            0 <= i < a.len() ==> (if #[trigger] a[i] == 0 {
                1int
            } else {
                a[i] as int
            }) <= (if #[trigger] b[i] == 0 {
                1int
            } else {
                b[i] as int
            }),
    ensures
        padded_product(a) <= padded_product(b),
    decreases a.len(),
{
    if a.len() > 0 {
        assert(forall|i: int| 0 <= i < a.drop_first().len() ==> #[trigger] a.drop_first()[i] == a[i + 1]);
        assert(forall|i: int| 0 <= i < b.drop_first().len() ==> #[trigger] b.drop_first()[i] == b[i + 1]);
        lemma_pprod_pointwise_le(a.drop_first(), b.drop_first());
        let ha: int = if a[0] == 0 { 1 } else { a[0] as int };
        let hb: int = if b[0] == 0 { 1 } else { b[0] as int };
        lemma_product_bounds(a.drop_first());
        lemma_product_bounds(b.drop_first());
        assert(ha * padded_product(a.drop_first()) <= hb * padded_product(b.drop_first()))
            by (nonlinear_arith)
            requires
                1 <= ha <= hb,
                1 <= padded_product(a.drop_first()) <= padded_product(b.drop_first()),
        ;
    }
}

/// Dot products agree whenever the pairwise products agree term by term.
pub proof fn lemma_dot_terms(a: Seq<int>, b: Seq<int>, c: Seq<int>, d: Seq<int>)
    requires
        a.len() == b.len(),
        c.len() == d.len(),
        a.len() == c.len(),
        forall|i: int| 0 <= i < a.len() ==> #[trigger] (a[i] * b[i]) == #[trigger] (c[i] * d[i]),
    ensures
        dot(a, b) == dot(c, d),
    decreases a.len(),
{
    if a.len() > 0 {
        assert(forall|i: int| 0 <= i < a.drop_first().len() ==> #[trigger] a.drop_first()[i] == a[i + 1]);
        assert(forall|i: int| 0 <= i < b.drop_first().len() ==> #[trigger] b.drop_first()[i] == b[i + 1]);
        assert(forall|i: int| 0 <= i < c.drop_first().len() ==> #[trigger] c.drop_first()[i] == c[i + 1]);
        assert(forall|i: int| 0 <= i < d.drop_first().len() ==> #[trigger] d.drop_first()[i] == d[i + 1]);
        assert(a[0] * b[0] == c[0] * d[0]);
        lemma_dot_terms(a.drop_first(), b.drop_first(), c.drop_first(), d.drop_first());
    }
}

} // verus!

verus! {

/// Plain products are invariant under removing one entry and multiplying
/// its factor back.
pub proof fn lemma_product_remove(s: Seq<usize>, j: int)
    requires
        0 <= j < s.len(),
    ensures
        product(s) == s[j] * product(s.remove(j)),
    decreases j,
{
    if j == 0 {
        assert(s.remove(0) =~= s.drop_first());
    } else {
        assert(s.remove(j).drop_first() =~= s.drop_first().remove(j - 1));
        assert(s.remove(j)[0] == s[0]);
        lemma_product_remove(s.drop_first(), j - 1);
        let h = s[0] as int;
        let f = s[j] as int;
        let q = product(s.drop_first().remove(j - 1));
        assert(h * (f * q) == f * (h * q)) by (nonlinear_arith);
    }
}

/// Two sequences of sizes holding the same multiset of entries have the
/// same product.
pub proof fn lemma_product_multiset(a: Seq<usize>, b: Seq<usize>)
    requires
        a.to_multiset() == b.to_multiset(),
    ensures
        product(a) == product(b),
    decreases a.len(),
{
    a.to_multiset_ensures();
    b.to_multiset_ensures();
    if a.len() == 0 {
        assert(b.len() == 0);
    } else {
        let x = a[0];
        assert(a.contains(x));
        assert(b.to_multiset().count(x) > 0);
        assert(b.contains(x));
        let j = choose|j: int| 0 <= j < b.len() && b[j] == x;
        to_multiset_remove(a, 0);
        to_multiset_remove(b, j);
        assert(a.remove(0) =~= a.drop_first());
        assert(a.drop_first().to_multiset() == b.remove(j).to_multiset());
        lemma_product_multiset(a.drop_first(), b.remove(j));
        lemma_product_remove(b, j);
    }
}

} // verus!

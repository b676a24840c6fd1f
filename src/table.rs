//! Dense multi-dimensional tables: a key (one digit per dimension) maps to
//! a single offset in a flat vector, most significant dimension first.
use vstd::arithmetic::div_mod::lemma_fundamental_div_mod_converse;
use vstd::prelude::*;

verus! {

/// Every dimension has at least one position.
pub open spec fn positive(dims: Seq<usize>) -> bool {
    forall|i: int| 0 <= i < dims.len() ==> #[trigger] dims[i] >= 1
}

/// The key has one digit per dimension, each below that dimension's size.
pub open spec fn in_dims(key: Seq<usize>, dims: Seq<usize>) -> bool {
    &&& key.len() == dims.len()
    &&& forall|i: int| 0 <= i < key.len() ==> #[trigger] key[i] < dims[i]
}

/// The number of keys.
pub open spec fn size(dims: Seq<usize>) -> int
    decreases dims.len(),
{
    if dims.len() == 0 {
        1
    } else {
        size(dims.drop_last()) * dims.last()
    }
}

/// The position of a key in the flat vector.
pub open spec fn offset(key: Seq<usize>, dims: Seq<usize>) -> int
    decreases key.len(),
{
    if key.len() == 0 || dims.len() == 0 {
        0
    } else {
        offset(key.drop_last(), dims.drop_last()) * dims.last() + key.last()
    }
}

/// The key at a position of the flat vector.
pub open spec fn decode(i: int, dims: Seq<usize>) -> Seq<usize>
    decreases dims.len(),
{
    if dims.len() == 0 {
        seq![]
    } else {
        decode(i / dims.last() as int, dims.drop_last()).push((i % dims.last() as int) as usize)
    }
}

pub proof fn lemma_size_positive(dims: Seq<usize>)
    requires
        positive(dims),
    ensures
        size(dims) >= 1,
    decreases dims.len(),
{
    if dims.len() > 0 {
        let init = dims.drop_last();
        assert(positive(init)) by {
            assert forall|i: int| 0 <= i < init.len() implies #[trigger] init[i] >= 1 by {
                assert(init[i] == dims[i]);
            }
        }
        lemma_size_positive(init);
        let a = size(init);
        let b = dims.last() as int;
        assert(a * b >= 1) by (nonlinear_arith)
            requires
                a >= 1,
                b >= 1,
        ;
    }
}

pub proof fn lemma_offset_bounds(key: Seq<usize>, dims: Seq<usize>)
    requires
        in_dims(key, dims),
    ensures
        0 <= offset(key, dims) < size(dims),
    decreases key.len(),
{
    if key.len() > 0 {
        let ik = key.drop_last();
        let id = dims.drop_last();
        assert(in_dims(ik, id)) by {
            assert forall|i: int| 0 <= i < ik.len() implies #[trigger] ik[i] < id[i] by {
                assert(ik[i] == key[i] && id[i] == dims[i]);
            }
        }
        lemma_offset_bounds(ik, id);
        let o = offset(ik, id);
        let s = size(id);
        let d = dims.last() as int;
        let l = key.last() as int;
        assert(key.last() < dims.last()) by {
            assert(key[key.len() - 1] < dims[key.len() - 1]);
        }
        assert(0 <= o * d + l < s * d) by (nonlinear_arith)
            requires
                0 <= o < s,
                0 <= l < d,
        ;
    }
}

pub proof fn lemma_decode_in_dims(i: int, dims: Seq<usize>)
    requires
        0 <= i,
        positive(dims),
    ensures
        in_dims(decode(i, dims), dims),
    decreases dims.len(),
{
    if dims.len() > 0 {
        let id = dims.drop_last();
        let d = dims.last() as int;
        assert(d >= 1) by {
            assert(dims[dims.len() - 1] >= 1);
        }
        assert(positive(id)) by {
            assert forall|k: int| 0 <= k < id.len() implies #[trigger] id[k] >= 1 by {
                assert(id[k] == dims[k]);
            }
        }
        assert(i / d >= 0) by (nonlinear_arith)
            requires
                i >= 0,
                d >= 1,
        ;
        lemma_decode_in_dims(i / d, id);
        let r = decode(i, dims);
        let p = decode(i / d, id);
        assert forall|k: int| 0 <= k < r.len() implies #[trigger] r[k] < dims[k] by {
            if k < p.len() {
                assert(r[k] == p[k]);
                assert(id[k] == dims[k]);
            }
        }
    }
}

/// Decoding the offset of a key gives the key back.
pub proof fn lemma_decode_offset(key: Seq<usize>, dims: Seq<usize>)
    requires
        in_dims(key, dims),
    ensures
        decode(offset(key, dims), dims) == key,
    decreases key.len(),
{
    if key.len() > 0 {
        let ik = key.drop_last();
        let id = dims.drop_last();
        assert(in_dims(ik, id)) by {
            assert forall|i: int| 0 <= i < ik.len() implies #[trigger] ik[i] < id[i] by {
                assert(ik[i] == key[i] && id[i] == dims[i]);
            }
        }
        assert(key.last() < dims.last()) by {
            assert(key[key.len() - 1] < dims[key.len() - 1]);
        }
        lemma_decode_offset(ik, id);
        let o = offset(ik, id);
        let d = dims.last() as int;
        lemma_fundamental_div_mod_converse(o * d + key.last(), d, o, key.last() as int);
        assert(decode(offset(key, dims), dims) =~= key);
    }
}

/// The offset of the key at a position is that position.
pub proof fn lemma_offset_decode(i: int, dims: Seq<usize>)
    requires
        positive(dims),
        0 <= i < size(dims),
    ensures
        offset(decode(i, dims), dims) == i,
    decreases dims.len(),
{
    if dims.len() > 0 {
        let id = dims.drop_last();
        let d = dims.last() as int;
        assert(d >= 1) by {
            assert(dims[dims.len() - 1] >= 1);
        }
        assert(positive(id)) by {
            assert forall|k: int| 0 <= k < id.len() implies #[trigger] id[k] >= 1 by {
                assert(id[k] == dims[k]);
            }
        }
        let s = size(id);
        assert(0 <= i / d < s) by (nonlinear_arith)
            requires
                0 <= i < s * d,
                d >= 1,
        ;
        lemma_offset_decode(i / d, id);
        let r = decode(i, dims);
        assert(r.drop_last() =~= decode(i / d, id));
        assert(i == (i / d) * d + i % d) by (nonlinear_arith)
            requires
                d >= 1,
        ;
    }
}

/// Appending a dimension scales the offset and adds the new digit.
pub proof fn lemma_offset_push(key: Seq<usize>, dims: Seq<usize>, t: usize, d: usize)
    requires
        key.len() == dims.len(),
    ensures
        offset(key.push(t), dims.push(d)) == offset(key, dims) * d + t,
        size(dims.push(d)) == size(dims) * d,
        decode(offset(key, dims) * d + t, dims.push(d)).drop_last() == decode(
            (offset(key, dims) * d + t) / (d as int),
            dims,
        ),
{
    assert(key.push(t).drop_last() =~= key);
    assert(dims.push(d).drop_last() =~= dims);
    let i = offset(key, dims) * d + t;
    assert(decode(i, dims.push(d)).drop_last() =~= decode(i / (d as int), dims));
}

proof fn lemma_size_prefix(dims: Seq<usize>, k: int)
    requires
        positive(dims),
        0 <= k <= dims.len(),
    ensures
        size(dims.subrange(0, k)) <= size(dims),
    decreases dims.len() - k,
{
    if k < dims.len() {
        lemma_size_prefix(dims, k + 1);
        let p = dims.subrange(0, k);
        let q = dims.subrange(0, k + 1);
        assert(q.drop_last() =~= p);
        assert(positive(p)) by {
            assert forall|i: int| 0 <= i < p.len() implies #[trigger] p[i] >= 1 by {
                assert(p[i] == dims[i]);
            }
        }
        lemma_size_positive(p);
        let a = size(p);
        let b = q.last() as int;
        assert(q.last() == dims[k]);
        assert(a <= a * b) by (nonlinear_arith)
            requires
                a >= 1,
                b >= 1,
        ;
    } else {
        assert(dims.subrange(0, k) =~= dims);
    }
}

/// The position of `key`, or `None` when a digit is out of its dimension.
pub fn index_of(key: &[usize], dims: &[usize]) -> (r: Option<usize>)
    requires
        positive(dims@),
        size(dims@) <= usize::MAX,
    ensures
        r == (if in_dims(key@, dims@) {
            Some(offset(key@, dims@) as usize)
        } else {
            None::<usize>
        }),
        r matches Some(i) ==> i < size(dims@),
{
    if key.len() != dims.len() {
        return None;
    }
    let mut acc: usize = 0;
    let mut k: usize = 0;
    while k < key.len()
        invariant
            key@.len() == dims@.len(),
            positive(dims@),
            size(dims@) <= usize::MAX,
            0 <= k <= key@.len(),
            in_dims(key@.subrange(0, k as int), dims@.subrange(0, k as int)),
            acc == offset(key@.subrange(0, k as int), dims@.subrange(0, k as int)),
        decreases key@.len() - k,
    {
        let ghost ks = key@.subrange(0, k as int + 1);
        let ghost ds = dims@.subrange(0, k as int + 1);
        assert(ks.drop_last() =~= key@.subrange(0, k as int));
        assert(ds.drop_last() =~= dims@.subrange(0, k as int));
        if key[k] >= dims[k] {
            proof {
                assert(!in_dims(key@, dims@)) by {
                    assert(!(key@[k as int] < dims@[k as int]));
                }
            }
            return None;
        }
        proof {
            assert(in_dims(ks, ds)) by {
                assert forall|i: int| 0 <= i < ks.len() implies #[trigger] ks[i] < ds[i] by {
                    if i < k {
                        assert(key@.subrange(0, k as int)[i] == ks[i]);
                        assert(dims@.subrange(0, k as int)[i] == ds[i]);
                    }
                }
            }
            lemma_offset_bounds(ks, ds);
            lemma_size_prefix(dims@, k as int + 1);
        }
        acc = acc * dims[k] + key[k];
        k = k + 1;
    }
    proof {
        assert(key@.subrange(0, k as int) =~= key@);
        assert(dims@.subrange(0, k as int) =~= dims@);
        lemma_offset_bounds(key@, dims@);
    }
    Some(acc)
}

/// The key at position `i`.
pub fn key_at(i: usize, dims: &[usize]) -> (r: Vec<usize>)
    requires
        positive(dims@),
    ensures
        r@ == decode(i as int, dims@),
        in_dims(r@, dims@),
{
    let n = dims.len();
    let mut digits: Vec<usize> = Vec::new();
    let mut k: usize = 0;
    while k < n
        invariant
            n == dims@.len(),
            positive(dims@),
            0 <= k <= n,
            digits@.len() == k,
        decreases n - k,
    {
        digits.push(0);
        k = k + 1;
    }
    let mut rest: usize = i;
    let mut k: usize = n;
    assert(dims@.subrange(0, n as int) =~= dims@);
    assert(decode(i as int, dims@) =~= decode(rest as int, dims@.subrange(0, k as int))
        + digits@.subrange(k as int, n as int));
    while k > 0
        invariant
            n == dims@.len(),
            positive(dims@),
            0 <= k <= n,
            digits@.len() == n,
            decode(i as int, dims@) == decode(rest as int, dims@.subrange(0, k as int))
                + digits@.subrange(k as int, n as int),
        decreases k,
    {
        let d = dims[k - 1];
        assert(d >= 1) by {
            assert(dims@[k - 1] >= 1);
        }
        let ghost pre = dims@.subrange(0, k as int);
        assert(pre.drop_last() =~= dims@.subrange(0, k as int - 1));
        assert(pre.last() == d);
        let ghost old_digits = digits@;
        digits.set(k - 1, rest % d);
        assert(digits@.subrange(k as int - 1, n as int) =~= seq![(rest % d)]
            + old_digits.subrange(k as int, n as int));
        assert(decode(rest as int, pre) =~= decode((rest / d) as int, dims@.subrange(
            0,
            k as int - 1,
        )).push((rest % d)));
        rest = rest / d;
        k = k - 1;
        assert(decode(i as int, dims@) =~= decode(rest as int, dims@.subrange(0, k as int))
            + digits@.subrange(k as int, n as int));
    }
    proof {
        assert(decode(rest as int, dims@.subrange(0, 0)) =~= seq![]);
        assert(digits@.subrange(0, n as int) =~= digits@);
        assert(decode(i as int, dims@) =~= digits@);
        lemma_decode_in_dims(i as int, dims@);
    }
    digits
}

/// The number of keys, computed.
pub fn size_of(dims: &[usize]) -> (r: Option<usize>)
    requires
        positive(dims@),
    ensures
        r == (if size(dims@) <= usize::MAX {
            Some(size(dims@) as usize)
        } else {
            None::<usize>
        }),
{
    let mut acc: usize = 1;
    let mut k: usize = 0;
    while k < dims.len()
        invariant
            positive(dims@),
            0 <= k <= dims@.len(),
            acc == size(dims@.subrange(0, k as int)),
        decreases dims@.len() - k,
    {
        let ghost ds = dims@.subrange(0, k as int + 1);
        assert(ds.drop_last() =~= dims@.subrange(0, k as int));
        proof {
            lemma_size_prefix(dims@, k as int + 1);
        }
        match acc.checked_mul(dims[k]) {
            Some(v) => {
                acc = v;
            },
            None => {
                proof {
                    assert(size(ds) == acc * dims@[k as int]);
                }
                return None;
            },
        }
        k = k + 1;
    }
    assert(dims@.subrange(0, k as int) =~= dims@);
    Some(acc)
}

} // verus!

//! The canonical ordering protocol for composite indices.  A composite
//! index over several properties must resolve to one physical index no
//! matter the order in which the properties are named: the tags are sorted
//! by their stable order keys into a canonical order, and the permutation
//! between caller order and canonical order, with its inverse, reorders
//! the aligned value tuples both ways.

use vstd::multiset::Multiset;
use vstd::prelude::*;
use vstd::relations::{sorted_by, total_ordering};
use vstd::seq_lib::lemma_sorted_unique;

verus! {

/// The stable, comparable order key that a property tag carries.
pub type TagKey = u64;

/// Why a composite registration is rejected.
#[derive(Clone, Copy, Debug, PartialEq, Eq, Structural)]
pub enum TagOrderError {
    /// Two distinct tags of one composite compare equal under the order
    /// key, so no strict total order exists.
    DuplicateTag,
}

/// Whether no order key occurs twice.
pub open spec fn distinct_keys(tags: Seq<TagKey>) -> bool {
    forall|i: int, j: int| 0 <= i < j < tags.len() ==> tags[i] != tags[j]
}

/// Whether the keys are in strictly increasing order.
pub open spec fn sorted_strict(tags: Seq<TagKey>) -> bool {
    forall|i: int, j: int| 0 <= i < j < tags.len() ==> tags[i] < tags[j]
}

/// The values moved into canonical order: the value at caller position
/// `inverse[j]` arrives at canonical position `j`.
pub open spec fn spec_reorder<A>(v: Seq<A>, inverse: Seq<usize>) -> Seq<A> {
    Seq::new(v.len(), |j: int| v[inverse[j] as int])
}

/// The values moved back into caller order: the value at canonical
/// position `forward[i]` returns to caller position `i`.
pub open spec fn spec_unreorder<A>(c: Seq<A>, forward: Seq<usize>) -> Seq<A> {
    Seq::new(c.len(), |i: int| c[forward[i] as int])
}

/// A bijection between caller-order positions and canonical-order
/// positions: `forward[i]` is the canonical position of caller position
/// `i`, and `inverse` is its inverse.  Fixed once per unordered tag set
/// and reused for every query against that composite.
pub struct Permutation {
    forward: Vec<usize>,
    inverse: Vec<usize>,
}

impl Permutation {
    /// The forward map, caller position to canonical position.
    pub closed spec fn forward_spec(&self) -> Seq<usize> {
        self.forward@
    }

    /// The inverse map, canonical position to caller position.
    pub closed spec fn inverse_spec(&self) -> Seq<usize> {
        self.inverse@
    }

    /// How many positions the permutation moves.
    pub open spec fn len_spec(&self) -> nat {
        self.forward_spec().len()
    }

    /// The two maps are inverse bijections on the positions.
    pub open spec fn wf(&self) -> bool {
        &&& self.inverse_spec().len() == self.forward_spec().len()
        &&& forall|i: int|
            0 <= i < self.len_spec() ==> (#[trigger] self.forward_spec()[i]) < self.len_spec()
        &&& forall|j: int|
            0 <= j < self.len_spec() ==> (#[trigger] self.inverse_spec()[j]) < self.len_spec()
        &&& forall|i: int|
            0 <= i < self.len_spec() ==> self.inverse_spec()[#[trigger] self.forward_spec()[i] as int]
                == i
        &&& forall|j: int|
            0 <= j < self.len_spec() ==> self.forward_spec()[#[trigger] self.inverse_spec()[j] as int]
                == j
    }

    /// How many positions the permutation moves.
    pub fn len(&self) -> (r: usize)
        ensures
            r == self.len_spec(),
    {
        self.forward.len()
    }

    /// Apply the permutation to an aligned value tuple: the value at
    /// caller position `i` moves to canonical position `forward[i]`.
    pub fn reorder<T>(&self, values: Vec<T>) -> (r: Vec<T>)
        requires
            self.wf(),
            values@.len() == self.len_spec(),
        ensures
            r@ == spec_reorder(values@, self.inverse_spec()),
            forall|i: int|
                0 <= i < values@.len() ==> r@[#[trigger] self.forward_spec()[i] as int]
                    == values@[i],
    {
        let ghost vs = values@;
        let r = permute_by(values, &self.inverse);
        proof {
            assert forall|i: int|
                0 <= i < vs.len() implies r@[#[trigger] self.forward_spec()[i] as int]
                == vs[i] by {
                assert(self.inverse_spec()[self.forward_spec()[i] as int] == i);
            }
        }
        r
    }

    /// Apply the inverse permutation: the value at canonical position
    /// `forward[i]` returns to caller position `i`.
    pub fn unreorder<T>(&self, canonical: Vec<T>) -> (r: Vec<T>)
        requires
            self.wf(),
            canonical@.len() == self.len_spec(),
        ensures
            r@ == spec_unreorder(canonical@, self.forward_spec()),
    {
        permute_by(canonical, &self.forward)
    }
}

/// For every permutation and aligned value tuple, moving the values to
/// canonical order and back returns exactly the original tuple, and the
/// round trip in the other direction restores a canonical tuple as well.
pub proof fn lemma_reorder_roundtrip<A>(p: Permutation, v: Seq<A>)
    requires
        p.wf(),
        v.len() == p.len_spec(),
    ensures
        spec_unreorder(spec_reorder(v, p.inverse_spec()), p.forward_spec()) == v,
        spec_reorder(spec_unreorder(v, p.forward_spec()), p.inverse_spec()) == v,
{
    let c = spec_reorder(v, p.inverse_spec());
    assert forall|i: int| 0 <= i < v.len() implies spec_unreorder(c, p.forward_spec())[i]
        == v[i] by {
        assert(p.inverse_spec()[p.forward_spec()[i] as int] == i);
    }
    assert(spec_unreorder(spec_reorder(v, p.inverse_spec()), p.forward_spec()) =~= v);
    let u = spec_unreorder(v, p.forward_spec());
    assert forall|j: int| 0 <= j < v.len() implies spec_reorder(u, p.inverse_spec())[j]
        == v[j] by {
        assert(p.forward_spec()[p.inverse_spec()[j] as int] == j);
    }
    assert(spec_reorder(spec_unreorder(v, p.forward_spec()), p.inverse_spec()) =~= v);
}

/// Any two strictly sorted key sequences with the same keys are equal: a
/// canonical tag order depends only on the unordered set of tags, not on
/// the order in which a caller supplied them.
pub proof fn lemma_canonical_unique(a: Seq<TagKey>, b: Seq<TagKey>)
    requires
        sorted_strict(a),
        sorted_strict(b),
        a.to_multiset() == b.to_multiset(),
    ensures
        a == b,
{
    let leq = |x: TagKey, y: TagKey| x <= y;
    assert(total_ordering(leq));
    assert(sorted_by(a, leq));
    assert(sorted_by(b, leq));
    lemma_sorted_unique(a, b, leq);
    assert(a =~= b);
}

/// Canonicalization invariance: two caller orderings of one unordered tag
/// set — sequences with the same keys — always canonicalize to the same
/// canonical tag order, since `canonicalize` returns a strictly sorted
/// sequence with exactly the caller's keys.  Equal canonical tuples then
/// digest alike, so values submitted under either ordering collide into
/// the same index entry.
pub proof fn lemma_canonicalization_invariance(
    tags1: Seq<TagKey>,
    tags2: Seq<TagKey>,
    c1: Seq<TagKey>,
    c2: Seq<TagKey>,
)
    requires
        tags1.to_multiset() == tags2.to_multiset(),
        sorted_strict(c1),
        sorted_strict(c2),
        c1.to_multiset() == tags1.to_multiset(),
        c2.to_multiset() == tags2.to_multiset(),
    ensures
        c1 == c2,
{
    lemma_canonical_unique(c1, c2);
}

/// The tag keys selected by `inverse`, in that order.
spec fn sel(tags: Seq<TagKey>, inverse: Seq<usize>) -> Seq<TagKey> {
    Seq::new(inverse.len(), |j: int| tags[inverse[j] as int])
}

/// Inserting an element anywhere in a sequence inserts it into the
/// sequence's multiset.
proof fn lemma_insert_to_multiset<A>(s: Seq<A>, p: int, v: A)
    requires
        0 <= p <= s.len(),
    ensures
        s.insert(p, v).to_multiset() == s.to_multiset().insert(v),
{
    broadcast use vstd::seq_lib::group_to_multiset_ensures;

    let left = s.take(p);
    let right = s.skip(p);
    assert(s =~= left + right);
    assert(s.insert(p, v) =~= left + (seq![v] + right));
    vstd::seq_lib::lemma_multiset_commutative(left, right);
    vstd::seq_lib::lemma_multiset_commutative(left, seq![v] + right);
    vstd::seq_lib::lemma_multiset_commutative(seq![v], right);
    assert(seq![v] =~= Seq::<A>::empty().push(v));
    assert(seq![v].to_multiset() =~= Multiset::<A>::empty().insert(v));
    assert(s.insert(p, v).to_multiset() =~= s.to_multiset().insert(v));
}

/// Set one element of a vector.
fn vec_set(v: &mut Vec<usize>, i: usize, x: usize)
    requires
        i < old(v)@.len(),
    ensures
        final(v)@ == old(v)@.update(i as int, x),
{
    let r = &mut v[i];
    *r = x;
}

/// Compute the canonical (sorted) order of the given tag keys, together
/// with the permutation from caller order to canonical order and its
/// inverse.  Fails when two tags compare equal under the order key: the
/// keys of one composite must form a strict total order, and the failure
/// comes at construction time, never as a wrong permutation later.
pub fn canonicalize(tags: &Vec<TagKey>) -> (r: Result<
    (Vec<TagKey>, Permutation),
    TagOrderError,
>)
    ensures
        match r {
            Ok(cp) => {
                &&& distinct_keys(tags@)
                &&& cp.1.wf()
                &&& cp.1.len_spec() == tags@.len()
                &&& cp.0@ == spec_reorder(tags@, cp.1.inverse_spec())
                &&& sorted_strict(cp.0@)
                &&& cp.0@.to_multiset() == tags@.to_multiset()
                &&& forall|i: int|
                    0 <= i < tags@.len() ==> cp.0@[#[trigger] cp.1.forward_spec()[i] as int]
                        == tags@[i]
            },
            Err(e) => e == TagOrderError::DuplicateTag && !distinct_keys(tags@),
        },
{
    let n = tags.len();
    let mut i: usize = 0;
    while i < n
        invariant
            i <= n,
            n == tags@.len(),
            forall|a: int, b: int| 0 <= a < b < tags@.len() && a < i ==> tags@[a] != tags@[b],
        decreases n - i,
    {
        let mut j: usize = i + 1;
        while j < n
            invariant
                i < j <= n,
                i < n,
                n == tags@.len(),
                forall|b: int| i < b < j ==> tags@[i as int] != tags@[b],
            decreases n - j,
        {
            if tags[i] == tags[j] {
                proof {
                    assert(!distinct_keys(tags@)) by {
                        if distinct_keys(tags@) {
                            assert(tags@[i as int] != tags@[j as int]);
                        }
                    }
                }
                return Err(TagOrderError::DuplicateTag);
            }
            j += 1;
        }
        i += 1;
    }
    assert(distinct_keys(tags@));
    let mut forward: Vec<usize> = Vec::new();
    let mut inverse: Vec<usize> = Vec::new();
    proof {
        assert(sel(tags@, inverse@) =~= tags@.take(0));
    }
    let mut k: usize = 0;
    while k < n
        invariant
            k <= n,
            n == tags@.len(),
            distinct_keys(tags@),
            forward@.len() == k,
            inverse@.len() == k,
            forall|i2: int| 0 <= i2 < k ==> (#[trigger] forward@[i2]) < k,
            forall|j2: int| 0 <= j2 < k ==> (#[trigger] inverse@[j2]) < k,
            forall|i2: int| 0 <= i2 < k ==> inverse@[#[trigger] forward@[i2] as int] == i2,
            forall|j2: int| 0 <= j2 < k ==> forward@[#[trigger] inverse@[j2] as int] == j2,
            forall|a: int, b: int|
                0 <= a < b < k ==> tags@[inverse@[a] as int] < tags@[inverse@[b] as int],
            sel(tags@, inverse@).to_multiset() == tags@.take(k as int).to_multiset(),
        decreases n - k,
    {
        let ghost pre_forward = forward@;
        let ghost pre_inverse = inverse@;
        let mut p: usize = 0;
        let mut q: usize = 0;
        while q < k
            invariant
                q <= k,
                p <= q,
                k < n,
                n == tags@.len(),
                distinct_keys(tags@),
                inverse@.len() == k,
                forall|j2: int| 0 <= j2 < k ==> (#[trigger] inverse@[j2]) < k,
                forall|a: int, b: int|
                    0 <= a < b < k ==> tags@[inverse@[a] as int] < tags@[inverse@[b] as int],
                forall|q2: int|
                    0 <= q2 < p ==> tags@[#[trigger] inverse@[q2] as int] < tags@[k as int],
                forall|q2: int|
                    p <= q2 < q ==> !(tags@[#[trigger] inverse@[q2] as int] < tags@[k as int]),
            decreases k - q,
        {
            let iq = inverse[q];
            if tags[iq] < tags[k] {
                proof {
                    if p < q {
                        assert(tags@[inverse@[p as int] as int] < tags@[inverse@[q as int] as int]);
                        assert(false);
                    }
                }
                p += 1;
            }
            q += 1;
        }
        proof {
            assert forall|q2: int| p <= q2 < k implies tags@[k as int] < tags@[
                #[trigger] inverse@[q2] as int
            ] by {
                assert(!(tags@[inverse@[q2] as int] < tags@[k as int]));
                assert(inverse@[q2] as int != k as int);
                assert(tags@[inverse@[q2] as int] != tags@[k as int]) by {
                    if inverse@[q2] < k as usize {
                        assert(tags@[inverse@[q2] as int] != tags@[k as int]);
                    }
                }
            }
        }
        inverse.insert(p, k);
        let fwd_len = forward.len();
        let mut i2: usize = 0;
        while i2 < fwd_len
            invariant
                i2 <= fwd_len,
                fwd_len == k,
                k < n,
                p <= k,
                forward@.len() == k,
                forall|i3: int| 0 <= i3 < k ==> (#[trigger] pre_forward[i3]) < k,
                forall|i3: int|
                    0 <= i3 < i2 ==> (#[trigger] forward@[i3]) == (if pre_forward[i3] >= p {
                        (pre_forward[i3] + 1) as usize
                    } else {
                        pre_forward[i3]
                    }),
                forall|i3: int| i2 <= i3 < k ==> (#[trigger] forward@[i3]) == pre_forward[i3],
            decreases fwd_len - i2,
        {
            let f = forward[i2];
            if f >= p {
                vec_set(&mut forward, i2, f + 1);
            }
            i2 += 1;
        }
        forward.push(p);
        proof {
            lemma_canonicalize_step(tags@, pre_forward, pre_inverse, forward@, inverse@, k as int, p as int);
            assert(tags@.take(k + 1) =~= tags@.take(k as int).push(tags@[k as int]));
            lemma_insert_to_multiset(sel(tags@, pre_inverse), p as int, tags@[k as int]);
            assert(sel(tags@, inverse@) =~= sel(tags@, pre_inverse).insert(p as int, tags@[k as int]));
            broadcast use vstd::seq_lib::group_to_multiset_ensures;
        }
        k += 1;
    }
    let mut canonical: Vec<TagKey> = Vec::new();
    let mut j: usize = 0;
    while j < n
        invariant
            j <= n,
            n == tags@.len(),
            inverse@.len() == n,
            forall|j2: int| 0 <= j2 < n ==> (#[trigger] inverse@[j2]) < n,
            canonical@.len() == j,
            forall|j2: int| 0 <= j2 < j ==> canonical@[j2] == tags@[inverse@[j2] as int],
        decreases n - j,
    {
        let idx = inverse[j];
        canonical.push(tags[idx]);
        j += 1;
    }
    let perm = Permutation { forward, inverse };
    proof {
        assert(canonical@ =~= sel(tags@, perm.inverse_spec()));
        assert(canonical@ =~= spec_reorder(tags@, perm.inverse_spec()));
        assert(tags@.take(n as int) =~= tags@);
        assert forall|i3: int|
            0 <= i3 < tags@.len() implies canonical@[#[trigger] perm.forward_spec()[i3] as int]
            == tags@[i3] by {
            assert(perm.inverse_spec()[perm.forward_spec()[i3] as int] == i3);
        }
    }
    Ok((canonical, perm))
}

/// One insertion-sort step keeps the two position maps inverse to each
/// other, in range, and the selected keys strictly sorted.
proof fn lemma_canonicalize_step(
    tags: Seq<TagKey>,
    pre_forward: Seq<usize>,
    pre_inverse: Seq<usize>,
    post_forward: Seq<usize>,
    post_inverse: Seq<usize>,
    k: int,
    p: int,
)
    requires
        tags.len() <= usize::MAX,
        0 <= k < tags.len(),
        0 <= p <= k,
        distinct_keys(tags),
        pre_forward.len() == k,
        pre_inverse.len() == k,
        forall|i: int| 0 <= i < k ==> (#[trigger] pre_forward[i]) < k,
        forall|j: int| 0 <= j < k ==> (#[trigger] pre_inverse[j]) < k,
        forall|i: int| 0 <= i < k ==> pre_inverse[#[trigger] pre_forward[i] as int] == i,
        forall|j: int| 0 <= j < k ==> pre_forward[#[trigger] pre_inverse[j] as int] == j,
        forall|a: int, b: int|
            0 <= a < b < k ==> tags[pre_inverse[a] as int] < tags[pre_inverse[b] as int],
        forall|q: int| 0 <= q < p ==> tags[#[trigger] pre_inverse[q] as int] < tags[k],
        forall|q: int| p <= q < k ==> tags[k] < tags[#[trigger] pre_inverse[q] as int],
        post_inverse == pre_inverse.insert(p, k as usize),
        post_forward.len() == k + 1,
        forall|i: int|
            0 <= i < k ==> (#[trigger] post_forward[i]) == (if pre_forward[i] >= p {
                (pre_forward[i] + 1) as usize
            } else {
                pre_forward[i]
            }),
        post_forward[k] == p,
    ensures
        forall|i: int| 0 <= i < k + 1 ==> (#[trigger] post_forward[i]) < k + 1,
        forall|j: int| 0 <= j < k + 1 ==> (#[trigger] post_inverse[j]) < k + 1,
        forall|i: int| 0 <= i < k + 1 ==> post_inverse[#[trigger] post_forward[i] as int] == i,
        forall|j: int| 0 <= j < k + 1 ==> post_forward[#[trigger] post_inverse[j] as int] == j,
        forall|a: int, b: int|
            0 <= a < b < k + 1 ==> tags[post_inverse[a] as int] < tags[post_inverse[b] as int],
{
    assert(post_inverse.len() == k + 1);
    assert forall|j: int| 0 <= j < k + 1 implies (#[trigger] post_inverse[j]) < k + 1 by {
        if j < p {
            assert(post_inverse[j] == pre_inverse[j]);
        } else if j == p {
            assert(post_inverse[j] == k as usize);
        } else {
            assert(post_inverse[j] == pre_inverse[j - 1]);
        }
    }
    assert forall|i: int| 0 <= i < k + 1 implies post_inverse[
        #[trigger] post_forward[i] as int
    ] == i by {
        if i < k {
            if pre_forward[i] >= p {
                assert(pre_forward[i] + 1 <= usize::MAX);
                assert(post_forward[i] == pre_forward[i] + 1);
                assert(post_inverse[pre_forward[i] + 1] == pre_inverse[pre_forward[i] as int]);
            } else {
                assert(post_forward[i] == pre_forward[i]);
                assert(post_inverse[pre_forward[i] as int] == pre_inverse[pre_forward[i] as int]);
            }
        } else {
            assert(post_forward[k] == p);
            assert(post_inverse[p] == k as usize);
        }
    }
    assert forall|j: int| 0 <= j < k + 1 implies post_forward[
        #[trigger] post_inverse[j] as int
    ] == j by {
        if j < p {
            assert(post_inverse[j] == pre_inverse[j]);
            assert(pre_forward[pre_inverse[j] as int] == j);
            assert(pre_forward[pre_inverse[j] as int] < p) by {
                if pre_forward[pre_inverse[j] as int] >= p {
                }
            }
            assert(post_forward[pre_inverse[j] as int] == pre_forward[pre_inverse[j] as int]);
        } else if j == p {
            assert(post_inverse[j] == k as usize);
            assert(post_forward[k] == p);
        } else {
            assert(post_inverse[j] == pre_inverse[j - 1]);
            assert(pre_forward[pre_inverse[j - 1] as int] == j - 1);
            assert(post_forward[pre_inverse[j - 1] as int] == j);
        }
    }
    assert forall|i: int| 0 <= i < k + 1 implies (#[trigger] post_forward[i]) < k + 1 by {
        if i < k {
            assert(pre_forward[i] < k);
        }
    }
    assert forall|a: int, b: int| 0 <= a < b < k + 1 implies tags[post_inverse[a] as int] < tags[
        post_inverse[b] as int
    ] by {
        if b < p {
            assert(tags[pre_inverse[a] as int] < tags[pre_inverse[b] as int]);
        } else if b == p {
            assert(post_inverse[b] == k as usize);
            assert(tags[pre_inverse[a] as int] < tags[k]);
        } else {
            if a < p {
                assert(tags[pre_inverse[a] as int] < tags[pre_inverse[b - 1] as int] || tags[
                    pre_inverse[a] as int
                ] < tags[k]);
                if a < b - 1 {
                    assert(tags[pre_inverse[a] as int] < tags[pre_inverse[b - 1] as int]);
                } else {
                    assert(p <= b - 1 < k);
                    assert(tags[k] < tags[pre_inverse[b - 1] as int]);
                    assert(tags[pre_inverse[a] as int] < tags[k]);
                }
            } else if a == p {
                assert(post_inverse[a] == k as usize);
                assert(p <= b - 1 < k);
                assert(tags[k] < tags[pre_inverse[b - 1] as int]);
            } else {
                assert(tags[pre_inverse[a - 1] as int] < tags[pre_inverse[b - 1] as int]);
            }
        }
    }
}

/// Move each element of `values` to its place: the element at position
/// `positions[j]` of `values` arrives at position `j` of the result.
fn permute_by<T>(values: Vec<T>, positions: &Vec<usize>) -> (r: Vec<T>)
    requires
        positions@.len() == values@.len(),
        forall|j: int|
            0 <= j < positions@.len() ==> (#[trigger] positions@[j]) < positions@.len(),
        forall|a: int, b: int|
            0 <= a < b < positions@.len() ==> positions@[a] != positions@[b],
    ensures
        r@ == Seq::new(values@.len(), |j: int| values@[positions@[j] as int]),
{
    let ghost orig = values@;
    let n = positions.len();
    let mut rest = values;
    let mut opts: Vec<Option<T>> = Vec::new();
    while rest.len() > 0
        invariant
            orig.len() == n,
            opts@.len() + rest@.len() == n,
            forall|i: int| 0 <= i < opts@.len() ==> opts@[i] == Some(orig[i]),
            rest@ =~= orig.skip(opts@.len() as int),
        decreases rest@.len(),
    {
        let x = rest.remove(0);
        proof {
            assert(orig.skip(opts@.len() as int)[0] == orig[opts@.len() as int]);
            assert(orig.skip(opts@.len() as int).remove(0) =~= orig.skip(opts@.len() as int + 1));
        }
        opts.push(Some(x));
    }
    let mut out: Vec<T> = Vec::new();
    let mut j: usize = 0;
    while j < n
        invariant
            j <= n,
            n == positions@.len(),
            n == opts@.len(),
            n == orig.len(),
            forall|jj: int|
                0 <= jj < positions@.len() ==> (#[trigger] positions@[jj]) < positions@.len(),
            forall|a: int, b: int|
                0 <= a < b < positions@.len() ==> positions@[a] != positions@[b],
            out@.len() == j,
            forall|jj: int| 0 <= jj < j ==> out@[jj] == orig[positions@[jj] as int],
            forall|i: int|
                0 <= i < n ==> (#[trigger] opts@[i]) == (if exists|jj: int|
                    0 <= jj < j && (#[trigger] positions@[jj]) == i {
                    Option::<T>::None
                } else {
                    Some(orig[i])
                }),
        decreases n - j,
    {
        let idx = positions[j];
        proof {
            if exists|jj: int| 0 <= jj < j && (#[trigger] positions@[jj]) == idx as int {
                let jj = choose|jj: int| 0 <= jj < j && (#[trigger] positions@[jj]) == idx as int;
                assert(positions@[jj] == positions@[j as int]);
                assert(false);
            }
            assert(opts@[idx as int] == Some(orig[idx as int]));
        }
        let slot = &mut opts[idx];
        let taken = slot.take();
        match taken {
            Some(x) => {
                out.push(x);
            },
            None => {
                proof {
                    assert(false);
                }
            },
        }
        j += 1;
        proof {
            assert forall|i: int|
                0 <= i < n implies (#[trigger] opts@[i]) == (if exists|jj: int|
                0 <= jj < j && (#[trigger] positions@[jj]) == i {
                Option::<T>::None
            } else {
                Some(orig[i])
            }) by {
                if i == idx as int {
                    assert(positions@[j - 1] == i);
                } else {
                    if exists|jj: int| 0 <= jj < j && (#[trigger] positions@[jj]) == i {
                        let jj = choose|jj: int| 0 <= jj < j && (#[trigger] positions@[jj]) == i;
                        assert(jj < j - 1 || positions@[j - 1] == i);
                        assert(exists|jj2: int| 0 <= jj2 < j - 1 && (#[trigger] positions@[jj2]) == i);
                    }
                }
            }
        }
    }
    proof {
        assert(out@ =~= Seq::new(orig.len(), |jj: int| orig[positions@[jj] as int]));
    }
    out
}

} // verus!

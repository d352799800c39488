pub use crate::data_structure::segtree::monoids::Monoid;
use crate::data_structure::segtree::monoids::{
    fold, lemma_fold_append, lemma_fold_identities, lemma_fold_one, range_fold,
};
use crate::utils::versatility_functions::{lower_spec, unpack_range, upper_spec, Endpoint};
use vstd::prelude::*;

verus! {

/// A sequence of values of a monoid that answers what a range of them combines
/// to. The nodes of a complete binary tree lie in `data`: node 1 is the root,
/// node `k` has the children `2k` and `2k + 1`, and the `n` leaves follow the
/// inner nodes.
pub struct SegmentTree<T: Monoid> {
    n: usize,
    len: usize,
    data: Vec<T::S>,
}

/// `x` is a power of two.
pub open spec fn is_pow2(x: int) -> bool
    decreases x,
{
    x == 1 || (x > 1 && x % 2 == 0 && is_pow2(x / 2))
}

/// Every inner node holds what its two children combine to.
spec fn links<M: Monoid>(data: Seq<M::S>, n: int) -> bool {
    forall|k: int| 1 <= k < n ==> #[trigger] data[k] == M::op_spec(data[2 * k], data[2 * k + 1])
}

/// `k` lies on the way from the parent of `c` to the root.
spec fn is_ancestor(k: int, c: int) -> bool
    decreases c,
{
    c > 1 && (c / 2 == k || is_ancestor(k, c / 2))
}

/// What the positions `lo..hi` of `leaves` combine to; the identity for none.
spec fn clip_fold<M: Monoid>(leaves: Seq<M::S>, lo: int, hi: int) -> M::S {
    if lo < hi {
        fold::<M>(leaves.subrange(lo, hi))
    } else {
        M::id_spec()
    }
}

/// The larger of two integers.
spec fn max2(a: int, b: int) -> int {
    if a >= b {
        a
    } else {
        b
    }
}

/// The smaller of two integers.
spec fn min2(a: int, b: int) -> int {
    if a <= b {
        a
    } else {
        b
    }
}

/// The node `cur`, which stands above the `size` leaves from `lo` on, holds
/// what these leaves combine to.
proof fn lemma_node<M: Monoid>(data: Seq<M::S>, n: int, cur: int, lo: int, size: int)
    requires
        n >= 1,
        data.len() == 2 * n,
        links::<M>(data, n),
        is_pow2(size),
        0 <= lo,
        lo + size <= n,
        cur * size == n + lo,
        cur >= 1,
    ensures
        cur < 2 * n,
        size > 1 ==> cur < n,
        data[cur] == fold::<M>(data.subrange(n + lo, n + lo + size)),
    decreases size,
{
    if size == 1 {
        assert(cur * 1 == cur);
        lemma_fold_one::<M>(data.subrange(n + lo, n + lo + size));
    } else {
        let half = size / 2;
        assert(size == 2 * half && is_pow2(half));
        assert(cur < n && (2 * cur) * half == n + lo && (2 * cur + 1) * half == n + lo + half)
            by (nonlinear_arith)
            requires
                cur * size == n + lo,
                size == 2 * half,
                half >= 1,
                lo + size <= n,
                cur >= 1,
        ;
        lemma_node::<M>(data, n, 2 * cur, lo, half);
        lemma_node::<M>(data, n, 2 * cur + 1, lo + half, half);
        let a = data.subrange(n + lo, n + lo + half);
        let b = data.subrange(n + lo + half, n + lo + size);
        lemma_fold_append::<M>(a, b);
        assert(a + b =~= data.subrange(n + lo, n + lo + size));
    }
}

/// What a range combines to is what its part before `mid` and its part from
/// `mid` on combine to.
proof fn lemma_clip_split<M: Monoid>(leaves: Seq<M::S>, lo: int, mid: int, hi: int)
    requires
        0 <= lo,
        hi <= leaves.len(),
    ensures
        clip_fold::<M>(leaves, lo, hi) == M::op_spec(
            clip_fold::<M>(leaves, lo, min2(hi, mid)),
            clip_fold::<M>(leaves, max2(lo, mid), hi),
        ),
{
    if lo < hi {
        if mid <= lo {
            M::lemma_identity(clip_fold::<M>(leaves, lo, hi));
        } else if mid >= hi {
            M::lemma_identity(clip_fold::<M>(leaves, lo, hi));
        } else {
            let a = leaves.subrange(lo, mid);
            let b = leaves.subrange(mid, hi);
            lemma_fold_append::<M>(a, b);
            assert(a + b =~= leaves.subrange(lo, hi));
        }
    } else {
        M::lemma_identity(M::id_spec());
    }
}

impl<T: Monoid> View for SegmentTree<T> {
    type V = Seq<T::S>;

    /// The values, in order.
    closed spec fn view(&self) -> Seq<T::S> {
        self.data@.subrange(self.n as int, self.n + self.len)
    }
}

impl<T: Monoid> SegmentTree<T> {
    /// The representation invariant: the leaves behind the values hold the
    /// identity, and every inner node holds what its children combine to.
    pub closed spec fn wf(&self) -> bool {
        &&& self.n >= 1
        &&& is_pow2(self.n as int)
        &&& self.len <= self.n
        &&& (self.n == 1 || self.n < 2 * self.len)
        &&& self.data.len() == 2 * self.n
        &&& links::<T>(self.data@, self.n as int)
        &&& forall|i: int| self.n + self.len <= i < 2 * self.n ==> self.data@[i] == T::id_spec()
    }

    /// The number of leaves of the tree.
    pub closed spec fn leaves(&self) -> int {
        self.n as int
    }

    /// The number of values.
    pub fn len(&self) -> (r: usize)
        requires
            self.wf(),
        ensures
            r == self@.len(),
    {
        self.len
    }

    /// The number of leaves of the tree: the least power of two that is not
    /// below the number of values, and 1 where there is no value.
    pub fn capacity(&self) -> (r: usize)
        requires
            self.wf(),
        ensures
            r == self.leaves(),
            is_pow2(r as int),
            self@.len() <= r,
            r == 1 || r < 2 * self@.len(),
    {
        self.n
    }

    /// `len` times the identity.
    pub fn new(len: usize) -> (s: Self)
        requires
            len <= usize::MAX / 4,
        ensures
            s.wf(),
            s@ == Seq::new(len as nat, |i: int| T::id_spec()),
    {
        Self::with_len(len)
    }

    fn with_len(len: usize) -> (s: Self)
        requires
            len <= usize::MAX / 4,
        ensures
            s.wf(),
            s.len == len,
            s@ == Seq::new(len as nat, |i: int| T::id_spec()),
    {
        let mut n: usize = 1;
        while n < len
            invariant
                len <= usize::MAX / 4,
                1 <= n,
                n == 1 || n < 2 * len,
                is_pow2(n as int),
            decreases usize::MAX - n,
        {
            assert(is_pow2(2 * n as int)) by {
                assert((2 * n) / 2 == n);
            }
            n = n * 2;
        }
        let mut data: Vec<T::S> = Vec::new();
        let mut k: usize = 0;
        while k < 2 * n
            invariant
                2 * n <= usize::MAX,
                k <= 2 * n,
                data@.len() == k,
                forall|i: int| 0 <= i < k ==> data@[i] == T::id_spec(),
            decreases 2 * n - k,
        {
            data.push(T::id());
            k += 1;
        }
        let s = Self { n, len, data };
        proof {
            T::lemma_identity(T::id_spec());
            assert(s@ =~= Seq::new(len as nat, |i: int| T::id_spec()));
        }
        s
    }

    /// The values of `vec`.
    pub fn from_vec(vec: &Vec<T::S>) -> (s: Self)
        requires
            vec@.len() <= usize::MAX / 4,
        ensures
            s.wf(),
            s@ == vec@,
    {
        let len = vec.len();
        let mut seg = Self::with_len(len);
        let mut i: usize = 0;
        while i < len
            invariant
                i <= len,
                len == vec@.len(),
                seg.len == len,
                seg.n >= 1,
                seg.n == 1 || seg.n < 2 * len,
                len <= seg.n,
                is_pow2(seg.n as int),
                seg.data.len() == 2 * seg.n,
                forall|j: int| 0 <= j < i ==> seg.data@[seg.n + j] == vec@[j],
                forall|j: int| seg.n + len <= j < 2 * seg.n ==> seg.data@[j] == T::id_spec(),
            decreases len - i,
        {
            seg.data[seg.n + i] = vec[i];
            i += 1;
        }
        let mut i: usize = seg.n;
        while i > 1
            invariant
                1 <= i <= seg.n,
                len == vec@.len(),
                seg.len == len,
                seg.n == 1 || seg.n < 2 * len,
                len <= seg.n,
                is_pow2(seg.n as int),
                seg.data.len() == 2 * seg.n,
                forall|j: int| 0 <= j < len ==> seg.data@[seg.n + j] == vec@[j],
                forall|j: int| seg.n + len <= j < 2 * seg.n ==> seg.data@[j] == T::id_spec(),
                forall|k: int|
                    i <= k < seg.n ==> #[trigger] seg.data@[k] == T::op_spec(
                        seg.data@[2 * k],
                        seg.data@[2 * k + 1],
                    ),
            decreases i,
        {
            i -= 1;
            seg.data[i] = T::op(seg.data[2 * i], seg.data[2 * i + 1]);
        }
        proof {
            assert(seg@ =~= vec@);
        }
        seg
    }

    /// Puts `value` at position `index`.
    pub fn set(&mut self, index: usize, value: T::S)
        requires
            old(self).wf(),
            index < old(self)@.len(),
        ensures
            final(self).wf(),
            final(self)@ == old(self)@.update(index as int, value),
    {
        let mut cur = index + self.n;
        self.data[cur] = value;
        while cur > 1
            invariant
                1 <= cur < 2 * self.n,
                self.n == old(self).n,
                self.len == old(self).len,
                self.n >= 1,
                self.data.len() == 2 * self.n,
                old(self).data.len() == 2 * self.n,
                index < self.len <= self.n,
                forall|j: int|
                    self.n <= j < 2 * self.n ==> self.data@[j] == old(self).data@.update(
                        index + self.n,
                        value,
                    )[j],
                forall|k: int|
                    1 <= k < self.n && !is_ancestor(k, cur as int) ==> #[trigger] self.data@[k]
                        == T::op_spec(self.data@[2 * k], self.data@[2 * k + 1]),
            decreases cur,
        {
            let ghost prev = cur as int;
            let ghost before = self.data@;
            cur = cur / 2;
            self.data[cur] = T::op(self.data[2 * cur], self.data[2 * cur + 1]);
            proof {
                assert forall|k: int| 1 <= k < self.n && !is_ancestor(k, cur as int) implies #[trigger] self.data@[k]
                    == T::op_spec(self.data@[2 * k], self.data@[2 * k + 1]) by {
                    if k != cur {
                        assert(!is_ancestor(k, prev));
                        assert(before[k] == T::op_spec(before[2 * k], before[2 * k + 1]));
                        if 2 * k == cur || 2 * k + 1 == cur {
                            assert(is_ancestor(k, cur as int));
                        }
                    }
                }
            }
        }
        proof {
            assert(!is_ancestor(1, 1));
            assert forall|k: int| 1 <= k < self.n implies !is_ancestor(k, 1) by {}
            assert(final(self)@ =~= old(self)@.update(index as int, value));
        }
    }

    /// What the values at the positions of `range` combine to, as far as there
    /// are values; a range without a start begins at the first value, and one
    /// without an end stops behind the last.
    pub fn get(&self, range: (Endpoint<usize>, Endpoint<usize>)) -> (r: T::S)
        requires
            self.wf(),
            lower_spec(range.0, 0) <= usize::MAX,
            upper_spec(range.1, 0) <= usize::MAX,
        ensures
            r == range_fold::<T>(
                self@,
                lower_spec(range.0, 0),
                upper_spec(range.1, self@.len() as int),
            ),
    {
        let (l, r) = unpack_range(range, 0usize, self.len);
        let res = self.get_rec(1, 0, self.n, l, r);
        proof {
            let n = self.n as int;
            let len = self.len as int;
            let leaves = self.data@.subrange(n, 2 * n);
            let lo = max2(l as int, 0);
            let hi = min2(r as int, n);
            if lo < hi {
                if lo >= len {
                    lemma_fold_identities::<T>(leaves.subrange(lo, hi));
                } else if hi <= len {
                    assert(leaves.subrange(lo, hi) =~= self@.subrange(lo, hi));
                } else {
                    lemma_clip_split::<T>(leaves, lo, len, hi);
                    lemma_fold_identities::<T>(leaves.subrange(len, hi));
                    T::lemma_identity(fold::<T>(leaves.subrange(lo, len)));
                    assert(leaves.subrange(lo, len) =~= self@.subrange(lo, len));
                }
            }
        }
        res
    }

    /// What the leaves combine to that lie both below the node `cur`, which
    /// stands above the leaves `seg_l..seg_r`, and in `q_l..q_r`.
    fn get_rec(&self, cur: usize, seg_l: usize, seg_r: usize, q_l: usize, q_r: usize) -> (r: T::S)
        requires
            self.wf(),
            seg_l < seg_r <= self.n,
            is_pow2(seg_r - seg_l),
            cur * (seg_r - seg_l) == self.n + seg_l,
            cur >= 1,
        ensures
            r == clip_fold::<T>(
                self.data@.subrange(self.n as int, 2 * self.n),
                max2(q_l as int, seg_l as int),
                min2(q_r as int, seg_r as int),
            ),
        decreases seg_r - seg_l,
    {
        let ghost n = self.n as int;
        let ghost leaves = self.data@.subrange(n, 2 * n);
        if seg_r <= q_l || q_r <= seg_l {
            return T::id();
        }
        proof {
            lemma_node::<T>(self.data@, n, cur as int, seg_l as int, seg_r - seg_l);
        }
        if q_l <= seg_l && seg_r <= q_r {
            proof {
                assert(leaves.subrange(seg_l as int, seg_r as int) =~= self.data@.subrange(
                    n + seg_l,
                    n + seg_r,
                ));
            }
            return self.data[cur];
        }
        let mid = (seg_l + seg_r) / 2;
        proof {
            let size = seg_r - seg_l;
            let half = size / 2;
            assert((2 * cur) * half == n + seg_l && (2 * cur + 1) * half == n + seg_l + half)
                by (nonlinear_arith)
                requires
                    cur * size == n + seg_l,
                    size == 2 * half,
            ;
            lemma_clip_split::<T>(
                leaves,
                max2(q_l as int, seg_l as int),
                mid as int,
                min2(q_r as int, seg_r as int),
            );
        }
        let left = self.get_rec(2 * cur, seg_l, mid, q_l, q_r);
        let right = self.get_rec(2 * cur + 1, mid, seg_r, q_l, q_r);
        T::op(left, right)
    }
}

} // verus!

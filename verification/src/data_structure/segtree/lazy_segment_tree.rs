use crate::data_structure::segment_tree::is_pow2;
use crate::data_structure::segtree::monoids::{
    fold, lemma_fold_append, lemma_fold_one, range_fold, MapMonoid, Monoid,
};
use crate::utils::versatility_functions::{lower_spec, unpack_range, upper_spec, Endpoint};
use vstd::prelude::*;

verus! {

/// The value of the node `k` as the nodes above it see it: its own value with
/// the map that waits at it applied.
pub open spec fn eff<T: MapMonoid>(
    data: Seq<<T::M as Monoid>::S>,
    lazy: Seq<T::F>,
    k: int,
) -> <T::M as Monoid>::S {
    T::mapping_spec(lazy[k], data[k])
}

/// The values of the `size` leaves below the node `k`, each with all the maps
/// applied that wait at the nodes from it up to `k`.
pub open spec fn vals<T: MapMonoid>(
    data: Seq<<T::M as Monoid>::S>,
    lazy: Seq<T::F>,
    k: int,
    size: int,
) -> Seq<<T::M as Monoid>::S>
    decreases size,
{
    if size <= 1 {
        seq![eff::<T>(data, lazy, k)]
    } else {
        (vals::<T>(data, lazy, 2 * k + 1, size / 2) + vals::<T>(
            data,
            lazy,
            2 * k + 2,
            size / 2,
        )).map_values(|x: <T::M as Monoid>::S| T::mapping_spec(lazy[k], x))
    }
}

/// Every inner node below and at the node `k` holds what its two children
/// combine to, as it sees them.
pub open spec fn tree_ok<T: MapMonoid>(
    data: Seq<<T::M as Monoid>::S>,
    lazy: Seq<T::F>,
    k: int,
    size: int,
) -> bool
    decreases size,
{
    size <= 1 || (data[k] == <T::M as Monoid>::op_spec(
        eff::<T>(data, lazy, 2 * k + 1),
        eff::<T>(data, lazy, 2 * k + 2),
    ) && tree_ok::<T>(data, lazy, 2 * k + 1, size / 2) && tree_ok::<T>(
        data,
        lazy,
        2 * k + 2,
        size / 2,
    ))
}

/// The node `j` is the node `k`, above `size` leaves, or lies below it.
pub open spec fn in_sub(j: int, k: int, size: int) -> bool
    decreases size,
{
    j == k || (size >= 2 && (in_sub(j, 2 * k + 1, size / 2) || in_sub(j, 2 * k + 2, size / 2)))
}

/// The node `k` stands above the `size` leaves from `l` on, of `n` leaves.
pub open spec fn shaped(n: int, k: int, l: int, size: int) -> bool {
    &&& is_pow2(size)
    &&& 0 <= l
    &&& l + size <= n
    &&& 0 <= k
    &&& (k + 1) * size == n + l
}

/// The two children of a node stand above the two halves of its leaves.
pub proof fn lemma_shaped_children(n: int, k: int, l: int, size: int)
    requires
        shaped(n, k, l, size),
        size >= 2,
    ensures
        shaped(n, 2 * k + 1, l, size / 2),
        shaped(n, 2 * k + 2, l + size / 2, size / 2),
        size == 2 * (size / 2),
        k < n - 1,
        2 * k + 2 < 2 * n - 1,
{
    let h = size / 2;
    assert(size == 2 * h && is_pow2(h));
    assert((2 * k + 2) * h == n + l && (2 * k + 3) * h == n + l + h && k + 1 < n && 2 * k + 3 < 2
        * n) by (nonlinear_arith)
        requires
            (k + 1) * size == n + l,
            size == 2 * h,
            h >= 1,
            l + size <= n,
            0 <= l,
            k >= 0,
    ;
}

/// A node above leaves lies within the tree.
pub proof fn lemma_shaped_bound(n: int, k: int, l: int, size: int)
    requires
        shaped(n, k, l, size),
    ensures
        k < 2 * n - 1,
        size >= 1,
{
    assert(size >= 1);
    assert(k + 1 < 2 * n) by (nonlinear_arith)
        requires
            (k + 1) * size == n + l,
            size >= 1,
            l + size <= n,
            0 <= l,
            k >= 0,
    ;
}

/// Of two powers of two the greater is at least twice the smaller.
pub proof fn lemma_pow2_apart(a: int, b: int)
    requires
        is_pow2(a),
        is_pow2(b),
        a < b,
    ensures
        2 * a <= b,
    decreases b,
{
    if b > 1 {
        assert(b == 2 * (b / 2) && is_pow2(b / 2));
        if a < b / 2 {
            lemma_pow2_apart(a, b / 2);
        } else if b / 2 < a {
            lemma_pow2_apart(b / 2, a);
        }
    }
}

/// A node stands above one range of leaves only.
pub proof fn lemma_shape_unique(n: int, j: int, l1: int, s1: int, l2: int, s2: int)
    requires
        shaped(n, j, l1, s1),
        shaped(n, j, l2, s2),
    ensures
        s1 == s2,
        l1 == l2,
{
    if s1 < s2 {
        lemma_pow2_apart(s1, s2);
        assert(false) by (nonlinear_arith)
            requires
                (j + 1) * s1 == n + l1,
                (j + 1) * s2 == n + l2,
                2 * s1 <= s2,
                0 <= l1,
                l2 + s2 <= n,
                s2 >= 1,
                j >= 0,
        ;
    } else if s2 < s1 {
        lemma_pow2_apart(s2, s1);
        assert(false) by (nonlinear_arith)
            requires
                (j + 1) * s1 == n + l1,
                (j + 1) * s2 == n + l2,
                2 * s2 <= s1,
                0 <= l2,
                l1 + s1 <= n,
                s1 >= 1,
                j >= 0,
        ;
    }
}

/// A node below the node `k` stands above leaves among those of `k`.
pub proof fn lemma_sub_shape(n: int, j: int, k: int, l: int, size: int) -> (r: (int, int))
    requires
        shaped(n, k, l, size),
        in_sub(j, k, size),
    ensures
        shaped(n, j, r.0, r.1),
        l <= r.0,
        r.0 + r.1 <= l + size,
    decreases size,
{
    if j == k {
        (l, size)
    } else {
        lemma_shaped_children(n, k, l, size);
        if in_sub(j, 2 * k + 1, size / 2) {
            lemma_sub_shape(n, j, 2 * k + 1, l, size / 2)
        } else {
            lemma_sub_shape(n, j, 2 * k + 2, l + size / 2, size / 2)
        }
    }
}

/// A node below a node of the tree lies within the tree.
pub proof fn lemma_sub_bound(n: int, j: int, k: int, l: int, size: int)
    requires
        shaped(n, k, l, size),
        in_sub(j, k, size),
    ensures
        0 <= j < 2 * n - 1,
{
    let r = lemma_sub_shape(n, j, k, l, size);
    lemma_shaped_bound(n, j, r.0, r.1);
}

/// The nodes below the two children of a node are different nodes, and none
/// of them is the node itself.
pub proof fn lemma_disjoint(n: int, j: int, k: int, l: int, size: int)
    requires
        shaped(n, k, l, size),
        size >= 2,
    ensures
        in_sub(j, 2 * k + 1, size / 2) ==> j != k && !in_sub(j, 2 * k + 2, size / 2),
        in_sub(j, 2 * k + 2, size / 2) ==> j != k,
{
    lemma_shaped_children(n, k, l, size);
    let h = size / 2;
    if in_sub(j, 2 * k + 1, h) {
        let a = lemma_sub_shape(n, j, 2 * k + 1, l, h);
        if j == k {
            lemma_shape_unique(n, j, a.0, a.1, l, size);
        }
        if in_sub(j, 2 * k + 2, h) {
            let b = lemma_sub_shape(n, j, 2 * k + 2, l + h, h);
            lemma_shape_unique(n, j, a.0, a.1, b.0, b.1);
        }
    }
    if in_sub(j, 2 * k + 2, h) {
        let b = lemma_sub_shape(n, j, 2 * k + 2, l + h, h);
        if j == k {
            lemma_shape_unique(n, j, b.0, b.1, l, size);
        }
    }
}

/// The leaves below a node and the order below it depend on the nodes below
/// it and on the node itself only.
pub proof fn lemma_frame<T: MapMonoid>(
    data: Seq<<T::M as Monoid>::S>,
    lazy: Seq<T::F>,
    data2: Seq<<T::M as Monoid>::S>,
    lazy2: Seq<T::F>,
    k: int,
    size: int,
)
    requires
        forall|j: int| in_sub(j, k, size) ==> #[trigger] data2[j] == data[j],
        forall|j: int| in_sub(j, k, size) ==> #[trigger] lazy2[j] == lazy[j],
    ensures
        vals::<T>(data2, lazy2, k, size) == vals::<T>(data, lazy, k, size),
        tree_ok::<T>(data2, lazy2, k, size) == tree_ok::<T>(data, lazy, k, size),
        eff::<T>(data2, lazy2, k) == eff::<T>(data, lazy, k),
    decreases size,
{
    assert(in_sub(k, k, size));
    assert(data2[k] == data[k] && lazy2[k] == lazy[k]);
    if size >= 2 {
        assert(in_sub(2 * k + 1, 2 * k + 1, size / 2));
        assert(in_sub(2 * k + 2, 2 * k + 2, size / 2));
        assert forall|j: int| in_sub(j, 2 * k + 1, size / 2) implies in_sub(j, k, size) by {}
        assert forall|j: int| in_sub(j, 2 * k + 2, size / 2) implies in_sub(j, k, size) by {}
        lemma_frame::<T>(data, lazy, data2, lazy2, 2 * k + 1, size / 2);
        lemma_frame::<T>(data, lazy, data2, lazy2, 2 * k + 2, size / 2);
    }
}

/// A node has as many leaves below it as it stands above.
pub proof fn lemma_vals_len<T: MapMonoid>(
    data: Seq<<T::M as Monoid>::S>,
    lazy: Seq<T::F>,
    k: int,
    size: int,
)
    requires
        is_pow2(size),
    ensures
        vals::<T>(data, lazy, k, size).len() == size,
    decreases size,
{
    if size >= 2 {
        lemma_vals_len::<T>(data, lazy, 2 * k + 1, size / 2);
        lemma_vals_len::<T>(data, lazy, 2 * k + 2, size / 2);
    }
}

/// Mapping values and combining them gives what mapping what they combine to
/// gives, for at least one value.
pub proof fn lemma_fold_map<T: MapMonoid>(f: T::F, s: Seq<<T::M as Monoid>::S>)
    requires
        s.len() >= 1,
    ensures
        fold::<T::M>(s.map_values(|x: <T::M as Monoid>::S| T::mapping_spec(f, x))) == T::mapping_spec(
            f,
            fold::<T::M>(s),
        ),
    decreases s.len(),
{
    let m = s.map_values(|x: <T::M as Monoid>::S| T::mapping_spec(f, x));
    if s.len() == 1 {
        lemma_fold_one::<T::M>(s);
        lemma_fold_one::<T::M>(m);
    } else {
        lemma_fold_map::<T>(f, s.drop_last());
        assert(m.drop_last() =~= s.drop_last().map_values(
            |x: <T::M as Monoid>::S| T::mapping_spec(f, x),
        ));
        T::lemma_distributes(f, fold::<T::M>(s.drop_last()), s.last());
    }
}

/// What the leaves below a node combine to is the value of the node as the
/// nodes above it see it.
pub proof fn lemma_node_value<T: MapMonoid>(
    data: Seq<<T::M as Monoid>::S>,
    lazy: Seq<T::F>,
    k: int,
    size: int,
)
    requires
        is_pow2(size),
        tree_ok::<T>(data, lazy, k, size),
    ensures
        fold::<T::M>(vals::<T>(data, lazy, k, size)) == eff::<T>(data, lazy, k),
    decreases size,
{
    if size <= 1 {
        lemma_fold_one::<T::M>(vals::<T>(data, lazy, k, size));
    } else {
        let h = size / 2;
        let a = vals::<T>(data, lazy, 2 * k + 1, h);
        let b = vals::<T>(data, lazy, 2 * k + 2, h);
        lemma_node_value::<T>(data, lazy, 2 * k + 1, h);
        lemma_node_value::<T>(data, lazy, 2 * k + 2, h);
        lemma_vals_len::<T>(data, lazy, 2 * k + 1, h);
        lemma_fold_append::<T::M>(a, b);
        lemma_fold_map::<T>(lazy[k], a + b);
    }
}

/// The order below a node does not depend on the map that waits at the node.
pub proof fn lemma_tree_ok_root<T: MapMonoid>(
    data: Seq<<T::M as Monoid>::S>,
    lazy: Seq<T::F>,
    n: int,
    k: int,
    l: int,
    size: int,
    f: T::F,
)
    requires
        shaped(n, k, l, size),
        lazy.len() == 2 * n,
    ensures
        tree_ok::<T>(data, lazy.update(k, f), k, size) == tree_ok::<T>(data, lazy, k, size),
{
    if size >= 2 {
        lemma_shaped_children(n, k, l, size);
        let lazy2 = lazy.update(k, f);
        assert forall|j: int| in_sub(j, 2 * k + 1, size / 2) implies #[trigger] lazy2[j]
            == lazy[j] by {
            lemma_disjoint(n, j, k, l, size);
            lemma_sub_bound(n, j, 2 * k + 1, l, size / 2);
        }
        assert forall|j: int| in_sub(j, 2 * k + 2, size / 2) implies #[trigger] lazy2[j]
            == lazy[j] by {
            lemma_disjoint(n, j, k, l, size);
            lemma_sub_bound(n, j, 2 * k + 2, l + size / 2, size / 2);
        }
        lemma_frame::<T>(data, lazy, data, lazy2, 2 * k + 1, size / 2);
        lemma_frame::<T>(data, lazy, data, lazy2, 2 * k + 2, size / 2);
    }
}

/// A map that comes to wait at a node before the map that waits there maps
/// the values of all leaves below the node.
pub proof fn lemma_push<T: MapMonoid>(
    data: Seq<<T::M as Monoid>::S>,
    lazy: Seq<T::F>,
    n: int,
    k: int,
    l: int,
    size: int,
    f: T::F,
)
    requires
        shaped(n, k, l, size),
        lazy.len() == 2 * n,
    ensures
        vals::<T>(data, lazy.update(k, T::composition_spec(f, lazy[k])), k, size) == vals::<T>(
            data,
            lazy,
            k,
            size,
        ).map_values(|x: <T::M as Monoid>::S| T::mapping_spec(f, x)),
        tree_ok::<T>(data, lazy.update(k, T::composition_spec(f, lazy[k])), k, size) == tree_ok::<T>(
            data,
            lazy,
            k,
            size,
        ),
        eff::<T>(data, lazy.update(k, T::composition_spec(f, lazy[k])), k) == T::mapping_spec(
            f,
            eff::<T>(data, lazy, k),
        ),
{
    let g = lazy[k];
    let lazy2 = lazy.update(k, T::composition_spec(f, g));
    lemma_shaped_bound(n, k, l, size);
    T::lemma_composition(f, g, data[k]);
    lemma_tree_ok_root::<T>(data, lazy, n, k, l, size, T::composition_spec(f, g));
    let want = vals::<T>(data, lazy, k, size).map_values(
        |x: <T::M as Monoid>::S| T::mapping_spec(f, x),
    );
    let got = vals::<T>(data, lazy2, k, size);
    if size <= 1 {
        assert(got =~= want);
    } else {
        lemma_shaped_children(n, k, l, size);
        assert forall|j: int| in_sub(j, 2 * k + 1, size / 2) implies #[trigger] lazy2[j]
            == lazy[j] by {
            lemma_disjoint(n, j, k, l, size);
            lemma_sub_bound(n, j, 2 * k + 1, l, size / 2);
        }
        assert forall|j: int| in_sub(j, 2 * k + 2, size / 2) implies #[trigger] lazy2[j]
            == lazy[j] by {
            lemma_disjoint(n, j, k, l, size);
            lemma_sub_bound(n, j, 2 * k + 2, l + size / 2, size / 2);
        }
        lemma_frame::<T>(data, lazy, data, lazy2, 2 * k + 1, size / 2);
        lemma_frame::<T>(data, lazy, data, lazy2, 2 * k + 2, size / 2);
        let inner = vals::<T>(data, lazy, 2 * k + 1, size / 2) + vals::<T>(
            data,
            lazy,
            2 * k + 2,
            size / 2,
        );
        assert(got.len() == want.len());
        assert forall|i: int| 0 <= i < got.len() implies got[i] == want[i] by {
            T::lemma_composition(f, g, inner[i]);
        }
        assert(got =~= want);
    }
}

/// The arrays after the map that waits at the node `k` has been applied to its
/// value and has come to wait at its two children.
pub open spec fn evaluated<T: MapMonoid>(
    data: Seq<<T::M as Monoid>::S>,
    lazy: Seq<T::F>,
    k: int,
    size: int,
) -> (Seq<<T::M as Monoid>::S>, Seq<T::F>) {
    let below = if size >= 2 {
        lazy.update(2 * k + 1, T::composition_spec(lazy[k], lazy[2 * k + 1])).update(
            2 * k + 2,
            T::composition_spec(lazy[k], lazy[2 * k + 2]),
        )
    } else {
        lazy
    };
    (data.update(k, eff::<T>(data, lazy, k)), below.update(k, T::identity_map_spec()))
}

/// Applying the map that waits at a node and handing it down to its children
/// changes no value of a leaf, and keeps the order.
pub proof fn lemma_evaluated<T: MapMonoid>(
    data: Seq<<T::M as Monoid>::S>,
    lazy: Seq<T::F>,
    n: int,
    k: int,
    l: int,
    size: int,
)
    requires
        shaped(n, k, l, size),
        data.len() == 2 * n,
        lazy.len() == 2 * n,
        tree_ok::<T>(data, lazy, k, size),
    ensures
        vals::<T>(
            evaluated::<T>(data, lazy, k, size).0,
            evaluated::<T>(data, lazy, k, size).1,
            k,
            size,
        ) == vals::<T>(data, lazy, k, size),
        tree_ok::<T>(
            evaluated::<T>(data, lazy, k, size).0,
            evaluated::<T>(data, lazy, k, size).1,
            k,
            size,
        ),
        evaluated::<T>(data, lazy, k, size).0[k] == eff::<T>(data, lazy, k),
        evaluated::<T>(data, lazy, k, size).1[k] == T::identity_map_spec(),
        forall|j: int|
            0 <= j < 2 * n && !in_sub(j, k, size) ==> evaluated::<T>(data, lazy, k, size).0[j]
                == data[j] && evaluated::<T>(data, lazy, k, size).1[j] == lazy[j],
{
    let f = lazy[k];
    let d2 = evaluated::<T>(data, lazy, k, size).0;
    let z2 = evaluated::<T>(data, lazy, k, size).1;
    lemma_shaped_bound(n, k, l, size);
    T::lemma_identity_map(eff::<T>(data, lazy, k));
    assert(in_sub(k, k, size));
    if size <= 1 {
        assert(vals::<T>(d2, z2, k, size) =~= vals::<T>(data, lazy, k, size));
    } else {
        let h = size / 2;
        let c1 = 2 * k + 1;
        let c2 = 2 * k + 2;
        lemma_shaped_children(n, k, l, size);
        assert(in_sub(c1, c1, h) && in_sub(c2, c2, h));
        lemma_disjoint(n, c1, k, l, size);
        lemma_disjoint(n, c2, k, l, size);
        assert(in_sub(c1, k, size) && in_sub(c2, k, size));
        // the left child
        let z_left = lazy.update(c1, T::composition_spec(f, lazy[c1]));
        lemma_push::<T>(data, lazy, n, c1, l, h, f);
        assert forall|j: int| in_sub(j, c1, h) implies #[trigger] d2[j] == data[j] by {
            lemma_disjoint(n, j, k, l, size);
            lemma_sub_bound(n, j, c1, l, h);
        }
        assert forall|j: int| in_sub(j, c1, h) implies #[trigger] z2[j] == z_left[j] by {
            lemma_disjoint(n, j, k, l, size);
            lemma_sub_bound(n, j, c1, l, h);
        }
        lemma_frame::<T>(data, z_left, d2, z2, c1, h);
        // the right child
        let z_right = lazy.update(c2, T::composition_spec(f, lazy[c2]));
        lemma_push::<T>(data, lazy, n, c2, l + h, h, f);
        assert forall|j: int| in_sub(j, c2, h) implies #[trigger] d2[j] == data[j] by {
            lemma_disjoint(n, j, k, l, size);
            lemma_sub_bound(n, j, c2, l + h, h);
        }
        assert forall|j: int| in_sub(j, c2, h) implies #[trigger] z2[j] == z_right[j] by {
            lemma_disjoint(n, j, k, l, size);
            lemma_sub_bound(n, j, c2, l + h, h);
        }
        lemma_frame::<T>(data, z_right, d2, z2, c2, h);
        // the node itself
        let v1 = vals::<T>(data, lazy, c1, h);
        let v2 = vals::<T>(data, lazy, c2, h);
        let got = vals::<T>(d2, z2, k, size);
        let want = vals::<T>(data, lazy, k, size);
        lemma_vals_len::<T>(data, lazy, c1, h);
        lemma_vals_len::<T>(data, lazy, c2, h);
        assert(got.len() == want.len());
        assert forall|i: int| 0 <= i < got.len() implies got[i] == want[i] by {
            T::lemma_identity_map(T::mapping_spec(f, (v1 + v2)[i]));
        }
        assert(got =~= want);
        T::lemma_distributes(f, eff::<T>(data, lazy, c1), eff::<T>(data, lazy, c2));
    }
    assert forall|j: int| 0 <= j < 2 * n && !in_sub(j, k, size) implies d2[j] == data[j] && z2[j]
        == lazy[j] by {
        if size >= 2 {
            assert(in_sub(2 * k + 1, 2 * k + 1, size / 2));
            assert(in_sub(2 * k + 2, 2 * k + 2, size / 2));
        }
    }
}

/// The arrays `d2`, `z2` are the arrays `d1`, `z1` but for the nodes below and
/// at the node `c`.
pub open spec fn same_outside<T: MapMonoid>(
    n: int,
    d1: Seq<<T::M as Monoid>::S>,
    z1: Seq<T::F>,
    d2: Seq<<T::M as Monoid>::S>,
    z2: Seq<T::F>,
    c: int,
    size: int,
) -> bool {
    &&& d1.len() == 2 * n
    &&& z1.len() == 2 * n
    &&& d2.len() == 2 * n
    &&& z2.len() == 2 * n
    &&& forall|j: int| 0 <= j < 2 * n && !in_sub(j, c, size) ==> #[trigger] d2[j] == d1[j]
    &&& forall|j: int| 0 <= j < 2 * n && !in_sub(j, c, size) ==> #[trigger] z2[j] == z1[j]
}

/// What has changed below one child of a node has left the node and the other
/// child as they were; `other` is the child that has not changed.
pub proof fn lemma_one_child<T: MapMonoid>(
    n: int,
    k: int,
    l: int,
    size: int,
    d1: Seq<<T::M as Monoid>::S>,
    z1: Seq<T::F>,
    d2: Seq<<T::M as Monoid>::S>,
    z2: Seq<T::F>,
    left_changed: bool,
)
    requires
        shaped(n, k, l, size),
        size >= 2,
        same_outside::<T>(
            n,
            d1,
            z1,
            d2,
            z2,
            if left_changed {
                2 * k + 1
            } else {
                2 * k + 2
            },
            size / 2,
        ),
    ensures
        d2[k] == d1[k],
        z2[k] == z1[k],
        same_outside::<T>(n, d1, z1, d2, z2, k, size),
        ({
            let other = if left_changed {
                2 * k + 2
            } else {
                2 * k + 1
            };
            &&& vals::<T>(d2, z2, other, size / 2) == vals::<T>(d1, z1, other, size / 2)
            &&& tree_ok::<T>(d2, z2, other, size / 2) == tree_ok::<T>(d1, z1, other, size / 2)
            &&& eff::<T>(d2, z2, other) == eff::<T>(d1, z1, other)
        }),
{
    let h = size / 2;
    let changed = if left_changed { 2 * k + 1 } else { 2 * k + 2 };
    let other = if left_changed { 2 * k + 2 } else { 2 * k + 1 };
    let lo = if left_changed { l + h } else { l };
    lemma_shaped_children(n, k, l, size);
    lemma_shaped_bound(n, k, l, size);
    lemma_disjoint(n, k, k, l, size);
    assert(!in_sub(k, changed, h));
    assert forall|j: int| in_sub(j, other, h) implies #[trigger] d2[j] == d1[j] by {
        lemma_disjoint(n, j, k, l, size);
        lemma_sub_bound(n, j, other, lo, h);
    }
    assert forall|j: int| in_sub(j, other, h) implies #[trigger] z2[j] == z1[j] by {
        lemma_disjoint(n, j, k, l, size);
        lemma_sub_bound(n, j, other, lo, h);
    }
    lemma_frame::<T>(d1, z1, d2, z2, other, h);
}

/// What has changed below a node and then below it again has changed below it.
pub proof fn lemma_outside_twice<T: MapMonoid>(
    n: int,
    d1: Seq<<T::M as Monoid>::S>,
    z1: Seq<T::F>,
    d2: Seq<<T::M as Monoid>::S>,
    z2: Seq<T::F>,
    d3: Seq<<T::M as Monoid>::S>,
    z3: Seq<T::F>,
    k: int,
    size: int,
)
    requires
        same_outside::<T>(n, d1, z1, d2, z2, k, size),
        same_outside::<T>(n, d2, z2, d3, z3, k, size),
    ensures
        same_outside::<T>(n, d1, z1, d3, z3, k, size),
{
    assert forall|j: int| 0 <= j < 2 * n && !in_sub(j, k, size) implies #[trigger] d3[j]
        == d1[j] by {
        assert(d2[j] == d1[j]);
    }
    assert forall|j: int| 0 <= j < 2 * n && !in_sub(j, k, size) implies #[trigger] z3[j]
        == z1[j] by {
        assert(z2[j] == z1[j]);
    }
}

/// What the positions `a..b` of `v` combine to; the identity for none.
pub open spec fn clip_fold<M: Monoid>(v: Seq<M::S>, a: int, b: int) -> M::S {
    let lo = if a < 0 {
        0
    } else {
        a
    };
    let hi = if b > v.len() {
        v.len() as int
    } else {
        b
    };
    if lo < hi {
        fold::<M>(v.subrange(lo, hi))
    } else {
        M::id_spec()
    }
}

/// What a range of two sequences in a row combines to is what its part in the
/// first and its part in the second combine to.
pub proof fn lemma_clip_concat<M: Monoid>(v1: Seq<M::S>, v2: Seq<M::S>, a: int, b: int)
    ensures
        clip_fold::<M>(v1 + v2, a, b) == M::op_spec(
            clip_fold::<M>(v1, a, b),
            clip_fold::<M>(v2, a - v1.len(), b - v1.len()),
        ),
{
    let v = v1 + v2;
    let n1 = v1.len() as int;
    let lo = if a < 0 { 0 } else { a };
    let hi = if b > v.len() { v.len() as int } else { b };
    if lo < hi {
        if hi <= n1 {
            assert(v.subrange(lo, hi) =~= v1.subrange(lo, hi));
            M::lemma_identity(clip_fold::<M>(v1, a, b));
        } else if lo >= n1 {
            assert(v.subrange(lo, hi) =~= v2.subrange(lo - n1, hi - n1));
            M::lemma_identity(clip_fold::<M>(v2, a - n1, b - n1));
        } else {
            let x = v1.subrange(lo, n1);
            let y = v2.subrange(0, hi - n1);
            assert(v.subrange(lo, hi) =~= x + y);
            lemma_fold_append::<M>(x, y);
        }
    } else {
        M::lemma_identity(M::id_spec());
    }
}

/// The values `v` with the map `f` applied at the positions `a..b`.
pub open spec fn apply_range<T: MapMonoid>(
    v: Seq<<T::M as Monoid>::S>,
    f: T::F,
    a: int,
    b: int,
) -> Seq<<T::M as Monoid>::S> {
    Seq::new(
        v.len(),
        |i: int|
            if a <= i < b {
                T::mapping_spec(f, v[i])
            } else {
                v[i]
            },
    )
}

/// The values of the leaves below a node at which the identity map waits are
/// those below its two children, in a row.
pub proof fn lemma_vals_split<T: MapMonoid>(
    data: Seq<<T::M as Monoid>::S>,
    lazy: Seq<T::F>,
    k: int,
    size: int,
)
    requires
        is_pow2(size),
        size >= 2,
        lazy[k] == T::identity_map_spec(),
    ensures
        vals::<T>(data, lazy, k, size) == vals::<T>(data, lazy, 2 * k + 1, size / 2) + vals::<T>(
            data,
            lazy,
            2 * k + 2,
            size / 2,
        ),
        vals::<T>(data, lazy, 2 * k + 1, size / 2).len() == size / 2,
        vals::<T>(data, lazy, 2 * k + 2, size / 2).len() == size / 2,
{
    let inner = vals::<T>(data, lazy, 2 * k + 1, size / 2) + vals::<T>(
        data,
        lazy,
        2 * k + 2,
        size / 2,
    );
    let got = vals::<T>(data, lazy, k, size);
    assert(is_pow2(size / 2));
    lemma_vals_len::<T>(data, lazy, 2 * k + 1, size / 2);
    lemma_vals_len::<T>(data, lazy, 2 * k + 2, size / 2);
    assert(got.len() == inner.len());
    assert forall|i: int| 0 <= i < got.len() implies got[i] == inner[i] by {
        T::lemma_identity_map(inner[i]);
    }
    assert(got =~= inner);
}

/// Applying the map that waits at a node and handing it down changes nothing
/// outside the node and the nodes below it.
pub proof fn lemma_evaluated_outside<T: MapMonoid>(
    data: Seq<<T::M as Monoid>::S>,
    lazy: Seq<T::F>,
    n: int,
    k: int,
    l: int,
    size: int,
)
    requires
        shaped(n, k, l, size),
        data.len() == 2 * n,
        lazy.len() == 2 * n,
        tree_ok::<T>(data, lazy, k, size),
    ensures
        same_outside::<T>(
            n,
            data,
            lazy,
            evaluated::<T>(data, lazy, k, size).0,
            evaluated::<T>(data, lazy, k, size).1,
            k,
            size,
        ),
        vals::<T>(
            evaluated::<T>(data, lazy, k, size).0,
            evaluated::<T>(data, lazy, k, size).1,
            k,
            size,
        ) == vals::<T>(data, lazy, k, size),
        tree_ok::<T>(
            evaluated::<T>(data, lazy, k, size).0,
            evaluated::<T>(data, lazy, k, size).1,
            k,
            size,
        ),
        evaluated::<T>(data, lazy, k, size).1[k] == T::identity_map_spec(),
{
    lemma_evaluated::<T>(data, lazy, n, k, l, size);
    lemma_shaped_bound(n, k, l, size);
    if size >= 2 {
        lemma_shaped_children(n, k, l, size);
    }
}

/// A tree that holds the identity at every node, and at which the identity
/// map waits everywhere, is in order, and all its leaves hold the identity.
pub proof fn lemma_uniform<T: MapMonoid>(
    data: Seq<<T::M as Monoid>::S>,
    lazy: Seq<T::F>,
    n: int,
    k: int,
    l: int,
    size: int,
)
    requires
        shaped(n, k, l, size),
        data.len() == 2 * n,
        lazy.len() == 2 * n,
        forall|j: int| 0 <= j < 2 * n ==> #[trigger] data[j] == <T::M as Monoid>::id_spec(),
        forall|j: int| 0 <= j < 2 * n ==> #[trigger] lazy[j] == T::identity_map_spec(),
    ensures
        tree_ok::<T>(data, lazy, k, size),
        vals::<T>(data, lazy, k, size) == Seq::new(
            size as nat,
            |i: int| <T::M as Monoid>::id_spec(),
        ),
        eff::<T>(data, lazy, k) == <T::M as Monoid>::id_spec(),
    decreases size,
{
    let id = <T::M as Monoid>::id_spec();
    lemma_shaped_bound(n, k, l, size);
    T::lemma_identity_map(id);
    let want = Seq::new(size as nat, |i: int| <T::M as Monoid>::id_spec());
    if size <= 1 {
        assert(vals::<T>(data, lazy, k, size) =~= want);
    } else {
        lemma_shaped_children(n, k, l, size);
        lemma_uniform::<T>(data, lazy, n, 2 * k + 1, l, size / 2);
        lemma_uniform::<T>(data, lazy, n, 2 * k + 2, l + size / 2, size / 2);
        <T::M as Monoid>::lemma_identity(id);
        assert(vals::<T>(data, lazy, k, size) =~= want);
    }
}

/// A sequence with lazy propagation: a map can be applied to the values of a
/// range at once, and what the values of a range combine to can be asked for.
/// The nodes of a complete binary tree lie in `data`: node 0 is the root, node
/// `k` has the children `2k + 1` and `2k + 2`, and the `n` leaves follow the
/// inner nodes. The map that waits at a node still has to be applied to the
/// value of the node and of every node below it.
pub struct LazySegmentTree<T: MapMonoid> {
    n: usize,
    len: usize,
    data: Vec<<T::M as Monoid>::S>,
    lazy: Vec<T::F>,
}

impl<T: MapMonoid> View for LazySegmentTree<T> {
    type V = Seq<<T::M as Monoid>::S>;

    /// The values of all leaves, of which the first `len` are in use.
    closed spec fn view(&self) -> Seq<<T::M as Monoid>::S> {
        vals::<T>(self.data@, self.lazy@, 0, self.n as int)
    }
}

impl<T: MapMonoid> LazySegmentTree<T> {
    /// The number of values that are in use, which is the end of a range
    /// without one.
    pub closed spec fn size(&self) -> nat {
        self.len as nat
    }

    /// The arrays have the size of the tree.
    spec fn sized(&self) -> bool {
        &&& self.n >= 1
        &&& is_pow2(self.n as int)
        &&& self.len < self.n
        &&& self.data.len() == 2 * self.n
        &&& self.lazy.len() == 2 * self.n
    }

    /// The representation invariant: every inner node holds what its children
    /// combine to.
    pub closed spec fn wf(&self) -> bool {
        &&& self.sized()
        &&& tree_ok::<T>(self.data@, self.lazy@, 0, self.n as int)
    }

    /// The number of leaves: the least power of two above the number of
    /// values that are in use.
    pub closed spec fn capacity(&self) -> nat {
        self.n as nat
    }

    /// The tree has a value for every leaf, more leaves than values in use,
    /// and a power of two of them.
    pub proof fn lemma_shape(&self)
        requires
            self.wf(),
        ensures
            self@.len() == self.capacity(),
            self.size() < self.capacity(),
            is_pow2(self.capacity() as int),
    {
        assert((0 + 1) * (self.n as int) == self.n + 0) by (nonlinear_arith);
        lemma_vals_len::<T>(self.data@, self.lazy@, 0, self.n as int);
    }

    /// A sequence of `len` values in use, all of them the identity.
    pub fn new(len: usize) -> (s: Self)
        requires
            len <= usize::MAX / 4,
        ensures
            s.wf(),
            s.size() == len,
            s.capacity() > len,
            is_pow2(s.capacity() as int),
            s.capacity() <= 2 * len || s.capacity() == 1,
            s@ == Seq::new(s.capacity(), |i: int| <T::M as Monoid>::id_spec()),
    {
        let mut n: usize = 1;
        while n <= len
            invariant
                len <= usize::MAX / 4,
                1 <= n,
                n <= 2 * len || n == 1,
                is_pow2(n as int),
            decreases usize::MAX - n,
        {
            assert(is_pow2(2 * n as int)) by {
                assert((2 * n) / 2 == n);
            }
            n = n * 2;
        }
        let mut data: Vec<<T::M as Monoid>::S> = Vec::new();
        let mut lazy: Vec<T::F> = Vec::new();
        let mut k: usize = 0;
        while k < 2 * n
            invariant
                2 * n <= usize::MAX,
                k <= 2 * n,
                data@.len() == k,
                lazy@.len() == k,
                forall|i: int| 0 <= i < k ==> #[trigger] data@[i] == <T::M as Monoid>::id_spec(),
                forall|i: int| 0 <= i < k ==> #[trigger] lazy@[i] == T::identity_map_spec(),
            decreases 2 * n - k,
        {
            data.push(T::id());
            lazy.push(T::identity_map());
            k += 1;
        }
        let s = Self { n, len, data, lazy };
        proof {
            assert((0 + 1) * (n as int) == n + 0) by (nonlinear_arith);
            lemma_uniform::<T>(s.data@, s.lazy@, n as int, 0, 0, n as int);
        }
        s
    }

    /// Puts `value` at the position `index`.
    pub fn set(&mut self, index: usize, value: <T::M as Monoid>::S)
        requires
            old(self).wf(),
            index < old(self).capacity(),
        ensures
            final(self).wf(),
            final(self).size() == old(self).size(),
            final(self).capacity() == old(self).capacity(),
            final(self)@ == old(self)@.update(index as int, value),
    {
        proof {
            assert((0 + 1) * (self.n as int) == self.n + 0) by (nonlinear_arith);
        }
        let n = self.n;
        self.set_rec(index, value, 0, 0, n);
    }

    /// Puts `value` in the place of the value of the leaf `index`, which lies
    /// below the node `k`, above the leaves `seg_l..seg_r`.
    fn set_rec(&mut self, index: usize, value: <T::M as Monoid>::S, k: usize, seg_l: usize, seg_r: usize)
        requires
            old(self).sized(),
            seg_l <= index < seg_r,
            shaped(old(self).n as int, k as int, seg_l as int, seg_r - seg_l),
            tree_ok::<T>(old(self).data@, old(self).lazy@, k as int, seg_r - seg_l),
        ensures
            final(self).sized(),
            final(self).n == old(self).n,
            final(self).len == old(self).len,
            vals::<T>(final(self).data@, final(self).lazy@, k as int, seg_r - seg_l) == vals::<T>(
                old(self).data@,
                old(self).lazy@,
                k as int,
                seg_r - seg_l,
            ).update(index - seg_l, value),
            tree_ok::<T>(final(self).data@, final(self).lazy@, k as int, seg_r - seg_l),
            final(self).lazy@[k as int] == T::identity_map_spec(),
            same_outside::<T>(
                old(self).n as int,
                old(self).data@,
                old(self).lazy@,
                final(self).data@,
                final(self).lazy@,
                k as int,
                seg_r - seg_l,
            ),
        decreases seg_r - seg_l,
    {
        let ghost n = self.n as int;
        let ghost size = seg_r - seg_l;
        let ghost d0 = self.data@;
        let ghost z0 = self.lazy@;
        let ghost v0 = vals::<T>(d0, z0, k as int, size);
        proof {
            lemma_evaluated::<T>(d0, z0, n, k as int, seg_l as int, size);
            lemma_vals_len::<T>(d0, z0, k as int, size);
            lemma_shaped_bound(n, k as int, seg_l as int, size);
        }
        self.eval(k, Ghost(seg_l as int), Ghost(size));
        let ghost d1 = self.data@;
        let ghost z1 = self.lazy@;
        if seg_r - seg_l == 1 {
            self.data[k] = value;
            proof {
                let d2 = self.data@;
                T::lemma_identity_map(value);
                assert(vals::<T>(d2, z1, k as int, size) =~= v0.update(index - seg_l, value));
                assert(in_sub(k as int, k as int, size));
                assert forall|j: int| 0 <= j < 2 * n && !in_sub(j, k as int, size) implies #[trigger] d2[j]
                    == d0[j] by {
                    assert(d1[j] == d0[j]);
                }
            }
            return ;
        }
        proof {
            lemma_shaped_children(n, k as int, seg_l as int, size);
            lemma_vals_split::<T>(d1, z1, k as int, size);
        }
        let mid = (seg_l + seg_r) / 2;
        let ghost h = size / 2;
        let ghost w1 = vals::<T>(d1, z1, 2 * k + 1, h);
        let ghost w2 = vals::<T>(d1, z1, 2 * k + 2, h);
        if index < mid {
            self.set_rec(index, value, k * 2 + 1, seg_l, mid);
            let ghost d2 = self.data@;
            let ghost z2 = self.lazy@;
            proof {
                lemma_one_child::<T>(n, k as int, seg_l as int, size, d1, z1, d2, z2, true);
                lemma_evaluated_outside::<T>(d2, z2, n, 2 * k + 2, seg_l + h, h);
            }
            self.eval(k * 2 + 2, Ghost(seg_l + h), Ghost(h));
            proof {
                let d3 = self.data@;
                let z3 = self.lazy@;
                lemma_one_child::<T>(n, k as int, seg_l as int, size, d2, z2, d3, z3, false);
                lemma_outside_twice::<T>(n, d1, z1, d2, z2, d3, z3, k as int, size);
                assert(in_sub(2 * k + 1, 2 * k + 1, h));
                lemma_disjoint(n, 2 * k + 1, k as int, seg_l as int, size);
                assert(z3[2 * k + 1] == z2[2 * k + 1]);
            }
        } else {
            proof {
                lemma_evaluated_outside::<T>(d1, z1, n, 2 * k + 1, seg_l as int, h);
            }
            self.eval(k * 2 + 1, Ghost(seg_l as int), Ghost(h));
            let ghost d2 = self.data@;
            let ghost z2 = self.lazy@;
            proof {
                lemma_one_child::<T>(n, k as int, seg_l as int, size, d1, z1, d2, z2, true);
            }
            self.set_rec(index, value, k * 2 + 2, mid, seg_r);
            proof {
                let d3 = self.data@;
                let z3 = self.lazy@;
                lemma_one_child::<T>(n, k as int, seg_l as int, size, d2, z2, d3, z3, false);
                lemma_outside_twice::<T>(n, d1, z1, d2, z2, d3, z3, k as int, size);
                assert(in_sub(2 * k + 1, 2 * k + 1, h));
                lemma_disjoint(n, 2 * k + 1, k as int, seg_l as int, size);
                assert(z3[2 * k + 1] == z2[2 * k + 1]);
            }
        }
        let ghost d3 = self.data@;
        let ghost z3 = self.lazy@;
        proof {
            T::lemma_identity_map(d3[2 * k + 1]);
            T::lemma_identity_map(d3[2 * k + 2]);
            assert(eff::<T>(d3, z3, 2 * k + 1) == d3[2 * k + 1]);
            assert(eff::<T>(d3, z3, 2 * k + 2) == d3[2 * k + 2]);
        }
        let combined = T::op(&self.data[2 * k + 1], &self.data[2 * k + 2]);
        self.data[k] = combined;
        proof {
            let d4 = self.data@;
            lemma_disjoint(n, k as int, k as int, seg_l as int, size);
            assert forall|j: int| in_sub(j, 2 * k + 1, h) implies #[trigger] d4[j] == d3[j] by {
                lemma_disjoint(n, j, k as int, seg_l as int, size);
                lemma_sub_bound(n, j, 2 * k + 1, seg_l as int, h);
            }
            assert forall|j: int| in_sub(j, 2 * k + 2, h) implies #[trigger] d4[j] == d3[j] by {
                lemma_disjoint(n, j, k as int, seg_l as int, size);
                lemma_sub_bound(n, j, 2 * k + 2, seg_l + h, h);
            }
            lemma_frame::<T>(d3, z3, d4, z3, 2 * k + 1, h);
            lemma_frame::<T>(d3, z3, d4, z3, 2 * k + 2, h);
            lemma_vals_split::<T>(d4, z3, k as int, size);
            assert(vals::<T>(d4, z3, k as int, size) =~= (w1 + w2).update(index - seg_l, value));
            lemma_outside_twice::<T>(n, d0, z0, d1, z1, d3, z3, k as int, size);
            assert(in_sub(k as int, k as int, size));
            assert forall|j: int| 0 <= j < 2 * n && !in_sub(j, k as int, size) implies #[trigger] d4[j]
                == d0[j] by {
                assert(d3[j] == d0[j]);
            }
        }
    }

    /// Applies the map that waits at the node `idx` to its value, and hands it
    /// down to its two children.
    fn eval(&mut self, idx: usize, l: Ghost<int>, size: Ghost<int>)
        requires
            old(self).sized(),
            shaped(old(self).n as int, idx as int, l@, size@),
            tree_ok::<T>(old(self).data@, old(self).lazy@, idx as int, size@),
        ensures
            final(self).sized(),
            final(self).n == old(self).n,
            final(self).len == old(self).len,
            (final(self).data@, final(self).lazy@) == evaluated::<T>(
                old(self).data@,
                old(self).lazy@,
                idx as int,
                size@,
            ),
    {
        proof {
            lemma_shaped_bound(self.n as int, idx as int, l@, size@);
            if size@ >= 2 {
                lemma_shaped_children(self.n as int, idx as int, l@, size@);
            } else {
                assert((idx + 1) * 1 == idx + 1);
            }
        }
        if idx < self.n - 1 {
            let left = T::composition(&self.lazy[idx], &self.lazy[idx * 2 + 1]);
            self.lazy[idx * 2 + 1] = left;
            let right = T::composition(&self.lazy[idx], &self.lazy[idx * 2 + 2]);
            self.lazy[idx * 2 + 2] = right;
        }
        let value = T::mapping(&self.lazy[idx], &self.data[idx]);
        self.data[idx] = value;
        self.lazy[idx] = T::identity_map();
        proof {
            assert(self.data@ =~= evaluated::<T>(
                old(self).data@,
                old(self).lazy@,
                idx as int,
                size@,
            ).0);
            assert(self.lazy@ =~= evaluated::<T>(
                old(self).data@,
                old(self).lazy@,
                idx as int,
                size@,
            ).1);
        }
    }

    /// What the leaves below the node `k`, which stands above the leaves
    /// `seg_l..seg_r`, combine to, as far as they lie in `l..r`.
    fn get_range_rec(&mut self, l: usize, r: usize, k: usize, seg_l: usize, seg_r: usize) -> (res:
        <T::M as Monoid>::S)
        requires
            old(self).sized(),
            seg_l < seg_r,
            shaped(old(self).n as int, k as int, seg_l as int, seg_r - seg_l),
            tree_ok::<T>(old(self).data@, old(self).lazy@, k as int, seg_r - seg_l),
        ensures
            final(self).sized(),
            final(self).n == old(self).n,
            final(self).len == old(self).len,
            vals::<T>(final(self).data@, final(self).lazy@, k as int, seg_r - seg_l) == vals::<T>(
                old(self).data@,
                old(self).lazy@,
                k as int,
                seg_r - seg_l,
            ),
            tree_ok::<T>(final(self).data@, final(self).lazy@, k as int, seg_r - seg_l),
            eff::<T>(final(self).data@, final(self).lazy@, k as int) == eff::<T>(
                old(self).data@,
                old(self).lazy@,
                k as int,
            ),
            same_outside::<T>(
                old(self).n as int,
                old(self).data@,
                old(self).lazy@,
                final(self).data@,
                final(self).lazy@,
                k as int,
                seg_r - seg_l,
            ),
            res == clip_fold::<T::M>(
                vals::<T>(old(self).data@, old(self).lazy@, k as int, seg_r - seg_l),
                l - seg_l,
                r - seg_l,
            ),
        decreases seg_r - seg_l,
    {
        let ghost n = self.n as int;
        let ghost size = seg_r - seg_l;
        let ghost d0 = self.data@;
        let ghost z0 = self.lazy@;
        proof {
            lemma_evaluated::<T>(d0, z0, n, k as int, seg_l as int, size);
            lemma_vals_len::<T>(d0, z0, k as int, size);
            lemma_shaped_bound(n, k as int, seg_l as int, size);
            T::lemma_identity_map(eff::<T>(d0, z0, k as int));
        }
        self.eval(k, Ghost(seg_l as int), Ghost(size));
        let ghost d1 = self.data@;
        let ghost z1 = self.lazy@;
        if seg_r <= l || r <= seg_l {
            return T::id();
        }
        if l <= seg_l && seg_r <= r {
            proof {
                lemma_node_value::<T>(d0, z0, k as int, size);
                let v = vals::<T>(d0, z0, k as int, size);
                assert(v.subrange(0, size) =~= v);
            }
            return self.data[k];
        }
        proof {
            if size == 1 {
                assert(false);
            }
            lemma_shaped_children(n, k as int, seg_l as int, size);
            lemma_vals_split::<T>(d1, z1, k as int, size);
        }
        let mid = (seg_l + seg_r) / 2;
        let left = self.get_range_rec(l, r, 2 * k + 1, seg_l, mid);
        let ghost d2 = self.data@;
        let ghost z2 = self.lazy@;
        proof {
            lemma_one_child::<T>(n, k as int, seg_l as int, size, d1, z1, d2, z2, true);
        }
        let right = self.get_range_rec(l, r, 2 * k + 2, mid, seg_r);
        proof {
            let d3 = self.data@;
            let z3 = self.lazy@;
            lemma_one_child::<T>(n, k as int, seg_l as int, size, d2, z2, d3, z3, false);
            lemma_outside_twice::<T>(n, d1, z1, d2, z2, d3, z3, k as int, size);
            lemma_outside_twice::<T>(n, d0, z0, d1, z1, d3, z3, k as int, size);
            lemma_vals_split::<T>(d3, z3, k as int, size);
            T::lemma_identity_map(d3[k as int]);
            T::lemma_identity_map(d1[k as int]);
            lemma_clip_concat::<T::M>(
                vals::<T>(d1, z1, 2 * k + 1, size / 2),
                vals::<T>(d1, z1, 2 * k + 2, size / 2),
                l - seg_l,
                r - seg_l,
            );
        }
        T::op(&left, &right)
    }

    /// What the values at the positions of `range` combine to; a range without
    /// a start begins at the first value, and one without an end stops behind
    /// the last value that is in use.
    pub fn get(&mut self, range: (Endpoint<usize>, Endpoint<usize>)) -> (res: <T::M as Monoid>::S)
        requires
            old(self).wf(),
            lower_spec(range.0, 0) <= usize::MAX,
            upper_spec(range.1, 0) <= usize::MAX,
        ensures
            final(self).wf(),
            final(self)@ == old(self)@,
            final(self).size() == old(self).size(),
            final(self).capacity() == old(self).capacity(),
            res == range_fold::<T::M>(
                old(self)@,
                lower_spec(range.0, 0),
                upper_spec(range.1, old(self).size() as int),
            ),
    {
        let (l, r) = unpack_range(range, 0usize, self.len);
        proof {
            assert((0 + 1) * (self.n as int) == self.n + 0) by (nonlinear_arith);
            lemma_vals_len::<T>(self.data@, self.lazy@, 0, self.n as int);
        }
        let n = self.n;
        self.get_range_rec(l, r, 0, 0, n)
    }

    /// Applies the map `f` to the values of the leaves below the node `k`,
    /// which stands above the leaves `seg_l..seg_r`, as far as they lie in
    /// `l..r`.
    fn update_range_rec(&mut self, l: usize, r: usize, k: usize, f: &T::F, seg_l: usize, seg_r: usize)
        requires
            old(self).sized(),
            seg_l < seg_r,
            shaped(old(self).n as int, k as int, seg_l as int, seg_r - seg_l),
            tree_ok::<T>(old(self).data@, old(self).lazy@, k as int, seg_r - seg_l),
        ensures
            final(self).sized(),
            final(self).n == old(self).n,
            final(self).len == old(self).len,
            vals::<T>(final(self).data@, final(self).lazy@, k as int, seg_r - seg_l)
                == apply_range::<T>(
                vals::<T>(old(self).data@, old(self).lazy@, k as int, seg_r - seg_l),
                *f,
                l - seg_l,
                r - seg_l,
            ),
            tree_ok::<T>(final(self).data@, final(self).lazy@, k as int, seg_r - seg_l),
            final(self).lazy@[k as int] == T::identity_map_spec(),
            same_outside::<T>(
                old(self).n as int,
                old(self).data@,
                old(self).lazy@,
                final(self).data@,
                final(self).lazy@,
                k as int,
                seg_r - seg_l,
            ),
        decreases seg_r - seg_l,
    {
        let ghost n = self.n as int;
        let ghost size = seg_r - seg_l;
        let ghost d0 = self.data@;
        let ghost z0 = self.lazy@;
        let ghost v0 = vals::<T>(d0, z0, k as int, size);
        proof {
            lemma_evaluated::<T>(d0, z0, n, k as int, seg_l as int, size);
            lemma_vals_len::<T>(d0, z0, k as int, size);
            lemma_shaped_bound(n, k as int, seg_l as int, size);
        }
        self.eval(k, Ghost(seg_l as int), Ghost(size));
        let ghost d1 = self.data@;
        let ghost z1 = self.lazy@;
        if l <= seg_l && seg_r <= r {
            let composed = T::composition(f, &self.lazy[k]);
            self.lazy[k] = composed;
            let ghost z2 = self.lazy@;
            proof {
                lemma_push::<T>(d1, z1, n, k as int, seg_l as int, size, *f);
                assert(z2 =~= z1.update(k as int, T::composition_spec(*f, z1[k as int])));
                lemma_evaluated::<T>(d1, z2, n, k as int, seg_l as int, size);
                assert(vals::<T>(d1, z2, k as int, size) =~= apply_range::<T>(
                    v0,
                    *f,
                    l - seg_l,
                    r - seg_l,
                ));
            }
            self.eval(k, Ghost(seg_l as int), Ghost(size));
            proof {
                let d3 = self.data@;
                let z3 = self.lazy@;
                assert(in_sub(k as int, k as int, size));
                assert forall|j: int| 0 <= j < 2 * n && !in_sub(j, k as int, size) implies #[trigger] d3[j]
                    == d0[j] by {
                    assert(d1[j] == d0[j]);
                }
                assert forall|j: int| 0 <= j < 2 * n && !in_sub(j, k as int, size) implies #[trigger] z3[j]
                    == z0[j] by {
                    assert(z1[j] == z0[j]);
                    assert(z2[j] == z1[j]);
                }
            }
        } else if l < seg_r && seg_l < r {
            proof {
                if size == 1 {
                    assert(false);
                }
                lemma_shaped_children(n, k as int, seg_l as int, size);
                lemma_vals_split::<T>(d1, z1, k as int, size);
            }
            let mid = (seg_l + seg_r) / 2;
            self.update_range_rec(l, r, k * 2 + 1, f, seg_l, mid);
            let ghost d2 = self.data@;
            let ghost z2 = self.lazy@;
            proof {
                lemma_one_child::<T>(n, k as int, seg_l as int, size, d1, z1, d2, z2, true);
            }
            self.update_range_rec(l, r, k * 2 + 2, f, mid, seg_r);
            let ghost d3 = self.data@;
            let ghost z3 = self.lazy@;
            proof {
                lemma_one_child::<T>(n, k as int, seg_l as int, size, d2, z2, d3, z3, false);
                lemma_outside_twice::<T>(n, d1, z1, d2, z2, d3, z3, k as int, size);
                lemma_outside_twice::<T>(n, d0, z0, d1, z1, d3, z3, k as int, size);
                T::lemma_identity_map(d3[2 * k + 1]);
                T::lemma_identity_map(d3[2 * k + 2]);
                assert(in_sub(2 * k + 1, 2 * k + 1, size / 2));
                lemma_disjoint(n, 2 * k + 1, k as int, seg_l as int, size);
                assert(z3[2 * k + 1] == z2[2 * k + 1]);
                assert(d3[2 * k + 1] == d2[2 * k + 1]);
                assert(eff::<T>(d3, z3, 2 * k + 1) == d3[2 * k + 1]);
                assert(eff::<T>(d3, z3, 2 * k + 2) == d3[2 * k + 2]);
            }
            let value = T::op(&self.data[2 * k + 1], &self.data[2 * k + 2]);
            self.data[k] = value;
            proof {
                let d4 = self.data@;
                lemma_disjoint(n, k as int, k as int, seg_l as int, size);
                assert forall|j: int| in_sub(j, 2 * k + 1, size / 2) implies #[trigger] d4[j]
                    == d3[j] by {
                    lemma_disjoint(n, j, k as int, seg_l as int, size);
                    lemma_sub_bound(n, j, 2 * k + 1, seg_l as int, size / 2);
                }
                assert forall|j: int| in_sub(j, 2 * k + 2, size / 2) implies #[trigger] d4[j]
                    == d3[j] by {
                    lemma_disjoint(n, j, k as int, seg_l as int, size);
                    lemma_sub_bound(n, j, 2 * k + 2, seg_l + size / 2, size / 2);
                }
                lemma_frame::<T>(d3, z3, d4, z3, 2 * k + 1, size / 2);
                lemma_frame::<T>(d3, z3, d4, z3, 2 * k + 2, size / 2);
                lemma_vals_split::<T>(d4, z3, k as int, size);
                let h = size / 2;
                let w1 = vals::<T>(d1, z1, 2 * k + 1, h);
                let w2 = vals::<T>(d1, z1, 2 * k + 2, h);
                assert(apply_range::<T>(w1, *f, l - seg_l, r - seg_l) + apply_range::<T>(
                    w2,
                    *f,
                    l - mid,
                    r - mid,
                ) =~= apply_range::<T>(w1 + w2, *f, l - seg_l, r - seg_l));
                assert(in_sub(k as int, k as int, size));
                assert forall|j: int| 0 <= j < 2 * n && !in_sub(j, k as int, size) implies #[trigger] d4[j]
                    == d0[j] by {
                    assert(d3[j] == d0[j]);
                }
            }
        } else {
            proof {
                assert(v0 =~= apply_range::<T>(v0, *f, l - seg_l, r - seg_l));
            }
        }
    }

    /// Applies the map `f` to the values at the positions of `range`; a range
    /// without a start begins at the first value, and one without an end stops
    /// behind the last value that is in use.
    pub fn update(&mut self, range: (Endpoint<usize>, Endpoint<usize>), f: &T::F)
        requires
            old(self).wf(),
            lower_spec(range.0, 0) <= usize::MAX,
            upper_spec(range.1, 0) <= usize::MAX,
        ensures
            final(self).wf(),
            final(self).size() == old(self).size(),
            final(self).capacity() == old(self).capacity(),
            final(self)@ == apply_range::<T>(
                old(self)@,
                *f,
                lower_spec(range.0, 0),
                upper_spec(range.1, old(self).size() as int),
            ),
    {
        let (l, r) = unpack_range(range, 0usize, self.len);
        proof {
            assert((0 + 1) * (self.n as int) == self.n + 0) by (nonlinear_arith);
        }
        let n = self.n;
        self.update_range_rec(l, r, 0, f, 0, n);
    }
}

} // verus!

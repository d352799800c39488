use crate::misc::rand::{sample, Pcg32, MAX_DRAWS};
use crate::utils::versatility_functions::Endpoint;
use vstd::prelude::*;

verus! {

/// Number of levels of every list.
pub const HEIGHT: usize = 25;

/// One entry of one level's linked list.
#[derive(Clone, Copy)]
pub struct ListNode {
    /// Index, in the same level, of the entry that follows; `None` at the tail.
    next: Option<usize>,
    /// Index in the arena of the element that this entry stands for.
    element_node_idx: usize,
    /// Number of positions that following `next` moves forward.
    width: usize,
}

impl ListNode {
    fn new(idx: usize) -> (node: Self)
        ensures
            node.next is None,
            node.element_node_idx == idx,
            node.width == 0,
    {
        Self { next: None, element_node_idx: idx, width: 0 }
    }

    fn dummy(idx: usize) -> (node: Self)
        ensures
            node.next is None,
            node.element_node_idx == idx,
            node.width == 0,
    {
        Self { next: None, element_node_idx: idx, width: 0 }
    }
}

/// One slot of the arena: a value, or a sentinel without one, and for each level
/// that the slot takes part in the index of its entry in that level.
pub struct ElementNode<T> {
    list_nodes: Vec<usize>,
    elm: Option<T>,
}

impl<T> ElementNode<T> {
    fn new(x: T) -> (node: Self)
        ensures
            node.list_nodes@.len() == 0,
            node.elm == Some(x),
    {
        Self { list_nodes: Vec::new(), elm: Some(x) }
    }

    fn dummy() -> (node: Self)
        ensures
            node.list_nodes@.len() == 0,
            node.elm is None,
    {
        Self { list_nodes: Vec::new(), elm: None }
    }
}

/// A sequence with insertion, deletion and lookup by position.
///
/// Ranks count the slots of the sequence from the head sentinel: the head has
/// rank 0, the element at position `p` has rank `p + 1`, and the tail sentinel
/// has rank `len + 1`.
pub struct SkipList<T> {
    nodes: Vec<ElementNode<T>>,
    list: Vec<Vec<ListNode>>,
    len: usize,
    rng: Pcg32,
    /// The arena index of the slot at each rank.
    order: Ghost<Seq<int>>,
}

/// The number of levels that a new element takes part in, and the state of
/// the generator afterwards, where the element has `h` levels so far and the
/// generator stands in `state`: a fair coin from the generator, 0 or 1, wins
/// one more level with every 0, and the first 1, or the level `HEIGHT`, ends
/// it.
pub open spec fn height_from(state: u64, inc: u64, h: nat) -> (nat, u64)
    decreases HEIGHT - h,
{
    if h >= HEIGHT {
        (h, state)
    } else {
        let coin = sample::<i32>(state, inc, 0, 2, MAX_DRAWS as nat);
        if coin.0 != 0 {
            (h, coin.1)
        } else {
            height_from(coin.1, inc, h + 1)
        }
    }
}

/// Number of levels that the slot at rank `r` takes part in.
#[verifier::inline]
spec fn height_at<T>(nodes: Seq<ElementNode<T>>, order: Seq<int>, r: int) -> int {
    nodes[order[r]].list_nodes@.len() as int
}

/// Index, within level `i`, of the entry of the slot at rank `r`.
#[verifier::inline]
spec fn id_at<T>(nodes: Seq<ElementNode<T>>, order: Seq<int>, r: int, i: int) -> int {
    nodes[order[r]].list_nodes@[i] as int
}

/// The ranks name distinct arena slots, the two sentinels stand at the ends and
/// take part in every level, and every slot between them holds a value.
spec fn arena_wf<T>(nodes: Seq<ElementNode<T>>, order: Seq<int>) -> bool {
    &&& order.len() >= 2
    &&& forall|r: int| 0 <= r < order.len() ==> 0 <= #[trigger] order[r] < nodes.len()
    &&& forall|r1: int, r2: int|
        0 <= r1 < r2 < order.len() ==> #[trigger] order[r1] != #[trigger] order[r2]
    &&& forall|r: int|
        0 <= r < order.len() ==> 1 <= nodes[#[trigger] order[r]].list_nodes@.len() <= HEIGHT
    &&& height_at(nodes, order, 0) == HEIGHT
    &&& height_at(nodes, order, order.len() - 1) == HEIGHT
    &&& forall|r: int| 1 <= r < order.len() - 1 ==> nodes[#[trigger] order[r]].elm is Some
}

/// The entry at level `i` of the slot at rank `r` points back to its slot, and,
/// unless it is the tail, its `width` leads to the next rank that takes part in
/// level `i`, where `next` points.
spec fn link_ok<T>(
    nodes: Seq<ElementNode<T>>,
    order: Seq<int>,
    lst: Seq<ListNode>,
    i: int,
    r: int,
) -> bool {
    let a = id_at(nodes, order, r, i);
    let w = lst[a].width as int;
    &&& 0 <= a < lst.len()
    &&& lst[a].element_node_idx == order[r]
    &&& r < order.len() - 1 ==> {
        &&& w >= 1
        &&& r + w < order.len()
        &&& height_at(nodes, order, r + w) > i
        &&& lst[a].next == Some(id_at(nodes, order, r + w, i) as usize)
        &&& forall|q: int| r < q < r + w ==> nodes[#[trigger] order[q]].list_nodes@.len() <= i
    }
}

/// Every slot that takes part in level `i` is linked correctly there.
spec fn level_wf<T>(nodes: Seq<ElementNode<T>>, order: Seq<int>, lst: Seq<ListNode>, i: int) -> bool {
    forall|r: int|
        0 <= r < order.len() && height_at(nodes, order, r) > i ==> #[trigger] link_ok(
            nodes,
            order,
            lst,
            i,
            r,
        )
}

/// At level `i`, the entry with index `a` belongs to rank `r`, the last rank up
/// to `t` that takes part in the level.
spec fn pred_ok<T>(
    nodes: Seq<ElementNode<T>>,
    order: Seq<int>,
    i: int,
    t: int,
    a: int,
    r: int,
) -> bool {
    &&& 0 <= r <= t
    &&& height_at(nodes, order, r) > i
    &&& a == id_at(nodes, order, r, i)
    &&& forall|q: int| r < q <= t ==> nodes[#[trigger] order[q]].list_nodes@.len() <= i
}

/// Taking the slot at rank `x` out keeps the arena well formed.
proof fn lemma_arena_remove<T>(nodes: Seq<ElementNode<T>>, order: Seq<int>, x: int)
    requires
        arena_wf(nodes, order),
        1 <= x < order.len() - 1,
    ensures
        arena_wf(nodes, order.remove(x)),
{
    let o2 = order.remove(x);
    assert forall|q: int| 0 <= q < o2.len() implies #[trigger] o2[q] == order[if q < x {
        q
    } else {
        q + 1
    }] by {}
    assert forall|r1: int, r2: int| 0 <= r1 < r2 < o2.len() implies #[trigger] o2[r1]
        != #[trigger] o2[r2] by {
        let s1 = if r1 < x { r1 } else { r1 + 1 };
        let s2 = if r2 < x { r2 } else { r2 + 1 };
        assert(order[s1] != order[s2]);
    }
    assert forall|r: int| 1 <= r < o2.len() - 1 implies nodes[#[trigger] o2[r]].elm is Some by {
        let s = if r < x { r } else { r + 1 };
        assert(nodes[order[s]].elm is Some);
    }
}

/// Putting a fresh slot `e` at rank `x` keeps the arena well formed.
proof fn lemma_arena_insert<T>(
    nodes: Seq<ElementNode<T>>,
    node: ElementNode<T>,
    order: Seq<int>,
    x: int,
)
    requires
        arena_wf(nodes, order),
        1 <= x <= order.len() - 1,
        1 <= node.list_nodes@.len() <= HEIGHT,
        node.elm is Some,
    ensures
        arena_wf(nodes.push(node), order.insert(x, nodes.len() as int)),
{
    let e = nodes.len() as int;
    let n2 = nodes.push(node);
    let o2 = order.insert(x, e);
    assert forall|q: int| 0 <= q < o2.len() implies #[trigger] o2[q] == (if q < x {
        order[q]
    } else if q == x {
        e
    } else {
        order[q - 1]
    }) by {}
    assert forall|r1: int, r2: int| 0 <= r1 < r2 < o2.len() implies #[trigger] o2[r1]
        != #[trigger] o2[r2] by {
        let s1 = if r1 < x { r1 } else { r1 - 1 };
        let s2 = if r2 < x { r2 } else { r2 - 1 };
        if r1 != x && r2 != x {
            assert(order[s1] != order[s2]);
        } else if r1 == x {
            assert(order[s2] < e);
        } else {
            assert(order[s1] < e);
        }
    }
    assert forall|r: int| 0 <= r < o2.len() implies 1 <= n2[#[trigger] o2[r]].list_nodes@.len()
        <= HEIGHT by {
        if r != x {
            let s = if r < x { r } else { r - 1 };
            assert(n2[order[s]] == nodes[order[s]]);
        }
    }
    assert forall|r: int| 1 <= r < o2.len() - 1 implies n2[#[trigger] o2[r]].elm is Some by {
        if r != x {
            let s = if r < x { r } else { r - 1 };
            assert(n2[order[s]] == nodes[order[s]]);
        }
    }
    assert(n2[order[0]] == nodes[order[0]]);
    assert(n2[order[order.len() - 1]] == nodes[order[order.len() - 1]]);
}

/// Entries of distinct ranks in one level are distinct.
proof fn lemma_ids_differ<T>(
    nodes: Seq<ElementNode<T>>,
    order: Seq<int>,
    lst: Seq<ListNode>,
    i: int,
    r1: int,
    r2: int,
)
    requires
        arena_wf(nodes, order),
        0 <= r1 < order.len(),
        0 <= r2 < order.len(),
        r1 != r2,
        link_ok(nodes, order, lst, i, r1),
        link_ok(nodes, order, lst, i, r2),
    ensures
        id_at(nodes, order, r1, i) != id_at(nodes, order, r2, i),
{
    if r1 < r2 {
        assert(order[r1] != order[r2]);
    } else {
        assert(order[r2] != order[r1]);
    }
}

/// Level `i` after the slot at rank `p + 1` has left it: the entry before it,
/// `a` at rank `r`, has taken over the span of the entry that left, or has lost
/// one position of its own span where the slot had no entry in this level.
proof fn lemma_level_delete<T>(
    nodes: Seq<ElementNode<T>>,
    order: Seq<int>,
    old_lst: Seq<ListNode>,
    new_lst: Seq<ListNode>,
    i: int,
    p: int,
    a: int,
    r: int,
)
    requires
        arena_wf(nodes, order),
        0 <= i < HEIGHT,
        0 <= p < order.len() - 2,
        level_wf(nodes, order, old_lst, i),
        pred_ok(nodes, order, i, p, a, r),
        new_lst.len() == old_lst.len(),
        forall|k: int| 0 <= k < old_lst.len() && k != a ==> #[trigger] new_lst[k] == old_lst[k],
        new_lst[a].element_node_idx == old_lst[a].element_node_idx,
        old_lst[a].width == p + 1 - r ==> {
            let b = old_lst[a].next->0 as int;
            &&& new_lst[a].next == old_lst[b].next
            &&& new_lst[a].width == old_lst[a].width + old_lst[b].width - 1
        },
        old_lst[a].width != p + 1 - r ==> {
            &&& new_lst[a].next == old_lst[a].next
            &&& new_lst[a].width == old_lst[a].width - 1
        },
    ensures
        level_wf(nodes, order.remove(p + 1), new_lst, i),
{
    let o2 = order.remove(p + 1);
    assert forall|q: int| 0 <= q < o2.len() implies #[trigger] o2[q] == order[if q < p + 1 {
        q
    } else {
        q + 1
    }] by {}
    assert(link_ok(nodes, order, old_lst, i, r));
    assert forall|r2: int| 0 <= r2 < o2.len() && height_at(nodes, o2, r2) > i implies link_ok(
        nodes,
        o2,
        new_lst,
        i,
        r2,
    ) by {
        let s = if r2 < p + 1 { r2 } else { r2 + 1 };
        assert(o2[r2] == order[s]);
        assert(link_ok(nodes, order, old_lst, i, s));
        let w = old_lst[a].width as int;
        if s == r {
            if w == p + 1 - r {
                assert(link_ok(nodes, order, old_lst, i, p + 1));
                let b = old_lst[a].next->0 as int;
                let wb = old_lst[b].width as int;
                assert(o2[p + wb] == order[p + 1 + wb]);
                assert forall|q: int| r2 < q < r2 + new_lst[a].width implies nodes[#[trigger] o2[q]].list_nodes@.len()
                    <= i by {
                    if q < p + 1 {
                        assert(o2[q] == order[q]);
                    } else {
                        assert(o2[q] == order[q + 1]);
                    }
                }
            } else {
                assert(nodes[order[r + w]].list_nodes@.len() > i);
                assert(r + w > p + 1);
                assert(o2[r + w - 1] == order[r + w]);
                assert forall|q: int| r2 < q < r2 + new_lst[a].width implies nodes[#[trigger] o2[q]].list_nodes@.len()
                    <= i by {
                    if q < p + 1 {
                        assert(o2[q] == order[q]);
                    } else {
                        assert(o2[q] == order[q + 1]);
                    }
                }
            }
        } else {
            lemma_ids_differ(nodes, order, old_lst, i, s, r);
            let a2 = id_at(nodes, order, s, i);
            assert(new_lst[a2] == old_lst[a2]);
            let w2 = old_lst[a2].width as int;
            if s < order.len() - 1 {
                if s < r {
                    assert(s + w2 <= r) by {
                        if s + w2 > r {
                            assert(nodes[order[r]].list_nodes@.len() <= i);
                        }
                    }
                    assert(o2[s + w2] == order[s + w2]);
                    assert forall|q: int| r2 < q < r2 + w2 implies nodes[#[trigger] o2[q]].list_nodes@.len()
                        <= i by {
                        assert(o2[q] == order[q]);
                    }
                } else {
                    assert(s > p + 1) by {
                        if s <= p {
                            assert(nodes[order[s]].list_nodes@.len() <= i);
                        }
                    }
                    assert(o2[r2 + w2] == order[s + w2]);
                    assert forall|q: int| r2 < q < r2 + w2 implies nodes[#[trigger] o2[q]].list_nodes@.len()
                        <= i by {
                        assert(o2[q] == order[q + 1]);
                    }
                }
            }
        }
    }
}

/// Level `i` after a fresh slot `node` has taken rank `p + 1`: where the slot
/// takes part in the level, its entry stands at the end of the level's storage and
/// splits the span of the entry before it, `a` at rank `r`; where it does not,
/// that span has grown by one position.
proof fn lemma_level_insert<T>(
    nodes: Seq<ElementNode<T>>,
    node: ElementNode<T>,
    order: Seq<int>,
    old_lst: Seq<ListNode>,
    new_lst: Seq<ListNode>,
    i: int,
    p: int,
    a: int,
    r: int,
)
    requires
        arena_wf(nodes, order),
        0 <= i < HEIGHT,
        0 <= p <= order.len() - 2,
        level_wf(nodes, order, old_lst, i),
        pred_ok(nodes, order, i, p, a, r),
        forall|k: int| 0 <= k < old_lst.len() && k != a ==> #[trigger] new_lst[k] == old_lst[k],
        new_lst[a].element_node_idx == old_lst[a].element_node_idx,
        node.list_nodes@.len() > i ==> {
            let b = old_lst.len() as int;
            &&& node.list_nodes@[i] == b
            &&& new_lst.len() == b + 1
            &&& new_lst[a].next == Some(b as usize)
            &&& new_lst[a].width == p + 1 - r
            &&& new_lst[b].next == old_lst[a].next
            &&& new_lst[b].element_node_idx == nodes.len()
            &&& new_lst[b].width == old_lst[a].width + r - p
        },
        node.list_nodes@.len() <= i ==> {
            &&& new_lst.len() == old_lst.len()
            &&& new_lst[a].next == old_lst[a].next
            &&& new_lst[a].width == old_lst[a].width + 1
        },
    ensures
        level_wf(nodes.push(node), order.insert(p + 1, nodes.len() as int), new_lst, i),
{
    let e = nodes.len() as int;
    let n2 = nodes.push(node);
    let o2 = order.insert(p + 1, e);
    let x = p + 1;
    assert forall|q: int| 0 <= q < o2.len() implies #[trigger] o2[q] == (if q < x {
        order[q]
    } else if q == x {
        e
    } else {
        order[q - 1]
    }) by {}
    assert forall|q: int| 0 <= q < order.len() implies n2[#[trigger] order[q]]
        == nodes[order[q]] by {}
    assert(link_ok(nodes, order, old_lst, i, r));
    let w = old_lst[a].width as int;
    assert(r + w > p) by {
        if r + w <= p {
            assert(nodes[order[r + w]].list_nodes@.len() <= i);
        }
    }
    assert forall|r2: int| 0 <= r2 < o2.len() && height_at(n2, o2, r2) > i implies link_ok(
        n2,
        o2,
        new_lst,
        i,
        r2,
    ) by {
        if r2 == x {
            let b = old_lst.len() as int;
            assert(o2[r + w + 1] == order[r + w]);
            assert forall|q: int| r2 < q < r2 + new_lst[b].width implies n2[#[trigger] o2[q]].list_nodes@.len()
                <= i by {
                assert(o2[q] == order[q - 1]);
                assert(nodes[order[q - 1]].list_nodes@.len() <= i);
            }
        } else {
            let s = if r2 < x { r2 } else { r2 - 1 };
            assert(o2[r2] == order[s]);
            assert(n2[order[s]] == nodes[order[s]]);
            assert(link_ok(nodes, order, old_lst, i, s));
            if s == r {
                if node.list_nodes@.len() > i {
                    assert(o2[x] == e);
                    assert forall|q: int| r2 < q < r2 + new_lst[a].width implies n2[#[trigger] o2[q]].list_nodes@.len()
                        <= i by {
                        assert(o2[q] == order[q]);
                        assert(nodes[order[q]].list_nodes@.len() <= i);
                    }
                } else {
                    assert(o2[r + w + 1] == order[r + w]);
                    assert forall|q: int| r2 < q < r2 + new_lst[a].width implies n2[#[trigger] o2[q]].list_nodes@.len()
                        <= i by {
                        if q < x {
                            assert(o2[q] == order[q]);
                            assert(nodes[order[q]].list_nodes@.len() <= i);
                        } else if q > x {
                            assert(o2[q] == order[q - 1]);
                            assert(nodes[order[q - 1]].list_nodes@.len() <= i);
                        }
                    }
                }
            } else {
                lemma_ids_differ(nodes, order, old_lst, i, s, r);
                let a2 = id_at(nodes, order, s, i);
                assert(new_lst[a2] == old_lst[a2]);
                let w2 = old_lst[a2].width as int;
                if s < order.len() - 1 {
                    if s < r {
                        assert(s + w2 <= r) by {
                            if s + w2 > r {
                                assert(nodes[order[r]].list_nodes@.len() <= i);
                            }
                        }
                        assert(o2[s + w2] == order[s + w2]);
                        assert forall|q: int| r2 < q < r2 + w2 implies n2[#[trigger] o2[q]].list_nodes@.len()
                            <= i by {
                            assert(o2[q] == order[q]);
                            assert(nodes[order[q]].list_nodes@.len() <= i);
                        }
                    } else {
                        assert(s > p) by {
                            if s <= p {
                                assert(nodes[order[s]].list_nodes@.len() <= i);
                            }
                        }
                        assert(o2[r2 + w2] == order[s + w2]);
                        assert forall|q: int| r2 < q < r2 + w2 implies n2[#[trigger] o2[q]].list_nodes@.len()
                            <= i by {
                            assert(o2[q] == order[q - 1]);
                            assert(nodes[order[q - 1]].list_nodes@.len() <= i);
                        }
                    }
                }
            }
        }
    }
}

impl<T> View for SkipList<T> {
    type V = Seq<T>;

    /// The values in order of position.
    closed spec fn view(&self) -> Seq<T> {
        Seq::new(self.len as nat, |p: int| self.nodes@[self.order@[p + 1]].elm->0)
    }
}

impl<T: Copy> SkipList<T> {
    /// The representation invariant: the arena, the levels and the length agree.
    pub closed spec fn wf(&self) -> bool {
        &&& self.list@.len() == HEIGHT
        &&& self.order@.len() == self.len + 2
        &&& self.len + 2 <= self.nodes.len()
        &&& arena_wf(self.nodes@, self.order@)
        &&& self.order@[0] == 0
        &&& forall|i: int| 0 <= i < HEIGHT ==> #[trigger] self.nodes@[0].list_nodes@[i] == 0
        &&& forall|i: int|
            0 <= i < HEIGHT ==> level_wf(self.nodes@, self.order@, #[trigger] self.list@[i]@, i)
    }

    /// The generator that the level choices are drawn from.
    pub closed spec fn rng(&self) -> Pcg32 {
        self.rng
    }

    /// The number of levels of the element at position `p`.
    pub closed spec fn levels_at(&self, p: int) -> nat {
        self.nodes@[self.order@[p + 1]].list_nodes@.len()
    }

    /// An empty list whose level choices are seeded from the clock.
    pub fn new() -> (s: Self)
        ensures
            s.wf(),
            s@ == Seq::<T>::empty(),
    {
        Self::with_rng(Pcg32::new())
    }

    /// An empty list that draws its level choices from `rng`.
    pub fn with_rng(rng: Pcg32) -> (s: Self)
        ensures
            s.wf(),
            s@ == Seq::<T>::empty(),
            s.rng() == rng,
    {
        let mut nodes: Vec<ElementNode<T>> = Vec::new();
        let mut head = ElementNode::dummy();
        let mut tail = ElementNode::dummy();
        let mut list: Vec<Vec<ListNode>> = Vec::new();
        let mut i: usize = 0;
        while i < HEIGHT
            invariant
                i <= HEIGHT,
                head.elm is None,
                tail.elm is None,
                head.list_nodes@.len() == i,
                tail.list_nodes@.len() == i,
                list@.len() == i,
                forall|k: int| 0 <= k < i ==> #[trigger] head.list_nodes@[k] == 0,
                forall|k: int| 0 <= k < i ==> #[trigger] tail.list_nodes@[k] == 1,
                forall|k: int|
                    0 <= k < i ==> (#[trigger] list@[k])@ =~= seq![
                        ListNode { next: Some(1usize), element_node_idx: 0, width: 1 },
                        ListNode { next: None, element_node_idx: 1, width: 0 },
                    ],
            decreases HEIGHT - i,
        {
            head.list_nodes.push(0);
            tail.list_nodes.push(1);
            let mut head_node = ListNode::dummy(0);
            head_node.next = Some(1);
            head_node.width = 1;
            let tail_node = ListNode::dummy(1);
            let mut level: Vec<ListNode> = Vec::new();
            level.push(head_node);
            level.push(tail_node);
            list.push(level);
            i += 1;
        }
        nodes.push(head);
        nodes.push(tail);
        let order: Ghost<Seq<int>> = Ghost(Seq::<int>::empty().push(0).push(1));
        let s = Self { nodes, list, len: 0, rng, order };
        proof {
            assert forall|i: int| 0 <= i < HEIGHT implies level_wf(
                s.nodes@,
                s.order@,
                #[trigger] s.list@[i]@,
                i,
            ) by {
                assert forall|r: int|
                    0 <= r < s.order@.len() && height_at(s.nodes@, s.order@, r) > i implies link_ok(
                    s.nodes@,
                    s.order@,
                    s.list@[i]@,
                    i,
                    r,
                ) by {
                    assert(r == 0 || r == 1);
                }
            }
            assert(s@ =~= Seq::<T>::empty());
        }
        s
    }

    /// Number of elements.
    pub fn len(&self) -> (n: usize)
        requires
            self.wf(),
        ensures
            n == self@.len(),
    {
        self.len
    }

    /// For every level the entry that stands last among the ranks `0..=p`, with
    /// its rank: `(index in the level, rank)`. Rank 0 is the head sentinel, which
    /// has no element before it.
    fn get_target_list(&self, p: usize) -> (res: Vec<(usize, usize)>)
        requires
            self.wf(),
            p <= self.len,
        ensures
            res@.len() == HEIGHT,
            forall|i: int|
                0 <= i < HEIGHT ==> pred_ok(
                    self.nodes@,
                    self.order@,
                    i,
                    p as int,
                    (#[trigger] res@[i]).0 as int,
                    res@[i].1 as int,
                ),
    {
        let mut res: Vec<(usize, usize)> = Vec::new();
        let mut k: usize = 0;
        while k < HEIGHT
            invariant
                k <= HEIGHT,
                res@.len() == k,
            decreases HEIGHT - k,
        {
            res.push((0, 0));
            k += 1;
        }
        let mut h: usize = HEIGHT;
        let mut idx: usize = 0;
        let mut rank: usize = 0;
        while h > 0
            invariant
                self.wf(),
                p <= self.len,
                res@.len() == HEIGHT,
                h <= HEIGHT,
                rank <= p,
                height_at(self.nodes@, self.order@, rank as int) >= h,
                h > 0 ==> idx == id_at(self.nodes@, self.order@, rank as int, h - 1),
                forall|q: int|
                    rank < q <= p ==> self.nodes@[#[trigger] self.order@[q]].list_nodes@.len() <= h,
                forall|i: int|
                    h <= i < HEIGHT ==> pred_ok(
                        self.nodes@,
                        self.order@,
                        i,
                        p as int,
                        (#[trigger] res@[i]).0 as int,
                        res@[i].1 as int,
                    ),
            decreases h,
        {
            let lvl: usize = h - 1;
            loop
                invariant
                    self.wf(),
                    p <= self.len,
                    lvl < HEIGHT,
                    rank <= p,
                    height_at(self.nodes@, self.order@, rank as int) > lvl,
                    idx == id_at(self.nodes@, self.order@, rank as int, lvl as int),
                    forall|q: int|
                        rank < q <= p ==> self.nodes@[#[trigger] self.order@[q]].list_nodes@.len()
                            <= lvl + 1,
                ensures
                    pred_ok(
                        self.nodes@,
                        self.order@,
                        lvl as int,
                        p as int,
                        idx as int,
                        rank as int,
                    ),
                    link_ok(self.nodes@, self.order@, self.list@[lvl as int]@, lvl as int, rank as int),
                decreases p - rank,
            {
                proof {
                    assert(level_wf(self.nodes@, self.order@, self.list@[lvl as int]@, lvl as int));
                    assert(link_ok(
                        self.nodes@,
                        self.order@,
                        self.list@[lvl as int]@,
                        lvl as int,
                        rank as int,
                    ));
                }
                let node = self.list[lvl][idx];
                if node.width > p - rank {
                    break ;
                }
                rank = rank + node.width;
                idx = node.next.unwrap();
            }
            let ghost prev = res@;
            res[lvl] = (idx, rank);
            proof {
                assert forall|i: int| lvl <= i < HEIGHT implies pred_ok(
                    self.nodes@,
                    self.order@,
                    i,
                    p as int,
                    (#[trigger] res@[i]).0 as int,
                    res@[i].1 as int,
                ) by {
                    if i != lvl {
                        assert(res@[i] == prev[i]);
                    }
                }
            }
            h = lvl;
            if h > 0 {
                idx = self.nodes[self.list[lvl][idx].element_node_idx].list_nodes[h - 1];
            }
        }
        res
    }

    /// The element at position `p`, or `None` when there is none.
    pub fn get(&self, p: usize) -> (r: Option<T>)
        requires
            self.wf(),
        ensures
            r == if p < self@.len() {
                Some(self@[p as int])
            } else {
                None
            },
    {
        if p >= self.len() {
            return None;
        }
        let target: usize = p + 1;
        let mut cur_height: usize = HEIGHT - 1;
        let mut cur_list_idx: usize = 0;
        let mut cur_rank: usize = 0;
        loop
            invariant_except_break
                cur_rank < target,
            invariant
                self.wf(),
                p < self.len,
                target == p + 1,
                cur_height < HEIGHT,
                cur_rank <= target,
                height_at(self.nodes@, self.order@, cur_rank as int) > cur_height,
                cur_list_idx == id_at(self.nodes@, self.order@, cur_rank as int, cur_height as int),
            ensures
                cur_rank == target,
            decreases cur_height, target - cur_rank,
        {
            proof {
                assert(level_wf(
                    self.nodes@,
                    self.order@,
                    self.list@[cur_height as int]@,
                    cur_height as int,
                ));
                assert(link_ok(
                    self.nodes@,
                    self.order@,
                    self.list@[cur_height as int]@,
                    cur_height as int,
                    cur_rank as int,
                ));
            }
            let node = self.list[cur_height][cur_list_idx];
            if node.width > target - cur_rank {
                proof {
                    if cur_height == 0 {
                        assert(self.nodes@[self.order@[cur_rank + 1]].list_nodes@.len() <= 0);
                    }
                }
                cur_height = cur_height - 1;
                cur_list_idx = self.nodes[node.element_node_idx].list_nodes[cur_height];
            } else {
                cur_rank = cur_rank + node.width;
                cur_list_idx = node.next.unwrap();
            }
            if cur_rank == target {
                break ;
            }
        }
        proof {
            assert(level_wf(
                self.nodes@,
                self.order@,
                self.list@[cur_height as int]@,
                cur_height as int,
            ));
            assert(link_ok(
                self.nodes@,
                self.order@,
                self.list@[cur_height as int]@,
                cur_height as int,
                cur_rank as int,
            ));
        }
        self.nodes[self.list[cur_height][cur_list_idx].element_node_idx].elm
    }

    /// Takes the element at position `p` out and returns it; the elements behind
    /// it move one position forward. Without such an element nothing changes.
    pub fn delete(&mut self, p: usize) -> (r: Option<T>)
        requires
            old(self).wf(),
        ensures
            final(self).wf(),
            p < old(self)@.len() ==> r == Some(old(self)@[p as int]) && final(self)@ == old(self)@.remove(
                p as int,
            ),
            p >= old(self)@.len() ==> r is None && final(self)@ == old(self)@,
            final(self).rng() == old(self).rng(),
    {
        if p >= self.len() {
            return None;
        }
        let target_list = self.get_target_list(p);
        let ghost nodes = self.nodes@;
        let ghost order = self.order@;
        let ghost new_order = order.remove(p + 1);
        let mut res: Option<T> = None;
        let mut i: usize = 0;
        while i < HEIGHT
            invariant
                i <= HEIGHT,
                self.nodes@ == nodes,
                self.order@ == order,
                self.len == old(self).len,
                self.rng == old(self).rng,
                self.list@.len() == HEIGHT,
                target_list@.len() == HEIGHT,
                p < self.len,
                order.len() == self.len + 2,
                self.len + 2 <= self.nodes.len(),
                new_order == order.remove(p + 1),
                arena_wf(nodes, order),
                forall|j: int|
                    0 <= j < HEIGHT ==> pred_ok(
                        nodes,
                        order,
                        j,
                        p as int,
                        (#[trigger] target_list@[j]).0 as int,
                        target_list@[j].1 as int,
                    ),
                forall|j: int| i <= j < HEIGHT ==> level_wf(nodes, order, #[trigger] self.list@[j]@, j),
                forall|j: int| 0 <= j < i ==> level_wf(nodes, new_order, #[trigger] self.list@[j]@, j),
                i > 0 ==> res == nodes[order[p + 1]].elm,
                i == 0 ==> res is None,
            decreases HEIGHT - i,
        {
            let (a, rank) = target_list[i];
            let ghost old_lists = self.list@;
            let ghost old_lst = self.list@[i as int]@;
            proof {
                assert(pred_ok(
                    nodes,
                    order,
                    i as int,
                    p as int,
                    target_list@[i as int].0 as int,
                    target_list@[i as int].1 as int,
                ));
                assert(level_wf(nodes, order, self.list@[i as int]@, i as int));
                assert(link_ok(nodes, order, old_lst, i as int, rank as int));
                let w = old_lst[a as int].width as int;
                if rank + w <= p {
                    assert(nodes[order[rank + w]].list_nodes@.len() <= i);
                }
                if i == 0 && rank + w > p + 1 {
                    assert(nodes[order[p + 1]].list_nodes@.len() <= 0);
                }
            }
            let prev = self.list[i][a];
            if prev.width == p + 1 - rank {
                let nxt_idx = prev.next.unwrap();
                proof {
                    assert(link_ok(nodes, order, old_lst, i as int, p + 1));
                }
                let nxt = self.list[i][nxt_idx];
                if res.is_none() {
                    res = self.nodes[nxt.element_node_idx].elm;
                }
                self.list[i][a].next = nxt.next;
                self.list[i][a].width = prev.width + nxt.width - 1;
            } else {
                self.list[i][a].width = prev.width - 1;
            }
            proof {
                lemma_level_delete(
                    nodes,
                    order,
                    old_lst,
                    self.list@[i as int]@,
                    i as int,
                    p as int,
                    a as int,
                    rank as int,
                );
                assert forall|j: int| i < j < HEIGHT implies level_wf(
                    nodes,
                    order,
                    #[trigger] self.list@[j]@,
                    j,
                ) by {
                    assert(self.list@[j] == old_lists[j]);
                }
                assert forall|j: int| 0 <= j < i + 1 implies level_wf(
                    nodes,
                    new_order,
                    #[trigger] self.list@[j]@,
                    j,
                ) by {
                    if j < i {
                        assert(self.list@[j] == old_lists[j]);
                    }
                }
            }
            i += 1;
        }
        self.len = self.len - 1;
        proof {
            self.order@ = new_order;
            lemma_arena_remove(nodes, order, p + 1);
            assert(final(self)@ =~= old(self)@.remove(p as int));
        }
        res
    }

    /// Puts `elm` at position `p`; the elements from `p` on move one position back.
    pub fn insert(&mut self, p: usize, elm: T)
        requires
            old(self).wf(),
            p <= old(self)@.len(),
        ensures
            final(self).wf(),
            final(self)@ == old(self)@.insert(p as int, elm),
            final(self).rng().inc() == old(self).rng().inc(),
            (final(self).levels_at(p as int), final(self).rng().state()) == height_from(
                old(self).rng().state(),
                old(self).rng().inc(),
                1,
            ),
    {
        let target_list = self.get_target_list(p);
        let height = random_height(&mut self.rng);
        let ghost after_draw = self.rng;
        let ghost nodes = self.nodes@;
        let ghost order = self.order@;
        let new_idx = self.nodes.len();
        let mut new_elm_node = ElementNode::new(elm);
        let mut k: usize = 0;
        while k < height
            invariant
                k <= height <= HEIGHT,
                self.list@.len() == HEIGHT,
                self.rng == after_draw,
                new_elm_node.elm == Some(elm),
                new_elm_node.list_nodes@.len() == k,
                forall|j: int|
                    0 <= j < k ==> #[trigger] new_elm_node.list_nodes@[j] == self.list@[j]@.len(),
            decreases height - k,
        {
            new_elm_node.list_nodes.push(self.list[k].len());
            k += 1;
        }
        let ghost node = new_elm_node;
        self.nodes.push(new_elm_node);
        let ghost nodes2 = nodes.push(node);
        let ghost order2 = order.insert(p + 1, new_idx as int);
        let mut i: usize = 0;
        while i < HEIGHT
            invariant
                i <= HEIGHT,
                1 <= height <= HEIGHT,
                self.rng == after_draw,
                self.nodes@ == nodes2,
                nodes2 == nodes.push(node),
                new_idx == nodes.len(),
                order2 == order.insert(p + 1, new_idx as int),
                self.order@ == order,
                self.len == old(self).len,
                self.list@.len() == HEIGHT,
                target_list@.len() == HEIGHT,
                p <= self.len,
                order.len() == self.len + 2,
                self.len + 2 < self.nodes.len(),
                node.list_nodes@.len() == height,
                arena_wf(nodes, order),
                forall|j: int|
                    0 <= j < HEIGHT ==> pred_ok(
                        nodes,
                        order,
                        j,
                        p as int,
                        (#[trigger] target_list@[j]).0 as int,
                        target_list@[j].1 as int,
                    ),
                forall|j: int| i <= j < HEIGHT ==> level_wf(nodes, order, #[trigger] self.list@[j]@, j),
                forall|j: int|
                    i <= j < height ==> #[trigger] node.list_nodes@[j] == self.list@[j]@.len(),
                forall|j: int| 0 <= j < i ==> level_wf(nodes2, order2, #[trigger] self.list@[j]@, j),
            decreases HEIGHT - i,
        {
            let (a, rank) = target_list[i];
            let ghost old_lists = self.list@;
            let ghost old_lst = self.list@[i as int]@;
            proof {
                assert(pred_ok(
                    nodes,
                    order,
                    i as int,
                    p as int,
                    target_list@[i as int].0 as int,
                    target_list@[i as int].1 as int,
                ));
                assert(level_wf(nodes, order, self.list@[i as int]@, i as int));
                assert(link_ok(nodes, order, old_lst, i as int, rank as int));
                let w = old_lst[a as int].width as int;
                if rank + w <= p {
                    assert(nodes[order[rank + w]].list_nodes@.len() <= i);
                }
            }
            let prev = self.list[i][a];
            if i < height {
                let new_list_node_id = self.list[i].len();
                let mut new_node = ListNode::new(new_idx);
                new_node.width = prev.width - (p - rank);
                new_node.next = prev.next;
                self.list[i][a].next = Some(new_list_node_id);
                self.list[i][a].width = p + 1 - rank;
                self.list[i].push(new_node);
            } else {
                self.list[i][a].width = prev.width + 1;
            }
            proof {
                lemma_level_insert(
                    nodes,
                    node,
                    order,
                    old_lst,
                    self.list@[i as int]@,
                    i as int,
                    p as int,
                    a as int,
                    rank as int,
                );
                assert forall|j: int| i < j < HEIGHT implies level_wf(
                    nodes,
                    order,
                    #[trigger] self.list@[j]@,
                    j,
                ) by {
                    assert(self.list@[j] == old_lists[j]);
                }
                assert forall|j: int| i < j < height implies #[trigger] node.list_nodes@[j]
                    == self.list@[j]@.len() by {
                    assert(self.list@[j] == old_lists[j]);
                }
                assert forall|j: int| 0 <= j < i + 1 implies level_wf(
                    nodes2,
                    order2,
                    #[trigger] self.list@[j]@,
                    j,
                ) by {
                    if j < i {
                        assert(self.list@[j] == old_lists[j]);
                    }
                }
            }
            i += 1;
        }
        self.len = self.len + 1;
        proof {
            self.order@ = order2;
            lemma_arena_insert(nodes, node, order, p + 1);
            assert(nodes2[0] == nodes[0]);
            assert forall|q: int| 0 <= q < order2.len() implies #[trigger] order2[q] == (if q < p + 1 {
                order[q]
            } else if q == p + 1 {
                new_idx as int
            } else {
                order[q - 1]
            }) by {}
            assert forall|q: int| 0 <= q < order.len() implies nodes2[#[trigger] order[q]]
                == nodes[order[q]] by {}
            assert(final(self)@ =~= old(self)@.insert(p as int, elm));
        }
    }
}

/// How many levels a new element takes part in: one, and one more for each fair
/// coin from `rng` that comes up 0 before the first 1, up to `HEIGHT`.
fn random_height(rng: &mut Pcg32) -> (h: usize)
    ensures
        1 <= h <= HEIGHT,
        final(rng).inc() == old(rng).inc(),
        (h as nat, final(rng).state()) == height_from(old(rng).state(), old(rng).inc(), 1),
{
    let mut h: usize = 1;
    while h < HEIGHT
        invariant_except_break
            height_from(rng.state(), rng.inc(), h as nat) == height_from(
                old(rng).state(),
                old(rng).inc(),
                1,
            ),
        invariant
            1 <= h <= HEIGHT,
            rng.inc() == old(rng).inc(),
        ensures
            (h as nat, rng.state()) == height_from(old(rng).state(), old(rng).inc(), 1),
        decreases HEIGHT - h,
    {
        let coin: i32 = rng.gen_range((Endpoint::Included(0), Endpoint::Included(1)));
        if coin != 0 {
            break ;
        }
        h += 1;
    }
    h
}

} // verus!

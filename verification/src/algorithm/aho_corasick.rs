use crate::utils::iterlibs::collect::chars_of;
use std::collections::VecDeque;
use vstd::prelude::*;

verus! {

/// `y` is the end of `x`.
pub open spec fn is_suffix(y: Seq<char>, x: Seq<char>) -> bool {
    y.len() <= x.len() && x.skip(x.len() - y.len()) == y
}

/// The pattern `i` stands in `text` from the position `j` on.
pub open spec fn is_match(patterns: Seq<Seq<char>>, text: Seq<char>, i: int, j: int) -> bool {
    &&& 0 <= i < patterns.len()
    &&& 0 <= j
    &&& j + patterns[i].len() <= text.len()
    &&& text.subrange(j, j + patterns[i].len()) == patterns[i]
}

/// The position behind the place `e` of a pattern, given as the number of the
/// pattern and the position of its first character.
pub open spec fn end_of(patterns: Seq<Seq<char>>, e: (usize, usize)) -> int {
    e.1 + patterns[e.0 as int].len()
}

/// The pattern `a` comes before the pattern `b`: the longer one first, and of
/// two of one length the one with the lower number.
pub open spec fn ranks_before(patterns: Seq<Seq<char>>, a: usize, b: usize) -> bool {
    patterns[a as int].len() > patterns[b as int].len() || (patterns[a as int].len()
        == patterns[b as int].len() && a < b)
}

/// The place `a` is listed before the place `b`: the one that ends first, and
/// of two that end together the one of the pattern that comes first.
pub open spec fn listed_before(patterns: Seq<Seq<char>>, a: (usize, usize), b: (usize, usize)) -> bool {
    end_of(patterns, a) < end_of(patterns, b) || (end_of(patterns, a) == end_of(patterns, b)
        && ranks_before(patterns, a.0, b.0))
}

/// The places of `res` are in their order, so that none is there twice, and
/// none ends behind `limit`.
pub open spec fn ends_ordered(patterns: Seq<Seq<char>>, res: Seq<(usize, usize)>, limit: int) -> bool {
    &&& forall|k: int| 0 <= k < res.len() ==> end_of(patterns, #[trigger] res[k]) <= limit
    &&& forall|a: int, b: int|
        0 <= a < b < res.len() ==> listed_before(patterns, #[trigger] res[a], #[trigger] res[b])
}

/// The outputs of the state `v` are patterns below `upto` that are as long as
/// its text.
spec fn own_only(
    nodes: Seq<Node>,
    strs: Seq<Seq<char>>,
    patterns: Seq<Seq<char>>,
    v: int,
    upto: int,
) -> bool {
    forall|k: int|
        0 <= k < nodes[v].outputs@.len() ==> (#[trigger] nodes[v].outputs@[k]) < upto
            && patterns[nodes[v].outputs@[k] as int].len() == strs[v].len()
}

/// The outputs of the state `v` are in their order.
spec fn ranked(nodes: Seq<Node>, patterns: Seq<Seq<char>>, v: int) -> bool {
    forall|a: int, b: int|
        0 <= a < b < nodes[v].outputs@.len() ==> ranks_before(
            patterns,
            #[trigger] nodes[v].outputs@[a],
            #[trigger] nodes[v].outputs@[b],
        )
}

/// The outputs of every state are in their order.
spec fn all_ranked(nodes: Seq<Node>, patterns: Seq<Seq<char>>) -> bool {
    forall|v: int| 0 <= v < nodes.len() ==> #[trigger] ranked(nodes, patterns, v)
}

/// Every state has only outputs below `upto` that are as long as its text.
spec fn all_own(nodes: Seq<Node>, strs: Seq<Seq<char>>, patterns: Seq<Seq<char>>, upto: int) -> bool {
    forall|v: int| 0 <= v < nodes.len() ==> #[trigger] own_only(nodes, strs, patterns, v, upto)
}

/// A new state without outputs leaves the outputs in their order.
proof fn lemma_rank_stay(
    nodes: Seq<Node>,
    strs: Seq<Seq<char>>,
    nodes2: Seq<Node>,
    strs2: Seq<Seq<char>>,
    patterns: Seq<Seq<char>>,
    upto: int,
)
    requires
        nodes.len() == strs.len(),
        all_ranked(nodes, patterns),
        all_own(nodes, strs, patterns, upto),
        nodes2.len() == nodes.len() + 1,
        strs2.len() == strs.len() + 1,
        forall|v: int| 0 <= v < strs.len() ==> #[trigger] strs2[v] == strs[v],
        forall|v: int| 0 <= v < nodes.len() ==> (#[trigger] nodes2[v]).outputs == nodes[v].outputs,
        nodes2[nodes.len() as int].outputs@.len() == 0,
    ensures
        all_ranked(nodes2, patterns),
        all_own(nodes2, strs2, patterns, upto),
{
    assert forall|v: int| 0 <= v < nodes2.len() implies #[trigger] ranked(nodes2, patterns, v) by {
        if v < nodes.len() {
            assert(ranked(nodes, patterns, v));
            assert(nodes2[v].outputs == nodes[v].outputs);
        }
    }
    assert forall|v: int| 0 <= v < nodes2.len() implies #[trigger] own_only(
        nodes2,
        strs2,
        patterns,
        v,
        upto,
    ) by {
        if v < nodes.len() {
            assert(own_only(nodes, strs, patterns, v, upto));
            assert(nodes2[v].outputs == nodes[v].outputs);
            assert(strs2[v] == strs[v]);
        }
    }
}

/// The pattern `i`, which is as long as the text of the state `cur`, comes
/// behind the outputs that `cur` has, which are below `i`.
proof fn lemma_rank_pushed(
    nodes: Seq<Node>,
    nodes2: Seq<Node>,
    strs: Seq<Seq<char>>,
    patterns: Seq<Seq<char>>,
    cur: int,
    i: usize,
)
    requires
        all_ranked(nodes, patterns),
        all_own(nodes, strs, patterns, i as int),
        0 <= cur < nodes.len(),
        nodes2.len() == nodes.len(),
        patterns[i as int].len() == strs[cur].len(),
        forall|v: int| 0 <= v < nodes.len() && v != cur ==> #[trigger] nodes2[v] == nodes[v],
        nodes2[cur].outputs@ == nodes[cur].outputs@.push(i),
    ensures
        all_ranked(nodes2, patterns),
        all_own(nodes2, strs, patterns, i + 1),
{
    assert forall|v: int| 0 <= v < nodes2.len() implies #[trigger] ranked(nodes2, patterns, v) by {
        assert(ranked(nodes, patterns, v));
        assert(own_only(nodes, strs, patterns, v, i as int));
        if v == cur {
            let was = nodes[cur].outputs@;
            assert forall|a: int, b: int| 0 <= a < b < nodes2[v].outputs@.len() implies ranks_before(
                patterns,
                #[trigger] nodes2[v].outputs@[a],
                #[trigger] nodes2[v].outputs@[b],
            ) by {
                assert(nodes2[v].outputs@[a] == was[a]);
                if b < was.len() {
                    assert(nodes2[v].outputs@[b] == was[b]);
                }
            }
        } else {
            assert(nodes2[v] == nodes[v]);
        }
    }
    assert forall|v: int| 0 <= v < nodes2.len() implies #[trigger] own_only(
        nodes2,
        strs,
        patterns,
        v,
        i + 1,
    ) by {
        assert(own_only(nodes, strs, patterns, v, i as int));
        if v == cur {
            let was = nodes[cur].outputs@;
            assert forall|k: int| 0 <= k < nodes2[v].outputs@.len() implies (
            #[trigger] nodes2[v].outputs@[k]) < i + 1 && patterns[nodes2[v].outputs@[k] as int].len()
                == strs[v].len() by {
                if k < was.len() {
                    assert(nodes2[v].outputs@[k] == was[k]);
                }
            }
        } else {
            assert(nodes2[v] == nodes[v]);
        }
    }
}

/// The outputs of a state that are as long as its text, with the outputs of a
/// state with a shorter text behind them, are in their order.
proof fn lemma_rank_joined(
    before: Seq<Node>,
    after: Seq<Node>,
    strs: Seq<Seq<char>>,
    patterns: Seq<Seq<char>>,
    child: int,
    nxt: int,
)
    requires
        all_ranked(before, patterns),
        outputs_ok(before, strs, patterns),
        after.len() == before.len(),
        0 <= child < before.len(),
        0 <= nxt < before.len(),
        own_only(before, strs, patterns, child, patterns.len() as int),
        strs[nxt].len() < strs[child].len(),
        forall|v: int| 0 <= v < before.len() && v != child ==> #[trigger] after[v] == before[v],
        after[child].outputs@ == before[child].outputs@ + before[nxt].outputs@,
    ensures
        all_ranked(after, patterns),
{
    assert forall|v: int| 0 <= v < after.len() implies #[trigger] ranked(after, patterns, v) by {
        assert(ranked(before, patterns, v));
        if v == child {
            let own = before[child].outputs@;
            let ext = before[nxt].outputs@;
            assert(ranked(before, patterns, nxt));
            assert forall|a: int, b: int| 0 <= a < b < after[v].outputs@.len() implies ranks_before(
                patterns,
                #[trigger] after[v].outputs@[a],
                #[trigger] after[v].outputs@[b],
            ) by {
                if b < own.len() {
                    assert(after[v].outputs@[a] == own[a]);
                    assert(after[v].outputs@[b] == own[b]);
                } else if a < own.len() {
                    assert(after[v].outputs@[a] == own[a]);
                    assert(after[v].outputs@[b] == ext[b - own.len()]);
                    assert(is_suffix(patterns[ext[b - own.len()] as int], strs[nxt]));
                } else {
                    assert(after[v].outputs@[a] == ext[a - own.len()]);
                    assert(after[v].outputs@[b] == ext[b - own.len()]);
                }
            }
        } else {
            assert(after[v] == before[v]);
        }
    }
}

/// The letter with the number `c`, counted from `a`.
pub open spec fn letter_spec(c: int) -> char {
    (97 + c) as char
}

/// The letter with the number `c`, counted from `a`.
fn letter(c: usize) -> (ch: char)
    requires
        c < 26,
    ensures
        ch == letter_spec(c as int),
{
    (97u8 + c as u8) as char
}

/// One state of the automaton: a beginning of a pattern.
pub struct Node {
    /// The states that one more character leads to, each with the character.
    children: Vec<(char, usize)>,
    /// The state of the longest proper end of this state that is a state.
    failure: usize,
    /// The patterns that end where this state is reached.
    pub outputs: Vec<usize>,
}

impl Node {
    fn new() -> (node: Self)
        ensures
            node.children@.len() == 0,
            node.failure == 0,
            node.outputs@.len() == 0,
    {
        Self { children: Vec::new(), failure: 0, outputs: Vec::new() }
    }
}

/// The children of a state lead to the states of its text with one more
/// character, each character to one state.
spec fn children_ok(nodes: Seq<Node>, strs: Seq<Seq<char>>, v: int) -> bool {
    &&& forall|k: int|
        0 <= k < nodes[v].children@.len() ==> {
            let e = #[trigger] nodes[v].children@[k];
            &&& 0 < e.1 < nodes.len()
            &&& strs[e.1 as int] == strs[v].push(e.0)
        }
    &&& forall|k1: int, k2: int|
        0 <= k1 < k2 < nodes[v].children@.len() ==> (#[trigger] nodes[v].children@[k1]).0 != (
        #[trigger] nodes[v].children@[k2]).0
}

/// Every state but the first is the child of the state of its text without
/// the last character.
spec fn parent_ok(nodes: Seq<Node>, strs: Seq<Seq<char>>, w: int) -> bool {
    &&& strs[w].len() > 0
    &&& exists|v: int, k: int|
        0 <= v < nodes.len() && 0 <= k < nodes[v].children@.len() && #[trigger] nodes[v].children@[k]
            == (strs[w].last(), w as usize) && strs[v] == strs[w].drop_last()
}

/// The states form a trie: each has a text of its own, the first the empty
/// one, and the children lead from a text to the texts with one more character.
spec fn trie_ok(nodes: Seq<Node>, strs: Seq<Seq<char>>) -> bool {
    &&& nodes.len() == strs.len()
    &&& nodes.len() >= 1
    &&& nodes.len() <= usize::MAX
    &&& strs[0].len() == 0
    &&& forall|v: int, w: int| 0 <= v < w < strs.len() ==> #[trigger] strs[v] != #[trigger] strs[w]
    &&& forall|v: int| 0 <= v < nodes.len() ==> #[trigger] children_ok(nodes, strs, v)
    &&& forall|w: int| 0 < w < nodes.len() ==> #[trigger] parent_ok(nodes, strs, w)
}

/// The failure link of every state leads to a state whose text is a proper
/// end of its own text; that of the first state leads to itself.
spec fn failure_ok(nodes: Seq<Node>, strs: Seq<Seq<char>>) -> bool {
    &&& nodes[0].failure == 0
    &&& forall|v: int|
        0 < v < nodes.len() ==> {
            let f = (#[trigger] nodes[v]).failure as int;
            &&& 0 <= f < nodes.len()
            &&& is_suffix(strs[f], strs[v])
            &&& strs[f].len() < strs[v].len()
        }
}

/// Every pattern among the outputs of a state is an end of the text of the
/// state.
spec fn outputs_ok(nodes: Seq<Node>, strs: Seq<Seq<char>>, patterns: Seq<Seq<char>>) -> bool {
    forall|v: int, k: int|
        0 <= v < nodes.len() && 0 <= k < nodes[v].outputs@.len() ==> {
            let i = #[trigger] nodes[v].outputs@[k];
            &&& i < patterns.len()
            &&& is_suffix(patterns[i as int], strs[v])
        }
}

/// The text `x` leads to a state.
spec fn is_state(strs: Seq<Seq<char>>, x: Seq<char>) -> bool {
    exists|v: int| 0 <= v < strs.len() && #[trigger] strs[v] == x
}

/// Every beginning of each of the first `upto` patterns leads to a state.
spec fn prefixes_ok(strs: Seq<Seq<char>>, patterns: Seq<Seq<char>>, upto: int) -> bool {
    forall|i: int, k: int|
        0 <= i < upto && 0 <= k <= patterns[i].len() ==> is_state(
            strs,
            #[trigger] patterns[i].take(k),
        )
}

/// Each of the first `upto` patterns is among the outputs of the state that
/// it leads to.
spec fn own_ok(nodes: Seq<Node>, strs: Seq<Seq<char>>, patterns: Seq<Seq<char>>, upto: int) -> bool {
    forall|i: int, v: int|
        0 <= i < upto && 0 <= v < nodes.len() && #[trigger] strs[v] == #[trigger] patterns[i]
            ==> nodes[v].outputs@.contains(i as usize)
}

/// The failure link of the state `v` leads to the longest proper end of its
/// text that leads to a state.
spec fn fmax(nodes: Seq<Node>, strs: Seq<Seq<char>>, v: int) -> bool {
    forall|z: int|
        0 <= z < nodes.len() && is_suffix(#[trigger] strs[z], strs[v]) && strs[z].len()
            < strs[v].len() ==> strs[z].len() <= strs[nodes[v].failure as int].len()
}

/// `fmax` holds of every state with a text of at most `d` characters.
spec fn fmax_upto(nodes: Seq<Node>, strs: Seq<Seq<char>>, d: int) -> bool {
    forall|v: int| 0 <= v < nodes.len() && strs[v].len() <= d ==> #[trigger] fmax(nodes, strs, v)
}

/// The state `z` has a child for the character `ch`.
spec fn has_child(nodes: Seq<Node>, z: int, ch: char) -> bool {
    exists|k: int| 0 <= k < nodes[z].children@.len() && (#[trigger] nodes[z].children@[k]).0 == ch
}

/// The text of the state `r` is the longest end of `x` that leads to a state.
spec fn longest(strs: Seq<Seq<char>>, r: int, x: Seq<char>) -> bool {
    &&& is_suffix(strs[r], x)
    &&& forall|y: int|
        0 <= y < strs.len() && is_suffix(#[trigger] strs[y], x) ==> strs[y].len() <= strs[r].len()
}

/// No state whose text is an end of the text of `v` and which has a child for
/// `ch` has a longer text than the state `c`.
spec fn bound_ok(nodes: Seq<Node>, strs: Seq<Seq<char>>, v: int, ch: char, c: int) -> bool {
    forall|z: int|
        0 <= z < nodes.len() && is_suffix(#[trigger] strs[z], strs[v]) && has_child(nodes, z, ch)
            ==> strs[z].len() <= strs[c].len()
}

/// Every pattern that is not empty and an end of the text of the state `v` is
/// among the outputs of `v`.
spec fn outfull(nodes: Seq<Node>, strs: Seq<Seq<char>>, patterns: Seq<Seq<char>>, v: int) -> bool {
    forall|i: int|
        0 <= i < patterns.len() && patterns[i].len() > 0 && is_suffix(
            #[trigger] patterns[i],
            strs[v],
        ) ==> nodes[v].outputs@.contains(i as usize)
}

/// The state `v` has its failure link and its outputs.
spec fn done(nodes: Seq<Node>, strs: Seq<Seq<char>>, patterns: Seq<Seq<char>>, v: int) -> bool {
    fmax(nodes, strs, v) && outfull(nodes, strs, patterns, v)
}

/// The state `x` is in the queue.
spec fn queued(que: Seq<usize>, x: usize) -> bool {
    exists|j: int| 0 <= j < que.len() && #[trigger] que[j] == x
}

/// The number of characters of the text of the state at the place `i` of the
/// queue.
spec fn depth_at(strs: Seq<Seq<char>>, que: Seq<usize>, i: int) -> int {
    strs[que[i] as int].len() as int
}

/// The queue holds the states in the order of the lengths of their texts, the
/// last at most one character longer than the one at `head`; it holds the
/// children of the states before `head` and the first `k` children of the
/// state at `head`; and every state in it has its failure link and outputs.
#[verifier::opaque]
spec fn levels(
    nodes: Seq<Node>,
    strs: Seq<Seq<char>>,
    patterns: Seq<Seq<char>>,
    que: Seq<usize>,
    head: int,
    k: int,
) -> bool {
    &&& forall|i: int, j: int|
        0 <= i <= j < que.len() ==> #[trigger] depth_at(strs, que, i) <= #[trigger] depth_at(
            strs,
            que,
            j,
        )
    &&& head < que.len() ==> depth_at(strs, que, que.len() - 1) <= depth_at(strs, que, head) + 1
    &&& forall|i: int, e: int|
        0 <= i < que.len() && i <= head && 0 <= e < nodes[que[i] as int].children@.len() && (i
            < head || e < k) ==> queued(que, #[trigger] nth_child(nodes, que[i] as int, e))
    &&& forall|j: int| 0 <= j < que.len() ==> done(nodes, strs, patterns, #[trigger] que[j] as int)
}

/// The automaton of Aho and Corasick for a list of patterns, which finds all
/// places of a text where one of the patterns stands.
pub struct AhoCorasick {
    pub nodes: Vec<Node>,
    patterns: Vec<Vec<char>>,
    goto: Vec<Vec<usize>>,
    strs: Ghost<Seq<Seq<char>>>,
}

/// The characters of each pattern.
spec fn views(patterns: Seq<Vec<char>>) -> Seq<Seq<char>> {
    patterns.map_values(|p: Vec<char>| p@)
}

impl AhoCorasick {
    /// The patterns, each as its characters.
    pub closed spec fn patterns(&self) -> Seq<Seq<char>> {
        views(self.patterns@)
    }

    /// The number of states.
    pub closed spec fn size(&self) -> nat {
        self.nodes@.len()
    }

    /// The text that leads to the state `v`.
    pub closed spec fn text_of(&self, v: int) -> Seq<char> {
        self.strs@[v]
    }

    /// The trie with its failure links and outputs is in order.
    spec fn links_ok(&self) -> bool {
        &&& trie_ok(self.nodes@, self.strs@)
        &&& failure_ok(self.nodes@, self.strs@)
        &&& outputs_ok(self.nodes@, self.strs@, views(self.patterns@))
        &&& prefixes_ok(self.strs@, views(self.patterns@), self.patterns@.len() as int)
        &&& all_ranked(self.nodes@, views(self.patterns@))
        &&& forall|v: int|
            0 <= v < self.nodes@.len() ==> #[trigger] done(
                self.nodes@,
                self.strs@,
                views(self.patterns@),
                v,
            )
    }

    /// The representation invariant.
    pub closed spec fn wf(&self) -> bool {
        &&& self.links_ok()
        &&& self.goto@.len() == self.nodes@.len()
        &&& forall|v: int| 0 <= v < self.goto@.len() ==> #[trigger] self.row_ok(v)
    }

    /// The row of the table of transitions for the state `v` holds, for each
    /// of the letters `a` to `z`, a state whose text is an end of the text of
    /// `v` with that letter.
    spec fn row_ok(&self, v: int) -> bool {
        &&& self.goto@[v]@.len() == 26
        &&& forall|c: int|
            0 <= c < 26 ==> (#[trigger] self.goto@[v]@[c]) < self.nodes@.len() && longest(
                self.strs@,
                self.goto@[v]@[c] as int,
                self.strs@[v].push(letter_spec(c)),
            )
    }

    /// The state `v` is the one that the text `x` leads to: its text is the
    /// longest end of `x` that is the beginning of a pattern.
    pub closed spec fn leads_to(&self, x: Seq<char>, v: int) -> bool {
        0 <= v < self.nodes@.len() && longest(self.strs@, v, x)
    }

    /// The row of the table of transitions for the state `v`.
    pub closed spec fn row(&self, v: int) -> Seq<usize> {
        self.goto@[v]@
    }

    /// The child of the state `v` for the character `ch`.
    fn child(&self, v: usize, ch: char) -> (r: Option<usize>)
        requires
            trie_ok(self.nodes@, self.strs@),
            v < self.nodes@.len(),
        ensures
            match r {
                Some(w) => 0 < w < self.nodes@.len() && self.strs@[w as int] == self.strs@[v as int].push(
                    ch,
                ) && exists|k: int|
                    0 <= k < self.nodes@[v as int].children@.len()
                        && #[trigger] self.nodes@[v as int].children@[k] == (ch, w),
                None => forall|k: int|
                    0 <= k < self.nodes@[v as int].children@.len() ==> (
                    #[trigger] self.nodes@[v as int].children@[k]).0 != ch,
            },
    {
        proof {
            assert(children_ok(self.nodes@, self.strs@, v as int));
        }
        let mut k: usize = 0;
        while k < self.nodes[v].children.len()
            invariant
                v < self.nodes@.len(),
                k <= self.nodes@[v as int].children@.len(),
                children_ok(self.nodes@, self.strs@, v as int),
                forall|j: int| 0 <= j < k ==> (#[trigger] self.nodes@[v as int].children@[j]).0 != ch,
            decreases self.nodes@[v as int].children@.len() - k,
        {
            let e = self.nodes[v].children[k];
            if e.0 == ch {
                return Some(e.1);
            }
            k += 1;
        }
        None
    }

    /// Puts the patterns into the trie.
    fn build_trie(&mut self)
        requires
            old(self).nodes@.len() == 1,
            old(self).nodes@[0].children@.len() == 0,
            old(self).nodes@[0].failure == 0,
            old(self).nodes@[0].outputs@.len() == 0,
            old(self).strs@ == seq![Seq::<char>::empty()],
        ensures
            final(self).patterns == old(self).patterns,
            final(self).goto == old(self).goto,
            trie_ok(final(self).nodes@, final(self).strs@),
            outputs_ok(final(self).nodes@, final(self).strs@, views(final(self).patterns@)),
            prefixes_ok(
                final(self).strs@,
                views(final(self).patterns@),
                final(self).patterns@.len() as int,
            ),
            own_ok(
                final(self).nodes@,
                final(self).strs@,
                views(final(self).patterns@),
                final(self).patterns@.len() as int,
            ),
            forall|v: int| 0 <= v < final(self).nodes@.len() ==> (#[trigger] final(self).nodes@[v]).failure == 0,
            all_ranked(final(self).nodes@, views(final(self).patterns@)),
            all_own(
                final(self).nodes@,
                final(self).strs@,
                views(final(self).patterns@),
                final(self).patterns@.len() as int,
            ),
    {
        proof {
            assert(children_ok(self.nodes@, self.strs@, 0));
            assert(trie_ok(self.nodes@, self.strs@));
            assert(ranked(self.nodes@, views(self.patterns@), 0));
            assert(own_only(self.nodes@, self.strs@, views(self.patterns@), 0, 0));
        }
        let mut pattern_idx: usize = 0;
        while pattern_idx < self.patterns.len()
            invariant
                self.patterns == old(self).patterns,
                self.goto == old(self).goto,
                pattern_idx <= self.patterns@.len(),
                trie_ok(self.nodes@, self.strs@),
                outputs_ok(self.nodes@, self.strs@, views(self.patterns@)),
                prefixes_ok(self.strs@, views(self.patterns@), pattern_idx as int),
                own_ok(self.nodes@, self.strs@, views(self.patterns@), pattern_idx as int),
                all_ranked(self.nodes@, views(self.patterns@)),
                all_own(self.nodes@, self.strs@, views(self.patterns@), pattern_idx as int),
                forall|v: int| 0 <= v < self.nodes@.len() ==> (#[trigger] self.nodes@[v]).failure == 0,
            decreases self.patterns@.len() - pattern_idx,
        {
            let mut cur: usize = 0;
            let mut j: usize = 0;
            let ghost pattern = self.patterns@[pattern_idx as int]@;
            proof {
                assert(pattern.take(0) =~= Seq::<char>::empty());
                assert(self.strs@[0] =~= Seq::<char>::empty());
                assert(self.strs@[0] == pattern.take(0));
                assert(is_state(self.strs@, pattern.take(0)));
            }
            while j < self.patterns[pattern_idx].len()
                invariant
                    self.patterns == old(self).patterns,
                    self.goto == old(self).goto,
                    pattern_idx < self.patterns@.len(),
                    pattern == self.patterns@[pattern_idx as int]@,
                    j <= pattern.len(),
                    cur < self.nodes@.len(),
                    self.strs@[cur as int] == pattern.take(j as int),
                    trie_ok(self.nodes@, self.strs@),
                    outputs_ok(self.nodes@, self.strs@, views(self.patterns@)),
                    prefixes_ok(self.strs@, views(self.patterns@), pattern_idx as int),
                    own_ok(self.nodes@, self.strs@, views(self.patterns@), pattern_idx as int),
                    all_ranked(self.nodes@, views(self.patterns@)),
                    all_own(self.nodes@, self.strs@, views(self.patterns@), pattern_idx as int),
                    forall|k: int| 0 <= k <= j ==> is_state(self.strs@, #[trigger] pattern.take(k)),
                    forall|v: int| 0 <= v < self.nodes@.len() ==> (#[trigger] self.nodes@[v]).failure == 0,
                decreases pattern.len() - j,
            {
                let ch = self.patterns[pattern_idx][j];
                proof {
                    assert(pattern.take(j + 1) =~= pattern.take(j as int).push(ch));
                }
                let nxt = match self.child(cur, ch) {
                    Some(nxt) => nxt,
                    None => {
                        let new_idx = self.nodes.len();
                        let ghost old_nodes = self.nodes@;
                        let ghost old_strs = self.strs@;
                        let ghost text = old_strs[cur as int].push(ch);
                        proof {
                            lemma_fresh_text(old_nodes, old_strs, cur as int, ch);
                        }
                        self.nodes.push(Node::new());
                        self.nodes[cur].children.push((ch, new_idx));
                        proof {
                            self.strs@ = old_strs.push(text);
                            assert(self.nodes.len() == self.nodes@.len());
                            lemma_trie_grows(old_nodes, old_strs, self.nodes@, self.strs@, cur as int, ch, new_idx);
                            lemma_outputs_stay(
                                old_nodes,
                                old_strs,
                                self.nodes@,
                                self.strs@,
                                views(self.patterns@),
                            );
                            lemma_states_grow(
                                old_nodes,
                                old_strs,
                                self.nodes@,
                                self.strs@,
                                views(self.patterns@),
                                pattern_idx as int,
                            );
                            lemma_rank_stay(
                                old_nodes,
                                old_strs,
                                self.nodes@,
                                self.strs@,
                                views(self.patterns@),
                                pattern_idx as int,
                            );
                            assert forall|k: int| 0 <= k <= j implies is_state(
                                self.strs@,
                                #[trigger] pattern.take(k),
                            ) by {
                                assert(is_state(old_strs, pattern.take(k)));
                                let v = choose|v: int|
                                    0 <= v < old_strs.len() && #[trigger] old_strs[v] == pattern.take(
                                        k,
                                    );
                                assert(self.strs@[v] == pattern.take(k));
                            }
                        }
                        new_idx
                    },
                };
                proof {
                    assert(self.strs@[nxt as int] == pattern.take(j + 1));
                    assert(is_state(self.strs@, pattern.take(j + 1)));
                }
                cur = nxt;
                j += 1;
            }
            let ghost old_nodes = self.nodes@;
            self.nodes[cur].outputs.push(pattern_idx);
            proof {
                assert(pattern.take(pattern.len() as int) =~= pattern);
                assert(views(self.patterns@)[pattern_idx as int] == pattern);
                assert(self.strs@[cur as int].skip(0) =~= self.strs@[cur as int]);
                lemma_output_added(
                    old_nodes,
                    self.nodes@,
                    self.strs@,
                    views(self.patterns@),
                    cur as int,
                    pattern_idx,
                );
                lemma_trie_same(old_nodes, self.nodes@, self.strs@);
                lemma_rank_pushed(
                    old_nodes,
                    self.nodes@,
                    self.strs@,
                    views(self.patterns@),
                    cur as int,
                    pattern_idx,
                );
                lemma_pattern_done(
                    old_nodes,
                    self.nodes@,
                    self.strs@,
                    views(self.patterns@),
                    pattern_idx as int,
                    cur as int,
                );
            }
            pattern_idx += 1;
        }
    }

    /// The state that the character `ch` leads to from the state `v`: along
    /// the failure links from `v` the first state with a child for `ch` gives
    /// that child; without one it is the first state.
    fn step(&self, v: usize, ch: char) -> (r: usize)
        requires
            trie_ok(self.nodes@, self.strs@),
            failure_ok(self.nodes@, self.strs@),
            v < self.nodes@.len(),
        ensures
            r < self.nodes@.len(),
            is_suffix(self.strs@[r as int], self.strs@[v as int].push(ch)),
            r != 0 ==> exists|z: int|
                0 <= z < self.nodes@.len() && is_suffix(self.strs@[z], self.strs@[v as int])
                    && #[trigger] self.strs@[z].push(ch) == self.strs@[r as int],
            fmax_upto(self.nodes@, self.strs@, self.strs@[v as int].len() as int) ==> longest(
                self.strs@,
                r as int,
                self.strs@[v as int].push(ch),
            ),
    {
        let mut cur = v;
        let ghost full = fmax_upto(self.nodes@, self.strs@, self.strs@[v as int].len() as int);
        proof {
            lemma_suffix_self(self.strs@[v as int]);
        }
        loop
            invariant
                trie_ok(self.nodes@, self.strs@),
                failure_ok(self.nodes@, self.strs@),
                v < self.nodes@.len(),
                cur < self.nodes@.len(),
                is_suffix(self.strs@[cur as int], self.strs@[v as int]),
                full == fmax_upto(self.nodes@, self.strs@, self.strs@[v as int].len() as int),
                full ==> bound_ok(self.nodes@, self.strs@, v as int, ch, cur as int),
            decreases self.strs@[cur as int].len(),
        {
            match self.child(cur, ch) {
                Some(nxt) => {
                    proof {
                        lemma_suffix_push(self.strs@[cur as int], self.strs@[v as int], ch);
                        if full {
                            lemma_step_found(
                                self.nodes@,
                                self.strs@,
                                v as int,
                                cur as int,
                                ch,
                                nxt as int,
                            );
                        }
                    }
                    return nxt;
                },
                None => {
                    if cur == 0 {
                        proof {
                            lemma_suffix_empty(self.strs@[0], self.strs@[v as int].push(ch));
                            if full {
                                lemma_step_root(self.nodes@, self.strs@, v as int, ch);
                            }
                        }
                        return 0;
                    }
                    proof {
                        lemma_suffix_trans(
                            self.strs@[self.nodes@[cur as int].failure as int],
                            self.strs@[cur as int],
                            self.strs@[v as int],
                        );
                        if full {
                            assert(fmax(self.nodes@, self.strs@, cur as int));
                            lemma_step_down(self.nodes@, self.strs@, v as int, cur as int, ch);
                        }
                    }
                    cur = self.nodes[cur].failure;
                },
            }
        }
    }

    /// Sets the failure link of every state, and adds to its outputs those of
    /// the state that the link leads to.
    fn build_failure(&mut self)
        requires
            trie_ok(old(self).nodes@, old(self).strs@),
            outputs_ok(old(self).nodes@, old(self).strs@, views(old(self).patterns@)),
            prefixes_ok(
                old(self).strs@,
                views(old(self).patterns@),
                old(self).patterns@.len() as int,
            ),
            own_ok(
                old(self).nodes@,
                old(self).strs@,
                views(old(self).patterns@),
                old(self).patterns@.len() as int,
            ),
            forall|v: int| 0 <= v < old(self).nodes@.len() ==> (#[trigger] old(self).nodes@[v]).failure == 0,
            all_ranked(old(self).nodes@, views(old(self).patterns@)),
            all_own(
                old(self).nodes@,
                old(self).strs@,
                views(old(self).patterns@),
                old(self).patterns@.len() as int,
            ),
        ensures
            final(self).patterns == old(self).patterns,
            final(self).goto == old(self).goto,
            final(self).strs == old(self).strs,
            final(self).nodes@.len() == old(self).nodes@.len(),
            final(self).links_ok(),
    {
        let ghost strs = self.strs@;
        let ghost patterns = views(self.patterns@);
        let n = self.nodes.len();
        let mut que: VecDeque<usize> = VecDeque::new();
        que.push_back(0);
        let ghost mut all: Seq<usize> = Seq::<usize>::empty().push(0usize);
        let ghost mut head: int = 0;
        proof {
            assert(failure_ok(self.nodes@, strs)) by {
                assert forall|v: int| 0 < v < self.nodes@.len() implies {
                    let f = (#[trigger] self.nodes@[v]).failure as int;
                    &&& 0 <= f < self.nodes@.len()
                    &&& is_suffix(strs[f], strs[v])
                    &&& strs[f].len() < strs[v].len()
                } by {
                    assert(parent_ok(self.nodes@, strs, v));
                    lemma_suffix_empty(strs[0], strs[v]);
                }
            }
            assert(queue_ok(self.nodes@, strs, all, 0, 0)) by {
                reveal(queue_ok);
            }
            lemma_levels_start(self.nodes@, strs, patterns, all);
        }
        proof {
            assert(que@ =~= all.subrange(head, all.len() as int));
        }
        loop
            invariant
                que@ == all.subrange(head, all.len() as int),
                0 <= head,
                self.patterns == old(self).patterns,
                self.goto == old(self).goto,
                self.strs@ == strs,
                patterns == views(self.patterns@),
                n == self.nodes@.len(),
                n == old(self).nodes@.len(),
                trie_ok(self.nodes@, strs),
                failure_ok(self.nodes@, strs),
                outputs_ok(self.nodes@, strs, patterns),
                prefixes_ok(strs, patterns, patterns.len() as int),
                own_ok(self.nodes@, strs, patterns, patterns.len() as int),
                head <= all.len(),
                queue_ok(self.nodes@, strs, all, head, 0),
                levels(self.nodes@, strs, patterns, all, head, 0),
                all_ranked(self.nodes@, patterns),
                forall|v: int|
                    0 <= v < n && !queued(all, v as usize) ==> #[trigger] own_only(
                        self.nodes@,
                        strs,
                        patterns,
                        v,
                        patterns.len() as int,
                    ),
                forall|v: int|
                    0 <= v < n && !queued(all, v as usize) ==> (#[trigger] self.nodes@[v]).failure
                        == 0,
                forall|v: int|
                    0 <= v < n ==> (#[trigger] self.nodes@[v]).children == old(self).nodes@[v].children,
            ensures
                head == all.len(),
            decreases n - head,
        {
            let cur = match que.pop_front() {
                Some(cur) => cur,
                None => {
                    break ;
                },
            };
            proof {
                assert(cur == all[head]);
                assert(que@ =~= all.subrange(head + 1, all.len() as int));
                lemma_queue_short(self.nodes@, strs, all, head, 0);
                assert(cur < n) by {
                    reveal(queue_ok);
                }
            }
            let mut k: usize = 0;
            while k < self.nodes[cur].children.len()
                invariant
                    que@ == all.subrange(head + 1, all.len() as int),
                    0 <= head,
                    self.patterns == old(self).patterns,
                    self.goto == old(self).goto,
                    self.strs@ == strs,
                    patterns == views(self.patterns@),
                    n == self.nodes@.len(),
                    n == old(self).nodes@.len(),
                    trie_ok(self.nodes@, strs),
                    failure_ok(self.nodes@, strs),
                    outputs_ok(self.nodes@, strs, patterns),
                    prefixes_ok(strs, patterns, patterns.len() as int),
                    own_ok(self.nodes@, strs, patterns, patterns.len() as int),
                    head < all.len(),
                    cur == all[head],
                    cur < n,
                    k <= self.nodes@[cur as int].children@.len(),
                    queue_ok(self.nodes@, strs, all, head, k as int),
                    levels(self.nodes@, strs, patterns, all, head, k as int),
                    all_ranked(self.nodes@, patterns),
                    forall|v: int|
                        0 <= v < n && !queued(all, v as usize) ==> #[trigger] own_only(
                            self.nodes@,
                            strs,
                            patterns,
                            v,
                            patterns.len() as int,
                        ),
                    forall|v: int|
                        0 <= v < n && !queued(all, v as usize) ==> (
                        #[trigger] self.nodes@[v]).failure == 0,
                    forall|v: int|
                        0 <= v < n ==> (#[trigger] self.nodes@[v]).children == old(self).nodes@[v].children,
                decreases self.nodes@[cur as int].children@.len() - k,
            {
                let (ch, child) = self.nodes[cur].children[k];
                let ghost before = self.nodes@;
                let ghost old_que = all;
                proof {
                    assert(children_ok(before, strs, cur as int));
                    assert(before[cur as int].children@[k as int] == (ch, child));
                    lemma_queue_push(before, strs, old_que, head, k as int);
                    lemma_shallow_done(before, strs, patterns, old_que, head, k as int);
                    lemma_fresh_in_queue(before, strs, old_que, head, k as int);
                    assert(done(before, strs, patterns, cur as int));
                }
                let failure_node = self.nodes[cur].failure;
                proof {
                    if cur != 0 {
                        assert(strs[failure_node as int].len() < strs[cur as int].len());
                    }
                    assert(fmax_upto(before, strs, strs[failure_node as int].len() as int)) by {
                        assert forall|v: int|
                            0 <= v < before.len() && strs[v].len()
                                <= strs[failure_node as int].len() implies #[trigger] fmax(
                            before,
                            strs,
                            v,
                        ) by {
                            assert(done(before, strs, patterns, v));
                        }
                    }
                }
                let nxt = self.step(failure_node, ch);
                proof {
                    lemma_link_longest(before, strs, cur as int, ch, child as int, nxt as int);
                    if nxt != child && nxt != 0 {
                        assert(done(before, strs, patterns, nxt as int)) by {
                            if cur == 0 {
                                assert(strs[nxt as int].len() <= 1);
                                lemma_suffix_self(strs[child as int]);
                                lemma_suffix_of_suffix(
                                    strs[nxt as int],
                                    strs[child as int],
                                    strs[child as int],
                                );
                                if nxt < child {
                                    assert(strs[nxt as int] != strs[child as int]);
                                } else {
                                    assert(strs[child as int] != strs[nxt as int]);
                                }
                            }
                            assert(strs[nxt as int].len() <= strs[cur as int].len());
                        }
                    }
                }
                if nxt != child && nxt != 0 {
                    proof {
                        lemma_link_proper(before, strs, cur as int, ch, child as int, nxt as int);
                    }
                    self.nodes[child].failure = nxt;
                    let mut j: usize = 0;
                    let ghost mid = self.nodes@;
                    proof {
                        lemma_trie_same(before, mid, strs);
                        lemma_failure_set(before, mid, strs, child as int, nxt as int);
                        lemma_outputs_same(before, mid, strs, patterns);
                        assert(mid[child as int].outputs@ + before[nxt as int].outputs@.take(0)
                            =~= mid[child as int].outputs@);
                    }
                    while j < self.nodes[nxt].outputs.len()
                        invariant
                            self.patterns == old(self).patterns,
                            self.goto == old(self).goto,
                            self.strs@ == strs,
                            patterns == views(self.patterns@),
                            n == self.nodes@.len(),
                            n == before.len(),
                            child < n,
                            nxt < n,
                            child != nxt,
                            j <= self.nodes@[nxt as int].outputs@.len(),
                            is_suffix(strs[nxt as int], strs[child as int]),
                            trie_ok(self.nodes@, strs),
                            failure_ok(self.nodes@, strs),
                            outputs_ok(self.nodes@, strs, patterns),
                            forall|v: int|
                                0 <= v < n && v != child ==> #[trigger] self.nodes@[v] == before[v],
                            self.nodes@[child as int].children == before[child as int].children,
                            self.nodes@[child as int].failure == nxt,
                            self.nodes@[child as int].outputs@ == before[child as int].outputs@
                                + before[nxt as int].outputs@.take(j as int),
                        decreases self.nodes@[nxt as int].outputs@.len() - j,
                    {
                        let ghost prev = self.nodes@;
                        let x = self.nodes[nxt].outputs[j];
                        proof {
                            assert(prev[nxt as int] == before[nxt as int]);
                            assert(is_suffix(patterns[x as int], strs[nxt as int]));
                            lemma_suffix_trans(
                                patterns[x as int],
                                strs[nxt as int],
                                strs[child as int],
                            );
                        }
                        self.nodes[child].outputs.push(x);
                        proof {
                            lemma_output_added(prev, self.nodes@, strs, patterns, child as int, x);
                            lemma_trie_same(prev, self.nodes@, strs);
                            lemma_failure_same(prev, self.nodes@, strs);
                            assert(before[nxt as int].outputs@.take(j + 1)
                                =~= before[nxt as int].outputs@.take(j as int).push(x));
                            assert(self.nodes@[child as int].outputs@ =~= before[child as int].outputs@
                                + before[nxt as int].outputs@.take(j + 1));
                        }
                        j += 1;
                    }
                    proof {
                        assert(before[nxt as int].outputs@.take(j as int)
                            =~= before[nxt as int].outputs@);
                    }
                }
                proof {
                    let after = self.nodes@;
                    assert(before[child as int].failure == 0);
                    assert(own_only(before, strs, patterns, child as int, patterns.len() as int));
                    if nxt != child && nxt != 0 {
                        lemma_rank_joined(before, after, strs, patterns, child as int, nxt as int);
                    }
                    lemma_child_done(
                        before,
                        after,
                        strs,
                        patterns,
                        cur as int,
                        ch,
                        child as int,
                        nxt as int,
                    );
                    assert forall|v: int| 0 <= v < n implies (#[trigger] after[v]).children
                        == before[v].children by {
                        if v != child {
                            assert(after[v] == before[v]);
                        }
                    }
                    lemma_levels_push(
                        before,
                        after,
                        strs,
                        patterns,
                        old_que,
                        head,
                        k as int,
                    );
                    lemma_queue_same(before, after, strs, old_que.push(child), head, k + 1);
                    lemma_own_grows(before, after, strs, patterns, child as int);
                }
                que.push_back(child);
                proof {
                    all = all.push(child);
                    assert(que@ =~= all.subrange(head + 1, all.len() as int));
                    assert forall|v: int|
                        0 <= v < n && !queued(all, v as usize) implies #[trigger] own_only(
                        self.nodes@,
                        strs,
                        patterns,
                        v,
                        patterns.len() as int,
                    ) by {
                        if v == child {
                            assert(all[old_que.len() as int] == child);
                        } else {
                            if queued(old_que, v as usize) {
                                let i = choose|i: int|
                                    0 <= i < old_que.len() && #[trigger] old_que[i] == v as usize;
                                assert(all[i] == v as usize);
                            }
                            assert(own_only(before, strs, patterns, v, patterns.len() as int));
                            assert(self.nodes@[v] == before[v]);
                        }
                    }
                    assert forall|v: int|
                        0 <= v < n && !queued(all, v as usize) implies (
                    #[trigger] self.nodes@[v]).failure == 0 by {
                        if v == child {
                            assert(all[old_que.len() as int] == child);
                        } else {
                            if queued(old_que, v as usize) {
                                let i = choose|i: int|
                                    0 <= i < old_que.len() && #[trigger] old_que[i] == v as usize;
                                assert(all[i] == v as usize);
                            }
                            assert(self.nodes@[v] == before[v]);
                        }
                    }
                }
                k += 1;
            }
            proof {
                lemma_queue_next(self.nodes@, strs, all, head);
                lemma_levels_next(self.nodes@, strs, patterns, all, head);
            }
            proof {
                head = head + 1;
            }
        }
        proof {
            assert forall|v: int| 0 <= v < self.nodes@.len() implies #[trigger] done(
                self.nodes@,
                strs,
                patterns,
                v,
            ) by {
                lemma_all_done(self.nodes@, strs, patterns, all, v);
            }
        }
    }

    /// Fills the table of transitions: for every state and each of the letters
    /// `a` to `z` the state that the letter leads to.
    fn build_goto(&mut self)
        requires
            old(self).links_ok(),
        ensures
            final(self).patterns == old(self).patterns,
            final(self).nodes == old(self).nodes,
            final(self).strs == old(self).strs,
            final(self).wf(),
    {
        let n = self.nodes.len();
        let mut table: Vec<Vec<usize>> = Vec::new();
        let mut node_id: usize = 0;
        while node_id < n
            invariant
                self.patterns == old(self).patterns,
                self.nodes == old(self).nodes,
                self.strs == old(self).strs,
                self.links_ok(),
                n == self.nodes@.len(),
                node_id <= n,
                table@.len() == node_id,
                forall|v: int|
                    0 <= v < node_id ==> (#[trigger] table@[v])@.len() == 26 && forall|c: int|
                        0 <= c < 26 ==> (#[trigger] table@[v]@[c]) < n && longest(
                            self.strs@,
                            table@[v]@[c] as int,
                            self.strs@[v].push(letter_spec(c)),
                        ),
            decreases n - node_id,
        {
            let mut row: Vec<usize> = Vec::new();
            let mut i: usize = 0;
            while i < 26
                invariant
                    self.links_ok(),
                    n == self.nodes@.len(),
                    node_id < n,
                    i <= 26,
                    row@.len() == i,
                    forall|c: int|
                        0 <= c < i ==> (#[trigger] row@[c]) < n && longest(
                            self.strs@,
                            row@[c] as int,
                            self.strs@[node_id as int].push(letter_spec(c)),
                        ),
                decreases 26 - i,
            {
                let c = letter(i);
                proof {
                    self.lemma_all_fmax(self.strs@[node_id as int].len() as int);
                }
                let nxt = self.step(node_id, c);
                row.push(nxt);
                i += 1;
            }
            table.push(row);
            node_id += 1;
        }
        self.goto = table;
        proof {
            assert forall|v: int| 0 <= v < self.goto@.len() implies #[trigger] self.row_ok(v) by {
                assert(self.goto@[v]@.len() == 26);
            }
        }
    }

    /// The automaton for `patterns`.
    pub fn new(patterns: &Vec<String>) -> (res: Self)
        ensures
            res.wf(),
            res.patterns() == patterns@.map_values(|p: String| p@),
    {
        let mut list: Vec<Vec<char>> = Vec::new();
        let mut i: usize = 0;
        while i < patterns.len()
            invariant
                i <= patterns@.len(),
                list@.len() == i,
                forall|j: int| 0 <= j < i ==> (#[trigger] list@[j])@ == patterns@[j]@,
            decreases patterns@.len() - i,
        {
            list.push(chars_of(&patterns[i]));
            i += 1;
        }
        let mut nodes: Vec<Node> = Vec::new();
        nodes.push(Node::new());
        let strs: Ghost<Seq<Seq<char>>> = Ghost(Seq::<Seq<char>>::empty().push(Seq::<char>::empty()));
        let mut res = Self { nodes, patterns: list, goto: Vec::new(), strs };
        proof {
            assert(res.strs@ =~= seq![Seq::<char>::empty()]);
        }
        res.build_trie();
        res.build_failure();
        res.build_goto();
        proof {
            assert(res.patterns() =~= patterns@.map_values(|p: String| p@));
        }
        res
    }

    /// Every state has the longest failure link.
    proof fn lemma_all_fmax(&self, d: int)
        requires
            self.links_ok(),
        ensures
            fmax_upto(self.nodes@, self.strs@, d),
    {
        assert forall|v: int|
            0 <= v < self.nodes@.len() && self.strs@[v].len() <= d implies #[trigger] fmax(
            self.nodes@,
            self.strs@,
            v,
        ) by {
            assert(done(self.nodes@, self.strs@, views(self.patterns@), v));
        }
    }

    /// The state that the character `ch` leads to from the state `cur`, which
    /// the text `x` leads to: the state that `x` with `ch` leads to.
    fn advance(&self, cur: usize, ch: char, x: Ghost<Seq<char>>) -> (r: usize)
        requires
            self.links_ok(),
            cur < self.nodes@.len(),
            longest(self.strs@, cur as int, x@),
        ensures
            r < self.nodes@.len(),
            longest(self.strs@, r as int, x@.push(ch)),
    {
        proof {
            self.lemma_all_fmax(self.strs@[cur as int].len() as int);
        }
        let r = self.step(cur, ch);
        proof {
            let strs = self.strs@;
            lemma_suffix_push(strs[cur as int], x@, ch);
            lemma_suffix_trans(strs[r as int], strs[cur as int].push(ch), x@.push(ch));
            assert forall|y: int|
                0 <= y < strs.len() && is_suffix(#[trigger] strs[y], x@.push(ch)) implies strs[y].len()
                <= strs[r as int].len() by {
                if strs[y].len() > 0 {
                    lemma_parent_has_child(self.nodes@, strs, y, x@, ch);
                    let z = choose|z: int|
                        0 <= z < self.nodes@.len() && #[trigger] strs[z] == strs[y].drop_last()
                            && has_child(self.nodes@, z, ch);
                    assert(strs[z].len() <= strs[cur as int].len());
                    lemma_suffix_of_suffix(strs[z], strs[cur as int], x@);
                    lemma_suffix_push(strs[z], strs[cur as int], ch);
                    assert(strs[z].push(ch) =~= strs[y]);
                }
            }
        }
        r
    }

    /// Every place of `s` where a pattern stands, as the number of the pattern
    /// and the position of its first character: every place of a pattern that
    /// is not empty is in the list, and everything in the list is such a place.
    /// The places come in the order of their ends; those that end together, the
    /// longer pattern first, and patterns of one length in the order of their
    /// numbers. No place is there twice.
    pub fn search(&self, s: &String) -> (res: Vec<(usize, usize)>)
        requires
            self.wf(),
            forall|i: int| 0 <= i < s@.len() ==> (#[trigger] s@[i]) as int <= 0x7f,
        ensures
            forall|k: int|
                0 <= k < res@.len() ==> is_match(
                    self.patterns(),
                    s@,
                    (#[trigger] res@[k]).0 as int,
                    res@[k].1 as int,
                ),
            forall|i: int, j: int|
                #[trigger] is_match(self.patterns(), s@, i, j) && self.patterns()[i].len() > 0
                    ==> res@.contains((i as usize, j as usize)),
            ends_ordered(self.patterns(), res@, s@.len() as int),
    {
        let text = chars_of(s);
        let mut res: Vec<(usize, usize)> = Vec::new();
        let mut cur: usize = 0;
        let mut p: usize = 0;
        let ghost patterns = self.patterns();
        proof {
            lemma_suffix_empty(self.strs@[0], text@.take(0));
            assert(longest(self.strs@, 0, text@.take(0)));
        }
        while p < text.len()
            invariant
                self.wf(),
                patterns == self.patterns(),
                text@ == s@,
                p <= text@.len(),
                cur < self.nodes@.len(),
                longest(self.strs@, cur as int, text@.take(p as int)),
                forall|k: int|
                    0 <= k < res@.len() ==> is_match(
                        patterns,
                        s@,
                        (#[trigger] res@[k]).0 as int,
                        res@[k].1 as int,
                    ),
                forall|i: int, j: int|
                    #[trigger] is_match(patterns, s@, i, j) && patterns[i].len() > 0 && j
                        + patterns[i].len() <= p ==> res@.contains((i as usize, j as usize)),
                ends_ordered(patterns, res@, p as int),
            decreases text@.len() - p,
        {
            let ch = text[p];
            proof {
                assert(text@.take(p + 1) =~= text@.take(p as int).push(ch));
            }
            cur = self.advance(cur, ch, Ghost(text@.take(p as int)));
            let ghost at_start = res@;
            let mut k: usize = 0;
            while k < self.nodes[cur].outputs.len()
                invariant
                    self.wf(),
                    patterns == self.patterns(),
                    text@ == s@,
                    p < text.len(),
                    cur < self.nodes@.len(),
                    k <= self.nodes@[cur as int].outputs@.len(),
                    longest(self.strs@, cur as int, text@.take(p + 1)),
                    forall|k: int|
                        0 <= k < res@.len() ==> is_match(
                            patterns,
                            s@,
                            (#[trigger] res@[k]).0 as int,
                            res@[k].1 as int,
                        ),
                    forall|e: (usize, usize)| at_start.contains(e) ==> res@.contains(e),
                    ends_ordered(patterns, res@, p + 1),
                    ends_ordered(patterns, at_start, p as int),
                    res@.len() == at_start.len() + k,
                    forall|a: int| 0 <= a < at_start.len() ==> #[trigger] res@[a] == at_start[a],
                    forall|e: int|
                        0 <= e < k ==> (#[trigger] res@[at_start.len() + e]).0
                            == self.nodes@[cur as int].outputs@[e] && end_of(
                            patterns,
                            res@[at_start.len() + e],
                        ) == p + 1,
                    forall|e: int|
                        0 <= e < k ==> res@.contains(
                            (
                                #[trigger] self.nodes@[cur as int].outputs@[e],
                                (p + 1 - patterns[self.nodes@[cur as int].outputs@[e] as int].len()) as usize,
                            ),
                        ),
                decreases self.nodes@[cur as int].outputs@.len() - k,
            {
                let pattern_idx = self.nodes[cur].outputs[k];
                proof {
                    let pat = views(self.patterns@)[pattern_idx as int];
                    assert(pattern_idx < self.patterns@.len() && is_suffix(
                        pat,
                        self.strs@[cur as int],
                    ));
                    lemma_suffix_trans(pat, self.strs@[cur as int], text@.take(p + 1));
                    assert(self.patterns@[pattern_idx as int]@ == pat);
                    assert(text@.subrange(p + 1 - pat.len(), p + 1) =~= text@.take(p + 1).skip(
                        p + 1 - pat.len(),
                    ));
                }
                let start = p + 1 - self.patterns[pattern_idx].len();
                let ghost sofar = res@;
                res.push((pattern_idx, start));
                proof {
                    assert forall|j: int| 0 <= j < res@.len() implies is_match(
                        patterns,
                        s@,
                        (#[trigger] res@[j]).0 as int,
                        res@[j].1 as int,
                    ) by {
                        if j < sofar.len() {
                            assert(res@[j] == sofar[j]);
                        }
                    }
                    assert forall|e: (usize, usize)| sofar.contains(e) implies res@.contains(e) by {
                        let i = choose|i: int| 0 <= i < sofar.len() && sofar[i] == e;
                        assert(res@[i] == e);
                    }
                    assert(res@[sofar.len() as int] == (pattern_idx, start));
                    assert(end_of(patterns, (pattern_idx, start)) == p + 1);
                    assert forall|a: int| 0 <= a < sofar.len() implies res@[a] == sofar[a] by {}
                    assert(ranked(self.nodes@, patterns, cur as int));
                    assert forall|e: int| 0 <= e < k + 1 implies (#[trigger] res@[at_start.len()
                        + e]).0 == self.nodes@[cur as int].outputs@[e] && end_of(
                        patterns,
                        res@[at_start.len() + e],
                    ) == p + 1 by {
                        if e < k {
                            assert(res@[at_start.len() + e] == sofar[at_start.len() + e]);
                        }
                    }
                    assert forall|a: int, b: int| 0 <= a < b < res@.len() implies listed_before(
                        patterns,
                        #[trigger] res@[a],
                        #[trigger] res@[b],
                    ) by {
                        if b < sofar.len() {
                            assert(listed_before(patterns, sofar[a], sofar[b]));
                        } else if a < at_start.len() {
                            assert(res@[a] == at_start[a]);
                            assert(end_of(patterns, at_start[a]) <= p);
                        } else {
                            let e = a - at_start.len();
                            assert(res@[at_start.len() + e].0 == self.nodes@[cur as int].outputs@[e]);
                            assert(ranks_before(
                                patterns,
                                self.nodes@[cur as int].outputs@[e],
                                self.nodes@[cur as int].outputs@[k as int],
                            ));
                        }
                    }
                }
                k += 1;
            }
            proof {
                let strs = self.strs@;
                assert(self.patterns@.len() == self.patterns.len());
                assert(patterns == views(self.patterns@));
                assert forall|i: int, j: int|
                    #[trigger] is_match(patterns, s@, i, j) && patterns[i].len() > 0 && j
                        + patterns[i].len() <= p + 1 implies res@.contains(
                    (i as usize, j as usize),
                ) by {
                    let pat = patterns[i];
                    if j + pat.len() <= p {
                        assert(at_start.contains((i as usize, j as usize)));
                    } else {
                        // the pattern ends with the character at `p`
                        assert(text@.take(p + 1).skip(p + 1 - pat.len()) =~= text@.subrange(
                            j,
                            j + pat.len(),
                        ));
                        assert(is_suffix(pat, text@.take(p + 1)));
                        assert(pat.take(pat.len() as int) =~= pat);
                        assert(is_state(strs, patterns[i].take(pat.len() as int)));
                        let z = choose|z: int| 0 <= z < strs.len() && #[trigger] strs[z] == pat;
                        assert(strs[z].len() <= strs[cur as int].len());
                        lemma_suffix_of_suffix(pat, strs[cur as int], text@.take(p + 1));
                        assert(done(self.nodes@, strs, views(self.patterns@), cur as int));
                        assert(self.nodes@[cur as int].outputs@.contains(i as usize));
                        let e = choose|e: int|
                            0 <= e < self.nodes@[cur as int].outputs@.len()
                                && self.nodes@[cur as int].outputs@[e] == i as usize;
                        assert(self.nodes@[cur as int].outputs@[e] as int == i);
                        assert(j == p + 1 - pat.len());
                        assert((p + 1 - patterns[self.nodes@[cur as int].outputs@[e] as int].len()) as usize
                            == j as usize);
                        assert(res@.contains(
                            (
                                self.nodes@[cur as int].outputs@[e],
                                (p + 1 - patterns[self.nodes@[cur as int].outputs@[e] as int].len()) as usize,
                            ),
                        ));
                    }
                }
            }
            p += 1;
        }
        res
    }

    /// The number of states.
    pub fn node_size(&self) -> (r: usize)
        ensures
            r == self.size(),
    {
        self.nodes.len()
    }

    /// The row of the table of transitions for the state that `s` leads to
    /// from the first state.
    pub fn destination_node_ids_from_str(&self, s: &String) -> (r: Vec<usize>)
        requires
            self.wf(),
        ensures
            exists|v: int| self.leads_to(s@, v) && r@ == #[trigger] self.row(v),
    {
        let text = chars_of(s);
        let mut cur: usize = 0;
        let mut p: usize = 0;
        proof {
            lemma_suffix_empty(self.strs@[0], text@.take(0));
            assert(longest(self.strs@, 0, text@.take(0)));
        }
        while p < text.len()
            invariant
                self.wf(),
                text@ == s@,
                p <= text@.len(),
                cur < self.nodes@.len(),
                longest(self.strs@, cur as int, text@.take(p as int)),
            decreases text@.len() - p,
        {
            let ch = text[p];
            proof {
                assert(text@.take(p + 1) =~= text@.take(p as int).push(ch));
            }
            cur = self.advance(cur, ch, Ghost(text@.take(p as int)));
            p += 1;
        }
        proof {
            assert(text@.take(p as int) =~= s@);
            assert(self.leads_to(s@, cur as int));
        }
        self.destination_node_ids_from_id(cur)
    }

    /// The row of the table of transitions for the state `id`: for each of the
    /// letters `a` to `z` the state that the text of `id` with that letter
    /// leads to.
    pub fn destination_node_ids_from_id(&self, id: usize) -> (r: Vec<usize>)
        requires
            self.wf(),
            id < self.size(),
        ensures
            r@ == self.row(id as int),
            r@.len() == 26,
            forall|c: int|
                0 <= c < 26 ==> self.leads_to(
                    self.text_of(id as int).push(letter_spec(c)),
                    #[trigger] r@[c] as int,
                ),
    {
        proof {
            assert(self.row_ok(id as int));
        }
        let mut r: Vec<usize> = Vec::new();
        let mut c: usize = 0;
        while c < self.goto[id].len()
            invariant
                id < self.goto@.len(),
                c <= self.goto@[id as int]@.len(),
                r@ == self.goto@[id as int]@.subrange(0, c as int),
            decreases self.goto@[id as int]@.len() - c,
        {
            r.push(self.goto[id][c]);
            proof {
                assert(r@ =~= self.goto@[id as int]@.subrange(0, c + 1));
            }
            c += 1;
        }
        proof {
            assert(r@ =~= self.goto@[id as int]@);
        }
        r
    }
}

/// A state without the child for a character has no state for its text with
/// that character.
proof fn lemma_fresh_text(nodes: Seq<Node>, strs: Seq<Seq<char>>, cur: int, ch: char)
    requires
        trie_ok(nodes, strs),
        0 <= cur < nodes.len(),
        forall|k: int|
            0 <= k < nodes[cur].children@.len() ==> (#[trigger] nodes[cur].children@[k]).0 != ch,
    ensures
        forall|w: int| 0 <= w < strs.len() ==> #[trigger] strs[w] != strs[cur].push(ch),
{
    let text = strs[cur].push(ch);
    assert forall|w: int| 0 <= w < strs.len() implies #[trigger] strs[w] != text by {
        if strs[w] == text {
            assert(w != 0);
            assert(parent_ok(nodes, strs, w));
            let (v, k) = choose|v: int, k: int|
                0 <= v < nodes.len() && 0 <= k < nodes[v].children@.len()
                    && #[trigger] nodes[v].children@[k] == (strs[w].last(), w as usize) && strs[v]
                    == strs[w].drop_last();
            assert(text.drop_last() =~= strs[cur]);
            assert(text.last() == ch);
            if v < cur {
                assert(strs[v] != strs[cur]);
            } else if cur < v {
                assert(strs[cur] != strs[v]);
            }
            assert(v == cur);
        }
    }
}

/// The trie with one more state, the child of `cur` for the character `ch`.
proof fn lemma_trie_grows(
    nodes: Seq<Node>,
    strs: Seq<Seq<char>>,
    nodes2: Seq<Node>,
    strs2: Seq<Seq<char>>,
    cur: int,
    ch: char,
    fresh: usize,
)
    requires
        trie_ok(nodes, strs),
        0 <= cur < nodes.len(),
        fresh == nodes.len(),
        forall|k: int|
            0 <= k < nodes[cur].children@.len() ==> (#[trigger] nodes[cur].children@[k]).0 != ch,
        forall|w: int| 0 <= w < strs.len() ==> #[trigger] strs[w] != strs[cur].push(ch),
        strs2 == strs.push(strs[cur].push(ch)),
        nodes2.len() == nodes.len() + 1,
        nodes2.len() <= usize::MAX,
        nodes2[nodes.len() as int].children@.len() == 0,
        forall|v: int| 0 <= v < nodes.len() && v != cur ==> #[trigger] nodes2[v] == nodes[v],
        nodes2[cur].children@ == nodes[cur].children@.push((ch, fresh)),
    ensures
        trie_ok(nodes2, strs2),
{
    let n = nodes.len() as int;
    assert forall|v: int, w: int| 0 <= v < w < strs2.len() implies #[trigger] strs2[v]
        != #[trigger] strs2[w] by {
        if w < n {
            assert(strs[v] != strs[w]);
        } else {
            assert(strs[v] != strs[cur].push(ch));
        }
    }
    assert forall|v: int| 0 <= v < nodes2.len() implies #[trigger] children_ok(nodes2, strs2, v) by {
        if v < n {
            assert(children_ok(nodes, strs, v));
            if v == cur {
                assert forall|k: int| 0 <= k < nodes2[v].children@.len() implies {
                    let e = #[trigger] nodes2[v].children@[k];
                    &&& 0 < e.1 < nodes2.len()
                    &&& strs2[e.1 as int] == strs2[v].push(e.0)
                } by {
                    if k < nodes[v].children@.len() {
                        assert(nodes2[v].children@[k] == nodes[v].children@[k]);
                    }
                }
                assert forall|k1: int, k2: int|
                    0 <= k1 < k2 < nodes2[v].children@.len() implies (
                #[trigger] nodes2[v].children@[k1]).0 != (#[trigger] nodes2[v].children@[k2]).0 by {
                    assert(nodes2[v].children@[k1] == nodes[v].children@[k1]);
                    if k2 < nodes[v].children@.len() {
                        assert(nodes2[v].children@[k2] == nodes[v].children@[k2]);
                    }
                }
            } else {
                assert(nodes2[v] == nodes[v]);
                assert forall|k: int| 0 <= k < nodes2[v].children@.len() implies {
                    let e = #[trigger] nodes2[v].children@[k];
                    &&& 0 < e.1 < nodes2.len()
                    &&& strs2[e.1 as int] == strs2[v].push(e.0)
                } by {
                    let e = nodes[v].children@[k];
                    assert(strs2[e.1 as int] == strs[e.1 as int]);
                }
            }
        }
    }
    assert forall|w: int| 0 < w < nodes2.len() implies #[trigger] parent_ok(nodes2, strs2, w) by {
        if w < n {
            assert(parent_ok(nodes, strs, w));
            let (v, k) = choose|v: int, k: int|
                0 <= v < nodes.len() && 0 <= k < nodes[v].children@.len()
                    && #[trigger] nodes[v].children@[k] == (strs[w].last(), w as usize) && strs[v]
                    == strs[w].drop_last();
            assert(nodes2[v].children@[k] == (strs2[w].last(), w as usize));
        } else {
            let k = nodes[cur].children@.len() as int;
            assert(nodes2[cur].children@[k] == (ch, fresh));
            assert(strs2[w].drop_last() =~= strs[cur]);
        }
    }
}

/// The trie stays a trie where the children stay.
proof fn lemma_trie_same(nodes: Seq<Node>, nodes2: Seq<Node>, strs: Seq<Seq<char>>)
    requires
        trie_ok(nodes, strs),
        nodes2.len() == nodes.len(),
        forall|v: int| 0 <= v < nodes.len() ==> (#[trigger] nodes2[v]).children == nodes[v].children,
    ensures
        trie_ok(nodes2, strs),
{
    assert forall|v: int| 0 <= v < nodes2.len() implies #[trigger] children_ok(nodes2, strs, v) by {
        assert(children_ok(nodes, strs, v));
        assert(nodes2[v].children == nodes[v].children);
    }
    assert forall|w: int| 0 < w < nodes2.len() implies #[trigger] parent_ok(nodes2, strs, w) by {
        assert(parent_ok(nodes, strs, w));
        let (v, k) = choose|v: int, k: int|
            0 <= v < nodes.len() && 0 <= k < nodes[v].children@.len()
                && #[trigger] nodes[v].children@[k] == (strs[w].last(), w as usize) && strs[v]
                == strs[w].drop_last();
        assert(nodes2[v].children == nodes[v].children);
        assert(nodes2[v].children@[k] == (strs[w].last(), w as usize));
    }
}

/// The outputs stay in order when the trie grows by a state without outputs.
proof fn lemma_outputs_stay(
    nodes: Seq<Node>,
    strs: Seq<Seq<char>>,
    nodes2: Seq<Node>,
    strs2: Seq<Seq<char>>,
    patterns: Seq<Seq<char>>,
)
    requires
        nodes.len() == strs.len(),
        outputs_ok(nodes, strs, patterns),
        nodes2.len() == nodes.len() + 1,
        strs2.len() == strs.len() + 1,
        forall|v: int| 0 <= v < strs.len() ==> #[trigger] strs2[v] == strs[v],
        forall|v: int| 0 <= v < nodes.len() ==> (#[trigger] nodes2[v]).outputs == nodes[v].outputs,
        nodes2[nodes.len() as int].outputs@.len() == 0,
    ensures
        outputs_ok(nodes2, strs2, patterns),
{
    assert forall|v: int, k: int|
        0 <= v < nodes2.len() && 0 <= k < nodes2[v].outputs@.len() implies {
        let i = #[trigger] nodes2[v].outputs@[k];
        &&& i < patterns.len()
        &&& is_suffix(patterns[i as int], strs2[v])
    } by {
        assert(nodes2[v].outputs@[k] == nodes[v].outputs@[k]);
    }
}

/// The outputs stay in order when a state takes a pattern that is an end of
/// its text.
proof fn lemma_output_added(
    nodes: Seq<Node>,
    nodes2: Seq<Node>,
    strs: Seq<Seq<char>>,
    patterns: Seq<Seq<char>>,
    cur: int,
    i: usize,
)
    requires
        outputs_ok(nodes, strs, patterns),
        0 <= cur < nodes.len(),
        nodes2.len() == nodes.len(),
        i < patterns.len(),
        is_suffix(patterns[i as int], strs[cur]),
        forall|v: int| 0 <= v < nodes.len() && v != cur ==> #[trigger] nodes2[v] == nodes[v],
        nodes2[cur].outputs@ == nodes[cur].outputs@.push(i),
    ensures
        outputs_ok(nodes2, strs, patterns),
{
    assert forall|v: int, k: int|
        0 <= v < nodes2.len() && 0 <= k < nodes2[v].outputs@.len() implies {
        let j = #[trigger] nodes2[v].outputs@[k];
        &&& j < patterns.len()
        &&& is_suffix(patterns[j as int], strs[v])
    } by {
        if v == cur {
            if k < nodes[cur].outputs@.len() {
                assert(nodes2[v].outputs@[k] == nodes[v].outputs@[k]);
            }
        } else {
            assert(nodes2[v].outputs@[k] == nodes[v].outputs@[k]);
        }
    }
}

/// A text is an end of itself.
proof fn lemma_suffix_self(x: Seq<char>)
    ensures
        is_suffix(x, x),
{
    assert(x.skip(0) =~= x);
}

/// The empty text is an end of every text.
proof fn lemma_suffix_empty(e: Seq<char>, x: Seq<char>)
    requires
        e.len() == 0,
    ensures
        is_suffix(e, x),
{
    assert(x.skip(x.len() as int) =~= e);
}

/// An end of an end of a text is an end of the text.
proof fn lemma_suffix_trans(z: Seq<char>, y: Seq<char>, x: Seq<char>)
    requires
        is_suffix(z, y),
        is_suffix(y, x),
    ensures
        is_suffix(z, x),
{
    assert(x.skip(x.len() - z.len()) =~= y.skip(y.len() - z.len()));
}

/// An end with one more character is an end of the text with that character.
proof fn lemma_suffix_push(y: Seq<char>, x: Seq<char>, ch: char)
    requires
        is_suffix(y, x),
    ensures
        is_suffix(y.push(ch), x.push(ch)),
{
    assert(x.push(ch).skip(x.len() + 1 - (y.len() + 1)) =~= x.skip(x.len() - y.len()).push(ch));
}

/// The state that the child `e` of the state `p` leads to.
spec fn nth_child(nodes: Seq<Node>, p: int, e: int) -> usize {
    nodes[p].children@[e].1
}

/// The state `x` is a child of a state of the queue before the position
/// `head`, or one of the first `k` children of the state at `head`.
spec fn reached(nodes: Seq<Node>, que: Seq<usize>, head: int, k: int, x: usize) -> bool {
    exists|i: int, e: int|
        0 <= i <= head && i < que.len() && 0 <= e < nodes[que[i] as int].children@.len() && (i
            < head || e < k) && #[trigger] nth_child(nodes, que[i] as int, e) == x
}

/// The queue of the breadth-first walk over the trie: it starts with the first
/// state and holds no state twice, and every other state in it is a child of
/// a state before the position `head`, or one of the first `k` children of the
/// state at `head`.
#[verifier::opaque]
spec fn queue_ok(nodes: Seq<Node>, strs: Seq<Seq<char>>, que: Seq<usize>, head: int, k: int) -> bool {
    &&& que.len() >= 1
    &&& que[0] == 0
    &&& forall|i: int| 0 <= i < que.len() ==> (#[trigger] que[i]) < nodes.len()
    &&& forall|i: int, j: int| 0 <= i < j < que.len() ==> #[trigger] que[i] != #[trigger] que[j]
    &&& forall|j: int| 1 <= j < que.len() ==> reached(nodes, que, head, k, #[trigger] que[j])
}

/// A queue without a state twice is no longer than there are states.
proof fn lemma_queue_short(nodes: Seq<Node>, strs: Seq<Seq<char>>, que: Seq<usize>, head: int, k: int)
    requires
        queue_ok(nodes, strs, que, head, k),
    ensures
        que.len() <= nodes.len(),
{
    reveal(queue_ok);
    let s = que.map_values(|x: usize| x as int);
    assert(s.no_duplicates()) by {
        assert forall|i: int, j: int| 0 <= i < s.len() && 0 <= j < s.len() && i != j implies s[i]
            != s[j] by {
            if i < j {
                assert(que[i] != que[j]);
            } else {
                assert(que[j] != que[i]);
            }
        }
    }
    s.unique_seq_to_set();
    let set = s.to_set();
    vstd::set_lib::lemma_int_range(0, nodes.len() as int);
    assert(set.subset_of(vstd::set_lib::set_int_range(0, nodes.len() as int))) by {
        assert forall|x: int| set.contains(x) implies vstd::set_lib::set_int_range(
            0,
            nodes.len() as int,
        ).contains(x) by {
            let i = choose|i: int| 0 <= i < s.len() && s[i] == x;
            assert(que[i] < nodes.len());
        }
    }
    vstd::set_lib::lemma_len_subset(set, vstd::set_lib::set_int_range(0, nodes.len() as int));
}

/// The child `k` of the state at `head` is not in the queue yet, and can
/// come into it.
proof fn lemma_queue_push(nodes: Seq<Node>, strs: Seq<Seq<char>>, que: Seq<usize>, head: int, k: int)
    requires
        trie_ok(nodes, strs),
        queue_ok(nodes, strs, que, head, k),
        0 <= head < que.len(),
        0 <= k < nodes[que[head] as int].children@.len(),
    ensures
        queue_ok(nodes, strs, que.push(nodes[que[head] as int].children@[k].1), head, k + 1),
{
    reveal(queue_ok);
    let cur = que[head] as int;
    let w = nodes[cur].children@[k].1;
    let ch = nodes[cur].children@[k].0;
    let q2 = que.push(w);
    assert(children_ok(nodes, strs, cur));
    assert(strs[w as int] == strs[cur].push(ch));
    assert(w != 0 && w < nodes.len());
    assert forall|j: int| 0 <= j < que.len() implies #[trigger] que[j] != w by {
        if que[j] == w {
            assert(j >= 1);
            assert(reached(nodes, que, head, k, que[j]));
            let (i, e) = choose|i: int, e: int|
                0 <= i <= head && i < que.len() && 0 <= e < nodes[que[i] as int].children@.len()
                    && (i < head || e < k) && #[trigger] nth_child(nodes, que[i] as int, e) == w;
            let p = que[i] as int;
            assert(children_ok(nodes, strs, p));
            let c2 = nodes[p].children@[e].0;
            assert(nodes[p].children@[e].1 == w);
            assert(strs[w as int] == strs[p].push(c2));
            assert(strs[p].push(c2).drop_last() =~= strs[p]);
            assert(strs[cur].push(ch).drop_last() =~= strs[cur]);
            assert(strs[p] == strs[cur]);
            if p < cur {
                assert(strs[p] != strs[cur]);
            } else if cur < p {
                assert(strs[cur] != strs[p]);
            }
            assert(p == cur);
            if i < head {
                assert(que[i] != que[head]);
            }
            assert(strs[p].push(c2).last() == c2);
            assert(strs[cur].push(ch).last() == ch);
            assert(nodes[cur].children@[e].0 != nodes[cur].children@[k].0);
        }
    }
    assert(q2[0] == que[0]);
    assert forall|i: int| 0 <= i < q2.len() implies (#[trigger] q2[i]) < nodes.len() by {
        if i < que.len() {
            assert(q2[i] == que[i]);
        }
    }
    assert forall|i: int, j: int| 0 <= i < j < q2.len() implies #[trigger] q2[i]
        != #[trigger] q2[j] by {
        if j < que.len() {
            assert(que[i] != que[j]);
        } else {
            assert(que[i] != w);
        }
    }
    assert forall|j: int| 1 <= j < q2.len() implies reached(nodes, q2, head, k + 1, #[trigger] q2[j]) by {
        if j < que.len() {
            assert(reached(nodes, que, head, k, que[j]));
            let (i, e) = choose|i: int, e: int|
                0 <= i <= head && i < que.len() && 0 <= e < nodes[que[i] as int].children@.len()
                    && (i < head || e < k) && #[trigger] nth_child(nodes, que[i] as int, e)
                    == que[j];
            assert(q2[i] == que[i]);
            assert(nth_child(nodes, q2[i] as int, e) == q2[j]);
        } else {
            assert(q2[head] == que[head]);
            assert(nth_child(nodes, q2[head] as int, k) == q2[j]);
        }
    }
}

/// The queue stays in order where the children stay.
proof fn lemma_queue_same(
    nodes: Seq<Node>,
    nodes2: Seq<Node>,
    strs: Seq<Seq<char>>,
    que: Seq<usize>,
    head: int,
    k: int,
)
    requires
        queue_ok(nodes, strs, que, head, k),
        nodes2.len() == nodes.len(),
        forall|v: int| 0 <= v < nodes.len() ==> (#[trigger] nodes2[v]).children == nodes[v].children,
    ensures
        queue_ok(nodes2, strs, que, head, k),
{
    reveal(queue_ok);
    assert forall|j: int| 1 <= j < que.len() implies reached(nodes2, que, head, k, #[trigger] que[j]) by {
        assert(reached(nodes, que, head, k, que[j]));
        let (i, e) = choose|i: int, e: int|
            0 <= i <= head && i < que.len() && 0 <= e < nodes[que[i] as int].children@.len() && (i
                < head || e < k) && #[trigger] nth_child(nodes, que[i] as int, e) == que[j];
        assert(nodes2[que[i] as int].children == nodes[que[i] as int].children);
        assert(nth_child(nodes2, que[i] as int, e) == que[j]);
    }
}

/// Once all children of the state at `head` are in the queue, the walk goes
/// on behind it.
proof fn lemma_queue_next(nodes: Seq<Node>, strs: Seq<Seq<char>>, que: Seq<usize>, head: int)
    requires
        0 <= head < que.len(),
        queue_ok(nodes, strs, que, head, nodes[que[head] as int].children@.len() as int),
    ensures
        queue_ok(nodes, strs, que, head + 1, 0),
{
    reveal(queue_ok);
    let full = nodes[que[head] as int].children@.len() as int;
    assert forall|j: int| 1 <= j < que.len() implies reached(nodes, que, head + 1, 0, #[trigger] que[j]) by {
        assert(reached(nodes, que, head, full, que[j]));
        let (i, e) = choose|i: int, e: int|
            0 <= i <= head && i < que.len() && 0 <= e < nodes[que[i] as int].children@.len() && (i
                < head || e < full) && #[trigger] nth_child(nodes, que[i] as int, e) == que[j];
        assert(nth_child(nodes, que[i] as int, e) == que[j]);
    }
}

/// The state that the failure links lead to from the parent of a child, by
/// the character of the child, has a text that is a proper end of the text
/// of the child, unless it is the child itself.
proof fn lemma_link_proper(
    nodes: Seq<Node>,
    strs: Seq<Seq<char>>,
    cur: int,
    ch: char,
    child: int,
    nxt: int,
)
    requires
        trie_ok(nodes, strs),
        failure_ok(nodes, strs),
        0 <= cur < nodes.len(),
        0 < child < nodes.len(),
        0 < nxt < nodes.len(),
        nxt != child,
        strs[child] == strs[cur].push(ch),
        exists|z: int|
            0 <= z < nodes.len() && is_suffix(strs[z], strs[nodes[cur].failure as int])
                && #[trigger] strs[z].push(ch) == strs[nxt],
    ensures
        is_suffix(strs[nxt], strs[child]),
        strs[nxt].len() < strs[child].len(),
{
    let f = nodes[cur].failure as int;
    let z = choose|z: int|
        0 <= z < nodes.len() && is_suffix(strs[z], strs[f]) && #[trigger] strs[z].push(ch)
            == strs[nxt];
    if cur == 0 {
        assert(f == 0);
        assert(strs[z].len() == 0);
        assert(strs[z] =~= strs[0]);
        assert(strs[nxt] == strs[child]);
        if nxt < child {
            assert(strs[nxt] != strs[child]);
        } else {
            assert(strs[child] != strs[nxt]);
        }
    } else {
        lemma_suffix_trans(strs[z], strs[f], strs[cur]);
        lemma_suffix_push(strs[z], strs[cur], ch);
    }
}

/// The failure links stay in order when one is set to a state whose text is a
/// proper end.
proof fn lemma_failure_set(
    nodes: Seq<Node>,
    nodes2: Seq<Node>,
    strs: Seq<Seq<char>>,
    child: int,
    nxt: int,
)
    requires
        failure_ok(nodes, strs),
        nodes2.len() == nodes.len(),
        0 < child < nodes.len(),
        0 <= nxt < nodes.len(),
        is_suffix(strs[nxt], strs[child]),
        strs[nxt].len() < strs[child].len(),
        forall|v: int| 0 <= v < nodes.len() && v != child ==> #[trigger] nodes2[v] == nodes[v],
        nodes2[child].failure == nxt,
    ensures
        failure_ok(nodes2, strs),
{
    assert forall|v: int| 0 < v < nodes2.len() implies {
        let f = (#[trigger] nodes2[v]).failure as int;
        &&& 0 <= f < nodes2.len()
        &&& is_suffix(strs[f], strs[v])
        &&& strs[f].len() < strs[v].len()
    } by {
        if v != child {
            assert(nodes2[v] == nodes[v]);
        }
    }
    assert(nodes2[0] == nodes[0]);
}

/// The failure links stay in order where they stay.
proof fn lemma_failure_same(nodes: Seq<Node>, nodes2: Seq<Node>, strs: Seq<Seq<char>>)
    requires
        failure_ok(nodes, strs),
        nodes.len() >= 1,
        nodes2.len() == nodes.len(),
        forall|v: int| 0 <= v < nodes.len() ==> (#[trigger] nodes2[v]).failure == nodes[v].failure,
    ensures
        failure_ok(nodes2, strs),
{
    assert forall|v: int| 0 < v < nodes2.len() implies {
        let f = (#[trigger] nodes2[v]).failure as int;
        &&& 0 <= f < nodes2.len()
        &&& is_suffix(strs[f], strs[v])
        &&& strs[f].len() < strs[v].len()
    } by {
        assert(nodes2[v].failure == nodes[v].failure);
    }
    assert(nodes2[0].failure == nodes[0].failure);
}

/// The outputs stay in order where they stay.
proof fn lemma_outputs_same(
    nodes: Seq<Node>,
    nodes2: Seq<Node>,
    strs: Seq<Seq<char>>,
    patterns: Seq<Seq<char>>,
)
    requires
        outputs_ok(nodes, strs, patterns),
        nodes2.len() == nodes.len(),
        forall|v: int| 0 <= v < nodes.len() ==> (#[trigger] nodes2[v]).outputs == nodes[v].outputs,
    ensures
        outputs_ok(nodes2, strs, patterns),
{
    assert forall|v: int, k: int|
        0 <= v < nodes2.len() && 0 <= k < nodes2[v].outputs@.len() implies {
        let i = #[trigger] nodes2[v].outputs@[k];
        &&& i < patterns.len()
        &&& is_suffix(patterns[i as int], strs[v])
    } by {
        assert(nodes2[v].outputs@[k] == nodes[v].outputs@[k]);
    }
}

/// What led to a state still leads to one when the trie has grown by a state
/// without outputs, and the patterns that are done keep their outputs.
proof fn lemma_states_grow(
    nodes: Seq<Node>,
    strs: Seq<Seq<char>>,
    nodes2: Seq<Node>,
    strs2: Seq<Seq<char>>,
    patterns: Seq<Seq<char>>,
    upto: int,
)
    requires
        nodes.len() == strs.len(),
        prefixes_ok(strs, patterns, upto),
        own_ok(nodes, strs, patterns, upto),
        0 <= upto <= patterns.len(),
        nodes2.len() == nodes.len() + 1,
        strs2.len() == strs.len() + 1,
        forall|v: int| 0 <= v < strs.len() ==> #[trigger] strs2[v] == strs[v],
        forall|v: int| 0 <= v < strs.len() ==> #[trigger] strs[v] != strs2[strs.len() as int],
        forall|v: int| 0 <= v < nodes.len() ==> (#[trigger] nodes2[v]).outputs == nodes[v].outputs,
    ensures
        prefixes_ok(strs2, patterns, upto),
        own_ok(nodes2, strs2, patterns, upto),
{
    assert forall|i: int, k: int| 0 <= i < upto && 0 <= k <= patterns[i].len() implies is_state(
        strs2,
        #[trigger] patterns[i].take(k),
    ) by {
        assert(is_state(strs, patterns[i].take(k)));
        let v = choose|v: int| 0 <= v < strs.len() && #[trigger] strs[v] == patterns[i].take(k);
        assert(strs2[v] == patterns[i].take(k));
    }
    assert forall|i: int, v: int|
        0 <= i < upto && 0 <= v < nodes2.len() && #[trigger] strs2[v]
            == #[trigger] patterns[i] implies nodes2[v].outputs@.contains(i as usize) by {
        if v < nodes.len() {
            assert(strs[v] == patterns[i]);
            assert(nodes2[v].outputs == nodes[v].outputs);
        } else {
            assert(patterns[i].take(patterns[i].len() as int) =~= patterns[i]);
            assert(is_state(strs, patterns[i].take(patterns[i].len() as int)));
            let u = choose|u: int| 0 <= u < strs.len() && #[trigger] strs[u] == patterns[i];
            assert(strs[u] != strs2[strs.len() as int]);
        }
    }
}

/// A pattern is done once the state that it leads to has taken it among its
/// outputs.
proof fn lemma_pattern_done(
    nodes: Seq<Node>,
    nodes2: Seq<Node>,
    strs: Seq<Seq<char>>,
    patterns: Seq<Seq<char>>,
    idx: int,
    cur: int,
)
    requires
        trie_ok(nodes, strs),
        prefixes_ok(strs, patterns, idx),
        own_ok(nodes, strs, patterns, idx),
        0 <= idx < patterns.len(),
        0 <= cur < nodes.len(),
        strs[cur] == patterns[idx],
        forall|k: int| 0 <= k <= patterns[idx].len() ==> is_state(strs, #[trigger] patterns[idx].take(k)),
        nodes2.len() == nodes.len(),
        forall|v: int| 0 <= v < nodes.len() && v != cur ==> #[trigger] nodes2[v] == nodes[v],
        nodes2[cur].outputs@ == nodes[cur].outputs@.push(idx as usize),
    ensures
        prefixes_ok(strs, patterns, idx + 1),
        own_ok(nodes2, strs, patterns, idx + 1),
{
    assert forall|i: int, v: int|
        0 <= i < idx + 1 && 0 <= v < nodes2.len() && #[trigger] strs[v]
            == #[trigger] patterns[i] implies nodes2[v].outputs@.contains(i as usize) by {
        if i == idx {
            if v < cur {
                assert(strs[v] != strs[cur]);
            } else if cur < v {
                assert(strs[cur] != strs[v]);
            }
            assert(nodes2[cur].outputs@[nodes[cur].outputs@.len() as int] == idx as usize);
        } else {
            assert(nodes[v].outputs@.contains(i as usize));
            if v == cur {
                let k = choose|k: int|
                    0 <= k < nodes[v].outputs@.len() && nodes[v].outputs@[k] == i as usize;
                assert(nodes2[v].outputs@[k] == i as usize);
            }
        }
    }
}

/// Of two ends of a text the shorter is an end of the longer.
proof fn lemma_suffix_of_suffix(a: Seq<char>, b: Seq<char>, x: Seq<char>)
    requires
        is_suffix(a, x),
        is_suffix(b, x),
        a.len() <= b.len(),
    ensures
        is_suffix(a, b),
        a.len() == b.len() ==> a == b,
{
    assert(b.skip(b.len() - a.len()) =~= x.skip(x.len() - a.len()));
    if a.len() == b.len() {
        assert(b.skip(0) =~= b);
    }
}

/// An end of a text with one more character, unless it is empty, ends with
/// that character, and without it is an end of the text.
proof fn lemma_suffix_pop(y: Seq<char>, x: Seq<char>, ch: char)
    requires
        is_suffix(y, x.push(ch)),
        y.len() > 0,
    ensures
        y.last() == ch,
        is_suffix(y.drop_last(), x),
{
    let xc = x.push(ch);
    assert(y.last() == xc.skip(xc.len() - y.len())[y.len() - 1]);
    assert(x.skip(x.len() - (y.len() - 1)) =~= y.drop_last());
}

/// Where the state `cur` has no child for `ch`, the way goes on along its
/// failure link.
proof fn lemma_step_down(nodes: Seq<Node>, strs: Seq<Seq<char>>, v: int, cur: int, ch: char)
    requires
        trie_ok(nodes, strs),
        failure_ok(nodes, strs),
        0 <= v < nodes.len(),
        0 < cur < nodes.len(),
        is_suffix(strs[cur], strs[v]),
        fmax(nodes, strs, cur),
        !has_child(nodes, cur, ch),
        bound_ok(nodes, strs, v, ch, cur),
    ensures
        bound_ok(nodes, strs, v, ch, nodes[cur].failure as int),
{
    assert forall|z: int|
        0 <= z < nodes.len() && is_suffix(#[trigger] strs[z], strs[v]) && has_child(
            nodes,
            z,
            ch,
        ) implies strs[z].len() <= strs[nodes[cur].failure as int].len() by {
        lemma_suffix_of_suffix(strs[z], strs[cur], strs[v]);
        if strs[z].len() == strs[cur].len() {
            if z < cur {
                assert(strs[z] != strs[cur]);
            } else if cur < z {
                assert(strs[cur] != strs[z]);
            }
        }
    }
}

/// The child for `ch` of the first state on the way that has one is the state
/// of the longest end.
proof fn lemma_step_found(
    nodes: Seq<Node>,
    strs: Seq<Seq<char>>,
    v: int,
    cur: int,
    ch: char,
    nxt: int,
)
    requires
        trie_ok(nodes, strs),
        0 <= v < nodes.len(),
        0 <= cur < nodes.len(),
        0 <= nxt < nodes.len(),
        is_suffix(strs[cur], strs[v]),
        strs[nxt] == strs[cur].push(ch),
        bound_ok(nodes, strs, v, ch, cur),
    ensures
        longest(strs, nxt, strs[v].push(ch)),
{
    lemma_suffix_push(strs[cur], strs[v], ch);
    assert forall|y: int| 0 <= y < strs.len() && is_suffix(#[trigger] strs[y], strs[v].push(ch))
        implies strs[y].len() <= strs[nxt].len() by {
        if strs[y].len() > 0 {
            lemma_parent_has_child(nodes, strs, y, strs[v], ch);
            let z = choose|z: int|
                0 <= z < nodes.len() && #[trigger] strs[z] == strs[y].drop_last() && has_child(
                    nodes,
                    z,
                    ch,
                );
            assert(is_suffix(strs[z], strs[v]));
        }
    }
}

/// The state `y`, whose text is an end of `x` with `ch` and not empty, is the
/// child for `ch` of the state of its text without the last character, which
/// is an end of `x`.
proof fn lemma_parent_has_child(nodes: Seq<Node>, strs: Seq<Seq<char>>, y: int, x: Seq<char>, ch: char)
    requires
        trie_ok(nodes, strs),
        0 <= y < nodes.len(),
        strs[y].len() > 0,
        is_suffix(strs[y], x.push(ch)),
    ensures
        is_suffix(strs[y].drop_last(), x),
        exists|z: int|
            0 <= z < nodes.len() && #[trigger] strs[z] == strs[y].drop_last() && has_child(
                nodes,
                z,
                ch,
            ),
{
    lemma_suffix_pop(strs[y], x, ch);
    assert(y != 0);
    assert(parent_ok(nodes, strs, y));
    let (p, k) = choose|p: int, k: int|
        0 <= p < nodes.len() && 0 <= k < nodes[p].children@.len() && #[trigger] nodes[p].children@[k]
            == (strs[y].last(), y as usize) && strs[p] == strs[y].drop_last();
    assert(nodes[p].children@[k].0 == ch);
    assert(has_child(nodes, p, ch));
    assert(strs[p] == strs[y].drop_last());
}

/// Where not even the first state has a child for `ch`, only the empty end
/// leads to a state.
proof fn lemma_step_root(nodes: Seq<Node>, strs: Seq<Seq<char>>, v: int, ch: char)
    requires
        trie_ok(nodes, strs),
        0 <= v < nodes.len(),
        !has_child(nodes, 0, ch),
        bound_ok(nodes, strs, v, ch, 0),
    ensures
        longest(strs, 0, strs[v].push(ch)),
{
    lemma_suffix_empty(strs[0], strs[v].push(ch));
    assert forall|y: int| 0 <= y < strs.len() && is_suffix(#[trigger] strs[y], strs[v].push(ch))
        implies strs[y].len() <= strs[0].len() by {
        if strs[y].len() > 0 {
            lemma_parent_has_child(nodes, strs, y, strs[v], ch);
            let z = choose|z: int|
                0 <= z < nodes.len() && #[trigger] strs[z] == strs[y].drop_last() && has_child(
                    nodes,
                    z,
                    ch,
                );
            assert(strs[z].len() <= strs[0].len());
            assert(strs[z] =~= strs[0]);
            if z > 0 {
                assert(strs[0] != strs[z]);
            }
        }
    }
}

/// Every state whose text is no longer than that of the state at `head` is in
/// the queue.
proof fn lemma_shallow_queued(
    nodes: Seq<Node>,
    strs: Seq<Seq<char>>,
    patterns: Seq<Seq<char>>,
    que: Seq<usize>,
    head: int,
    k: int,
    u: int,
)
    requires
        trie_ok(nodes, strs),
        queue_ok(nodes, strs, que, head, k),
        levels(nodes, strs, patterns, que, head, k),
        0 <= head < que.len(),
        0 <= u < nodes.len(),
        strs[u].len() <= strs[que[head] as int].len(),
    ensures
        queued(que, u as usize),
        done(nodes, strs, patterns, u),
    decreases strs[u].len(),
{
    reveal(queue_ok);
    reveal(levels);
    if u == 0 {
        assert(que[0] == 0);
    } else {
        assert(parent_ok(nodes, strs, u));
        let (p, e) = choose|p: int, e: int|
            0 <= p < nodes.len() && 0 <= e < nodes[p].children@.len() && #[trigger] nodes[p].children@[e]
                == (strs[u].last(), u as usize) && strs[p] == strs[u].drop_last();
        lemma_shallow_queued(nodes, strs, patterns, que, head, k, p);
        let i = choose|i: int| 0 <= i < que.len() && #[trigger] que[i] == p as usize;
        if i >= head {
            assert(depth_at(strs, que, head) <= depth_at(strs, que, i));
        }
        assert(nth_child(nodes, que[i] as int, e) == u as usize);
        assert(queued(que, nth_child(nodes, que[i] as int, e)));
    }
    let j = choose|j: int| 0 <= j < que.len() && #[trigger] que[j] == u as usize;
    assert(done(nodes, strs, patterns, que[j] as int));
}

/// Every state whose text is no longer than that of the state at `head` has
/// its failure link.
proof fn lemma_shallow_done(
    nodes: Seq<Node>,
    strs: Seq<Seq<char>>,
    patterns: Seq<Seq<char>>,
    que: Seq<usize>,
    head: int,
    k: int,
)
    requires
        trie_ok(nodes, strs),
        queue_ok(nodes, strs, que, head, k),
        levels(nodes, strs, patterns, que, head, k),
        0 <= head < que.len(),
    ensures
        fmax_upto(nodes, strs, strs[que[head] as int].len() as int),
        forall|u: int|
            0 <= u < nodes.len() && strs[u].len() <= strs[que[head] as int].len() ==> #[trigger] done(
                nodes,
                strs,
                patterns,
                u,
            ),
{
    assert forall|u: int|
        0 <= u < nodes.len() && strs[u].len() <= strs[que[head] as int].len() implies #[trigger] done(
        nodes,
        strs,
        patterns,
        u,
    ) by {
        lemma_shallow_queued(nodes, strs, patterns, que, head, k, u);
    }
    assert forall|v: int|
        0 <= v < nodes.len() && strs[v].len() <= strs[que[head] as int].len() implies #[trigger] fmax(
        nodes,
        strs,
        v,
    ) by {
        assert(done(nodes, strs, patterns, v));
    }
}

/// Before the walk the queue holds the first state alone.
proof fn lemma_levels_start(
    nodes: Seq<Node>,
    strs: Seq<Seq<char>>,
    patterns: Seq<Seq<char>>,
    que: Seq<usize>,
)
    requires
        trie_ok(nodes, strs),
        que.len() == 1,
        que[0] == 0,
    ensures
        levels(nodes, strs, patterns, que, 0, 0),
{
    reveal(levels);
    assert forall|i: int| 0 <= i < patterns.len() && patterns[i].len() > 0 implies !is_suffix(
        #[trigger] patterns[i],
        strs[0],
    ) by {}
}

/// The child `child` of the state `cur` for the character `ch` has its
/// failure link and its outputs, after the link has been set to the state
/// `nxt` that `ch` leads to from the failure link of `cur`, and the outputs of
/// `nxt` have been added; or after nothing has been done where `nxt` is the
/// child itself or the first state.
proof fn lemma_child_done(
    nodes: Seq<Node>,
    nodes2: Seq<Node>,
    strs: Seq<Seq<char>>,
    patterns: Seq<Seq<char>>,
    cur: int,
    ch: char,
    child: int,
    nxt: int,
)
    requires
        trie_ok(nodes, strs),
        failure_ok(nodes, strs),
        prefixes_ok(strs, patterns, patterns.len() as int),
        own_ok(nodes, strs, patterns, patterns.len() as int),
        0 <= cur < nodes.len(),
        0 < child < nodes.len(),
        0 <= nxt < nodes.len(),
        strs[child] == strs[cur].push(ch),
        nodes[child].failure == 0,
        fmax(nodes, strs, cur),
        longest(strs, nxt, strs[nodes[cur].failure as int].push(ch)),
        nxt != 0 && nxt != child ==> outfull(nodes, strs, patterns, nxt),
        nodes2.len() == nodes.len(),
        nodes2[child].failure == if nxt != child && nxt != 0 {
            nxt as usize
        } else {
            0usize
        },
        nodes2[child].outputs@ == if nxt != child && nxt != 0 {
            nodes[child].outputs@ + nodes[nxt].outputs@
        } else {
            nodes[child].outputs@
        },
    ensures
        done(nodes2, strs, patterns, child),
{
    let f = nodes[cur].failure as int;
    let x = strs[cur];
    // the longest proper end of the text of the child
    assert forall|z: int|
        0 <= z < nodes2.len() && is_suffix(#[trigger] strs[z], strs[child]) && strs[z].len()
            < strs[child].len() implies strs[z].len() <= strs[nodes2[child].failure as int].len() by {
        if strs[z].len() > 0 {
            lemma_parent_has_child(nodes, strs, z, x, ch);
            let pz = choose|pz: int|
                0 <= pz < nodes.len() && #[trigger] strs[pz] == strs[z].drop_last() && has_child(
                    nodes,
                    pz,
                    ch,
                );
            assert(is_suffix(strs[pz], x) && strs[pz].len() < x.len());
            assert(cur != 0);
            assert(strs[pz].len() <= strs[f].len());
            lemma_suffix_of_suffix(strs[pz], strs[f], x);
            lemma_suffix_push(strs[pz], strs[f], ch);
            assert(strs[pz].push(ch) =~= strs[z]);
            assert(strs[z].len() <= strs[nxt].len());
            // then `nxt` is neither the first state nor the child
            if nxt == child {
                assert(strs[f].len() < x.len());
            }
        }
    }
    assert forall|i: int|
        0 <= i < patterns.len() && patterns[i].len() > 0 && is_suffix(
            #[trigger] patterns[i],
            strs[child],
        ) implies nodes2[child].outputs@.contains(i as usize) by {
        let p = patterns[i];
        assert(p.take(p.len() as int) =~= p);
        assert(is_state(strs, p.take(p.len() as int)));
        let z = choose|z: int| 0 <= z < strs.len() && #[trigger] strs[z] == p;
        if p.len() == strs[child].len() {
            lemma_suffix_self(strs[child]);
            lemma_suffix_of_suffix(p, strs[child], strs[child]);
            assert(strs[child] == patterns[i]);
            assert(nodes[child].outputs@.contains(i as usize));
            let k = choose|k: int|
                0 <= k < nodes[child].outputs@.len() && nodes[child].outputs@[k] == i as usize;
            assert(nodes2[child].outputs@[k] == i as usize);
        } else {
            assert(strs[z].len() <= strs[nodes2[child].failure as int].len());
            assert(nxt != child && nxt != 0);
            assert(is_suffix(strs[nxt], strs[child])) by {
                lemma_link_longest(nodes, strs, cur, ch, child, nxt);
            }
            lemma_suffix_of_suffix(p, strs[nxt], strs[child]);
            assert(nodes[nxt].outputs@.contains(i as usize));
            let k = choose|k: int|
                0 <= k < nodes[nxt].outputs@.len() && nodes[nxt].outputs@[k] == i as usize;
            assert(nodes2[child].outputs@[nodes[child].outputs@.len() + k] == i as usize);
        }
    }
}

/// The state that `ch` leads to from the failure link of `cur` has a text
/// that is an end of the text of the child of `cur` for `ch`.
proof fn lemma_link_longest(
    nodes: Seq<Node>,
    strs: Seq<Seq<char>>,
    cur: int,
    ch: char,
    child: int,
    nxt: int,
)
    requires
        failure_ok(nodes, strs),
        nodes.len() == strs.len(),
        0 <= cur < nodes.len(),
        0 <= child < nodes.len(),
        0 <= nxt < nodes.len(),
        strs[0].len() == 0,
        strs[child] == strs[cur].push(ch),
        longest(strs, nxt, strs[nodes[cur].failure as int].push(ch)),
    ensures
        is_suffix(strs[nxt], strs[child]),
{
    let f = nodes[cur].failure as int;
    if cur == 0 {
        assert(f == 0);
    } else {
        lemma_suffix_push(strs[f], strs[cur], ch);
        lemma_suffix_trans(strs[nxt], strs[f].push(ch), strs[cur].push(ch));
    }
}

/// The child `k` of the state at `head`, which has its failure link and its
/// outputs, comes into the queue.
proof fn lemma_levels_push(
    nodes: Seq<Node>,
    nodes2: Seq<Node>,
    strs: Seq<Seq<char>>,
    patterns: Seq<Seq<char>>,
    que: Seq<usize>,
    head: int,
    k: int,
)
    requires
        trie_ok(nodes, strs),
        queue_ok(nodes, strs, que, head, k),
        levels(nodes, strs, patterns, que, head, k),
        0 <= head < que.len(),
        0 <= k < nodes[que[head] as int].children@.len(),
        nodes2.len() == nodes.len(),
        forall|v: int| 0 <= v < nodes.len() ==> (#[trigger] nodes2[v]).children == nodes[v].children,
        forall|v: int|
            0 <= v < nodes.len() && v != nodes[que[head] as int].children@[k].1 ==> #[trigger] nodes2[v]
                == nodes[v],
        done(nodes2, strs, patterns, nodes[que[head] as int].children@[k].1 as int),
    ensures
        levels(
            nodes2,
            strs,
            patterns,
            que.push(nodes[que[head] as int].children@[k].1),
            head,
            k + 1,
        ),
{
    lemma_queue_push(nodes, strs, que, head, k);
    reveal(queue_ok);
    reveal(levels);
    let cur = que[head] as int;
    let w = nodes[cur].children@[k].1;
    let q2 = que.push(w);
    assert(children_ok(nodes, strs, cur));
    assert(strs[w as int].len() == strs[cur].len() + 1);
    assert forall|i: int, j: int| 0 <= i <= j < q2.len() implies #[trigger] depth_at(strs, q2, i)
        <= #[trigger] depth_at(strs, q2, j) by {
        if j < que.len() {
            assert(depth_at(strs, que, i) <= depth_at(strs, que, j));
        } else if i < que.len() {
            assert(depth_at(strs, que, i) <= depth_at(strs, que, que.len() - 1));
        }
    }
    assert forall|i: int, e: int|
        0 <= i < q2.len() && i <= head && 0 <= e < nodes2[q2[i] as int].children@.len() && (i < head
            || e < k + 1) implies queued(q2, #[trigger] nth_child(nodes2, q2[i] as int, e)) by {
        assert(q2[i] == que[i]);
        assert(nodes2[que[i] as int].children == nodes[que[i] as int].children);
        if i == head && e == k {
            assert(q2[que.len() as int] == w);
        } else {
            assert(queued(que, nth_child(nodes, que[i] as int, e)));
            let j = choose|j: int|
                0 <= j < que.len() && #[trigger] que[j] == nth_child(nodes, que[i] as int, e);
            assert(q2[j] == que[j]);
        }
    }
    assert forall|j: int| 0 <= j < q2.len() implies done(
        nodes2,
        strs,
        patterns,
        #[trigger] q2[j] as int,
    ) by {
        if j < que.len() {
            assert(q2[j] == que[j]);
            assert(done(nodes, strs, patterns, que[j] as int));
            assert(q2.len() == que.len() + 1);
            assert(q2[que.len() as int] == w);
            assert(que[j] != w) by {
                assert(q2[j] != q2[que.len() as int]);
            }
            assert(nodes2[que[j] as int] == nodes[que[j] as int]);
        }
    }
}

/// Once all children of the state at `head` are in the queue, the walk goes
/// on behind it.
proof fn lemma_levels_next(
    nodes: Seq<Node>,
    strs: Seq<Seq<char>>,
    patterns: Seq<Seq<char>>,
    que: Seq<usize>,
    head: int,
)
    requires
        0 <= head < que.len(),
        levels(nodes, strs, patterns, que, head, nodes[que[head] as int].children@.len() as int),
    ensures
        levels(nodes, strs, patterns, que, head + 1, 0),
{
    reveal(levels);
    if head + 1 < que.len() {
        assert(depth_at(strs, que, head) <= depth_at(strs, que, head + 1));
    }
}

/// At the end of the walk every state is in the queue, and so has its failure
/// link and its outputs.
proof fn lemma_all_done(
    nodes: Seq<Node>,
    strs: Seq<Seq<char>>,
    patterns: Seq<Seq<char>>,
    que: Seq<usize>,
    u: int,
)
    requires
        trie_ok(nodes, strs),
        queue_ok(nodes, strs, que, que.len() as int, 0),
        levels(nodes, strs, patterns, que, que.len() as int, 0),
        0 <= u < nodes.len(),
    ensures
        queued(que, u as usize),
        done(nodes, strs, patterns, u),
    decreases strs[u].len(),
{
    reveal(queue_ok);
    reveal(levels);
    if u == 0 {
        assert(que[0] == 0);
    } else {
        assert(parent_ok(nodes, strs, u));
        let (p, e) = choose|p: int, e: int|
            0 <= p < nodes.len() && 0 <= e < nodes[p].children@.len() && #[trigger] nodes[p].children@[e]
                == (strs[u].last(), u as usize) && strs[p] == strs[u].drop_last();
        lemma_all_done(nodes, strs, patterns, que, p);
        let i = choose|i: int| 0 <= i < que.len() && #[trigger] que[i] == p as usize;
        assert(nth_child(nodes, que[i] as int, e) == u as usize);
        assert(queued(que, nth_child(nodes, que[i] as int, e)));
    }
    let j = choose|j: int| 0 <= j < que.len() && #[trigger] que[j] == u as usize;
    assert(done(nodes, strs, patterns, que[j] as int));
}

/// The child `k` of the state at `head` is not in the queue.
proof fn lemma_fresh_in_queue(
    nodes: Seq<Node>,
    strs: Seq<Seq<char>>,
    que: Seq<usize>,
    head: int,
    k: int,
)
    requires
        trie_ok(nodes, strs),
        queue_ok(nodes, strs, que, head, k),
        0 <= head < que.len(),
        0 <= k < nodes[que[head] as int].children@.len(),
    ensures
        !queued(que, nodes[que[head] as int].children@[k].1),
{
    lemma_queue_push(nodes, strs, que, head, k);
    reveal(queue_ok);
    let w = nodes[que[head] as int].children@[k].1;
    let q2 = que.push(w);
    if queued(que, w) {
        let j = choose|j: int| 0 <= j < que.len() && #[trigger] que[j] == w;
        assert(q2[j] == w);
        assert(q2[que.len() as int] == w);
        assert(q2[j] != q2[que.len() as int]);
    }
}

/// The patterns keep their places among the outputs where the outputs of a
/// state only grow.
proof fn lemma_own_grows(
    nodes: Seq<Node>,
    nodes2: Seq<Node>,
    strs: Seq<Seq<char>>,
    patterns: Seq<Seq<char>>,
    child: int,
)
    requires
        own_ok(nodes, strs, patterns, patterns.len() as int),
        nodes2.len() == nodes.len(),
        0 <= child < nodes.len(),
        forall|v: int| 0 <= v < nodes.len() && v != child ==> #[trigger] nodes2[v] == nodes[v],
        nodes2[child].outputs@.len() >= nodes[child].outputs@.len(),
        forall|k: int|
            0 <= k < nodes[child].outputs@.len() ==> #[trigger] nodes2[child].outputs@[k]
                == nodes[child].outputs@[k],
    ensures
        own_ok(nodes2, strs, patterns, patterns.len() as int),
{
    assert forall|i: int, v: int|
        0 <= i < patterns.len() && 0 <= v < nodes2.len() && #[trigger] strs[v]
            == #[trigger] patterns[i] implies nodes2[v].outputs@.contains(i as usize) by {
        assert(nodes[v].outputs@.contains(i as usize));
        if v == child {
            let k = choose|k: int|
                0 <= k < nodes[v].outputs@.len() && nodes[v].outputs@[k] == i as usize;
            assert(nodes2[v].outputs@[k] == i as usize);
        }
    }
}

} // verus!

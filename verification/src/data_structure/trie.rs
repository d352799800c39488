use crate::utils::iterlibs::collect::chars_of;
use vstd::prelude::*;

verus! {

/// Number of letters, and so of children of a node.
pub const NEXT_NODE_SIZE: usize = 26;

/// `c` is one of the letters `a` to `z`.
pub open spec fn is_letter(c: char) -> bool {
    'a' <= c <= 'z'
}

/// Every character of `w` is one of the letters `a` to `z`.
pub open spec fn is_word(w: Seq<char>) -> bool {
    forall|i: int| 0 <= i < w.len() ==> is_letter(#[trigger] w[i])
}

/// The place of the letter `c` in the alphabet, from 0.
pub open spec fn letter_index(c: char) -> int {
    c as int - 'a' as int
}

struct TrieNode {
    accepted_cnt: usize,
    next: Vec<Option<Box<TrieNode>>>,
}

impl TrieNode {
    /// The child for the letter `c`, where `c` is a letter and there is one.
    spec fn child(&self, c: char) -> Option<Box<TrieNode>> {
        if 0 <= letter_index(c) < self.next@.len() {
            self.next@[letter_index(c)]
        } else {
            None
        }
    }

    /// How often the word `w` ends at the node that it leads to from here.
    spec fn count(&self, w: Seq<char>) -> nat
        decreases w.len(),
    {
        if w.len() == 0 {
            self.accepted_cnt as nat
        } else {
            match self.child(w[0]) {
                Some(child) => child.count(w.drop_first()),
                None => 0,
            }
        }
    }

    /// There is a node to which `w` leads from here.
    spec fn has_path(&self, w: Seq<char>) -> bool
        decreases w.len(),
    {
        if w.len() == 0 {
            true
        } else {
            match self.child(w[0]) {
                Some(child) => child.has_path(w.drop_first()),
                None => false,
            }
        }
    }

    /// Some word ends at this node or below it.
    spec fn alive(&self) -> bool {
        exists|w: Seq<char>| #[trigger] self.count(w) > 0
    }

    /// The node has a place for each letter, and below every node but this one
    /// some word ends.
    spec fn wf(&self) -> bool
        decreases self,
    {
        &&& self.next@.len() == NEXT_NODE_SIZE
        &&& forall|k: int|
            0 <= k < self.next@.len() ==> (#[trigger] self.next@[k] matches Some(child) ==> child.wf()
                && child.alive())
    }

    /// As `wf`, but for the nodes on the way along `w`, below which no word need
    /// end.
    spec fn loose(&self, w: Seq<char>) -> bool
        decreases w.len(),
    {
        &&& self.next@.len() == NEXT_NODE_SIZE
        &&& forall|k: int|
            0 <= k < self.next@.len() ==> (#[trigger] self.next@[k] matches Some(child) ==> if w.len()
                > 0 && k == letter_index(w[0]) {
                child.loose(w.drop_first())
            } else {
                child.wf() && child.alive()
            })
    }

    /// No word ends here and no node lies below.
    spec fn is_bare(&self) -> bool {
        self.accepted_cnt == 0 && forall|k: int|
            0 <= k < self.next@.len() ==> #[trigger] self.next@[k] is None
    }

    /// A node that is well formed is so along every way.
    proof fn lemma_wf_loose(&self, w: Seq<char>)
        requires
            self.wf(),
        ensures
            self.loose(w),
        decreases w.len(),
    {
        assert forall|k: int| 0 <= k < self.next@.len() implies (#[trigger] self.next@[k] matches Some(
            child,
        ) ==> if w.len() > 0 && k == letter_index(w[0]) {
            child.loose(w.drop_first())
        } else {
            child.wf() && child.alive()
        }) by {
            if w.len() > 0 && k == letter_index(w[0]) {
                if let Some(child) = self.next@[k] {
                    child.lemma_wf_loose(w.drop_first());
                }
            }
        }
    }

    /// A node without a word at it or below it is bare, and the other way round.
    proof fn lemma_bare(&self)
        requires
            self.wf(),
        ensures
            self.is_bare() <==> !self.alive(),
    {
        if self.is_bare() {
            assert forall|w: Seq<char>| self.count(w) == 0 by {}
        } else if self.accepted_cnt > 0 {
            assert(self.count(Seq::<char>::empty()) > 0);
        } else {
            let k = choose|k: int| 0 <= k < self.next@.len() && !(#[trigger] self.next@[k] is None);
            let child = self.next@[k]->0;
            let w = choose|w: Seq<char>| #[trigger] child.count(w) > 0;
            let c = (k + 'a' as int) as char;
            let full = seq![c] + w;
            assert(letter_index(c) == k);
            assert(full.drop_first() =~= w);
            assert(self.count(full) > 0);
        }
    }

    /// Where a way leads to a node, some word ends there or below.
    proof fn lemma_path_alive(&self, v: Seq<char>)
        requires
            self.wf(),
            self.has_path(v),
            v.len() > 0,
        ensures
            exists|ext: Seq<char>| #[trigger] self.count(v + ext) > 0,
        decreases v.len(),
    {
        let child = self.child(v[0])->0;
        if v.len() == 1 {
            let w = choose|w: Seq<char>| #[trigger] child.count(w) > 0;
            assert((v + w).drop_first() =~= w);
            assert(self.count(v + w) > 0);
        } else {
            child.lemma_path_alive(v.drop_first());
            let ext = choose|ext: Seq<char>| #[trigger] child.count(v.drop_first() + ext) > 0;
            assert((v + ext).drop_first() =~= v.drop_first() + ext);
            assert(self.count(v + ext) > 0);
        }
    }

    /// Where a word ends, every beginning of it leads to a node.
    proof fn lemma_count_path(&self, v: Seq<char>, ext: Seq<char>)
        requires
            self.count(v + ext) > 0,
        ensures
            self.has_path(v),
        decreases v.len(),
    {
        if v.len() > 0 {
            let child = self.child(v[0])->0;
            assert((v + ext)[0] == v[0]);
            assert((v + ext).drop_first() =~= v.drop_first() + ext);
            child.lemma_count_path(v.drop_first(), ext);
        }
    }

    fn new(accepted_cnt: usize) -> (node: Self)
        ensures
            node.wf(),
            node.accepted_cnt == accepted_cnt,
            forall|k: int| 0 <= k < NEXT_NODE_SIZE ==> #[trigger] node.next@[k] is None,
            forall|w: Seq<char>| w.len() > 0 ==> #[trigger] node.count(w) == 0,
            forall|w: Seq<char>| w.len() > 0 ==> !#[trigger] node.has_path(w),
    {
        let mut next: Vec<Option<Box<TrieNode>>> = Vec::new();
        let mut k: usize = 0;
        while k < NEXT_NODE_SIZE
            invariant
                k <= NEXT_NODE_SIZE,
                next@.len() == k,
                forall|j: int| 0 <= j < k ==> #[trigger] next@[j] is None,
            decreases NEXT_NODE_SIZE - k,
        {
            next.push(None);
            k += 1;
        }
        Self { accepted_cnt, next }
    }

    fn add(&mut self, i: usize, s: &[char])
        requires
            old(self).wf(),
            i <= s@.len(),
            is_word(s@),
            old(self).count(s@.skip(i as int)) < usize::MAX,
        ensures
            final(self).wf(),
            final(self).count(s@.skip(i as int)) == old(self).count(s@.skip(i as int)) + 1,
            forall|w: Seq<char>|
                w != s@.skip(i as int) ==> #[trigger] final(self).count(w) == old(self).count(w),
        decreases s@.len() - i,
    {
        if i < s.len() {
            let idx = letter_of(s[i]);
            let ghost rest = s@.skip(i + 1);
            proof {
                assert(s@.skip(i as int).drop_first() =~= rest);
            }
            let mut node = match self.next[idx].take() {
                Some(next_node) => *next_node,
                None => Self::new(0),
            };
            let ghost before = node;
            node.add(i + 1, s);
            let ghost after = node;
            self.next[idx] = Some(Box::new(node));
            proof {
                assert(after.count(rest) > 0);
                assert forall|w: Seq<char>| w != s@.skip(i as int) implies #[trigger] self.count(w) == old(self).count(w) by {
                    if w.len() > 0 && letter_index(w[0]) == idx {
                        assert(w.drop_first() != rest) by {
                            if w.drop_first() == rest {
                                assert(w[0] as int == s@[i as int] as int);
                                assert(w[0] == s@[i as int]);
                                assert forall|k: int| 1 <= k < w.len() implies w[k] == s@.skip(i as int)[k] by {
                                    assert(w[k] == w.drop_first()[k - 1]);
                                }
                                assert(w =~= s@.skip(i as int));
                            }
                        }
                        assert(after.count(w.drop_first()) == before.count(w.drop_first()));
                    }
                }
            }
        } else {
            proof {
                assert(s@.skip(i as int) =~= Seq::<char>::empty());
                assert forall|w: Seq<char>| w != s@.skip(i as int) implies #[trigger] old(self).count(w) == old(self).count(w) by {}
            }
            self.accepted_cnt += 1;
            proof {
                assert forall|w: Seq<char>| w != s@.skip(i as int) implies #[trigger] self.count(w)
                    == old(self).count(w) by {
                    if w.len() == 0 {
                        assert(w =~= Seq::<char>::empty());
                    }
                }
            }
        }
    }

    /// Takes `all` or one of the words that end where `s` leads, and says how many.
    fn delete_some(&mut self, i: usize, s: &[char], all: bool) -> (r: usize)
        requires
            old(self).wf(),
            i <= s@.len(),
            is_word(s@),
        ensures
            final(self).loose(s@.skip(i as int)),
            r == if all || old(self).count(s@.skip(i as int)) == 0 {
                old(self).count(s@.skip(i as int))
            } else {
                1
            },
            final(self).count(s@.skip(i as int)) == old(self).count(s@.skip(i as int)) - r,
            forall|w: Seq<char>|
                w != s@.skip(i as int) ==> #[trigger] final(self).count(w) == old(self).count(w),
            forall|w: Seq<char>| #[trigger] final(self).has_path(w) == old(self).has_path(w),
            r == 0 ==> final(self).wf(),
        decreases s@.len() - i,
    {
        if i == s.len() {
            proof {
                assert(s@.skip(i as int) =~= Seq::<char>::empty());
                self.lemma_wf_loose(s@.skip(i as int));
            }
            let res = if all || self.accepted_cnt == 0 {
                self.accepted_cnt
            } else {
                1
            };
            self.accepted_cnt = self.accepted_cnt - res;
            proof {
                assert forall|w: Seq<char>| w != s@.skip(i as int) implies #[trigger] self.count(w)
                    == old(self).count(w) by {
                    if w.len() == 0 {
                        assert(w =~= Seq::<char>::empty());
                    }
                }
                assert forall|w: Seq<char>| #[trigger] self.has_path(w) == old(self).has_path(
                    w,
                ) by {}
            }
            return res;
        }
        let idx = letter_of(s[i]);
        let ghost rest = s@.skip(i + 1);
        proof {
            assert(s@.skip(i as int).drop_first() =~= rest);
        }
        match self.next[idx].take() {
            Some(next_node) => {
                let mut node = *next_node;
                let ghost before = node;
                let r = node.delete_some(i + 1, s, all);
                let ghost after = node;
                proof {
                    if r == 0 {
                        let w = choose|w: Seq<char>| #[trigger] before.count(w) > 0;
                        assert(after.count(w) > 0);
                    }
                }
                self.next[idx] = Some(Box::new(node));
                proof {
                    assert forall|w: Seq<char>| w != s@.skip(i as int) implies #[trigger] self.count(w) == old(self).count(w) by {
                        if w.len() > 0 && letter_index(w[0]) == idx {
                            assert(w.drop_first() != rest) by {
                                if w.drop_first() == rest {
                                    assert(w[0] as int == s@[i as int] as int);
                                    assert(w[0] == s@[i as int]);
                                    assert forall|k: int| 1 <= k < w.len() implies w[k] == s@.skip(i as int)[k] by {
                                        assert(w[k] == w.drop_first()[k - 1]);
                                    }
                                    assert(w =~= s@.skip(i as int));
                                }
                            }
                            assert(after.count(w.drop_first()) == before.count(w.drop_first()));
                        }
                    }
                    assert forall|w: Seq<char>| #[trigger] self.has_path(w) == old(self).has_path(w) by {
                        if w.len() > 0 && letter_index(w[0]) == idx {
                            assert(after.has_path(w.drop_first()) == before.has_path(
                                w.drop_first(),
                            ));
                        }
                    }
                }
                r
            },
            None => {
                proof {
                    self.lemma_wf_loose(s@.skip(i as int));
                    assert(self.next@ =~= old(self).next@);
                }
                0
            },
        }
    }

    fn delete_one(&mut self, i: usize, s: &[char]) -> (r: usize)
        requires
            old(self).wf(),
            i <= s@.len(),
            is_word(s@),
        ensures
            final(self).loose(s@.skip(i as int)),
            r == if old(self).count(s@.skip(i as int)) == 0 {
                0usize
            } else {
                1usize
            },
            final(self).count(s@.skip(i as int)) == old(self).count(s@.skip(i as int)) - r,
            forall|w: Seq<char>|
                w != s@.skip(i as int) ==> #[trigger] final(self).count(w) == old(self).count(w),
            forall|w: Seq<char>| #[trigger] final(self).has_path(w) == old(self).has_path(w),
            r == 0 ==> final(self).wf(),
    {
        self.delete_some(i, s, false)
    }

    fn delete_all(&mut self, i: usize, s: &[char]) -> (r: usize)
        requires
            old(self).wf(),
            i <= s@.len(),
            is_word(s@),
        ensures
            final(self).loose(s@.skip(i as int)),
            r == old(self).count(s@.skip(i as int)),
            final(self).count(s@.skip(i as int)) == 0,
            forall|w: Seq<char>|
                w != s@.skip(i as int) ==> #[trigger] final(self).count(w) == old(self).count(w),
            forall|w: Seq<char>| #[trigger] final(self).has_path(w) == old(self).has_path(w),
            r == 0 ==> final(self).wf(),
    {
        self.delete_some(i, s, true)
    }

    /// No word ends here and no node lies below.
    fn bare(&self) -> (r: bool)
        requires
            self.next@.len() == NEXT_NODE_SIZE,
        ensures
            r == self.is_bare(),
    {
        if self.accepted_cnt != 0 {
            return false;
        }
        let mut k: usize = 0;
        while k < NEXT_NODE_SIZE
            invariant
                k <= NEXT_NODE_SIZE,
                self.next@.len() == NEXT_NODE_SIZE,
                forall|j: int| 0 <= j < k ==> #[trigger] self.next@[j] is None,
            decreases NEXT_NODE_SIZE - k,
        {
            if self.next[k].is_some() {
                return false;
            }
            k += 1;
        }
        true
    }

    /// Takes out the nodes on the way along `s` below which no word ends any
    /// more, and says whether this node is one of them.
    fn clean_up(&mut self, i: usize, s: &[char]) -> (r: bool)
        requires
            old(self).loose(s@.skip(i as int)),
            old(self).has_path(s@.skip(i as int)),
            i <= s@.len(),
            is_word(s@),
        ensures
            final(self).wf(),
            r == !final(self).alive(),
            forall|w: Seq<char>| #[trigger] final(self).count(w) == old(self).count(w),
        decreases s@.len() - i,
    {
        if i == s.len() {
            proof {
                assert(self.wf());
                self.lemma_bare();
            }
            return self.bare();
        }
        let idx = letter_of(s[i]);
        let ghost rest = s@.skip(i + 1);
        proof {
            assert(s@.skip(i as int).drop_first() =~= rest);
            assert(s@.skip(i as int)[0] == s@[i as int]);
        }
        match self.next[idx].take() {
            Some(next_node) => {
                let mut node = *next_node;
                let ghost before = node;
                let ret = node.clean_up(i + 1, s);
                let ghost after = node;
                if ret {
                    proof {
                        assert forall|w: Seq<char>| #[trigger] self.count(w) == old(self).count(
                            w,
                        ) by {
                            if w.len() > 0 && letter_index(w[0]) == idx {
                                assert(before.count(w.drop_first()) == after.count(w.drop_first()));
                                assert(after.count(w.drop_first()) == 0);
                            }
                        }
                        assert(self.wf());
                        self.lemma_bare();
                    }
                    return self.bare();
                }
                self.next[idx] = Some(Box::new(node));
                proof {
                    assert forall|w: Seq<char>| #[trigger] self.count(w) == old(self).count(
                        w,
                    ) by {
                        if w.len() > 0 && letter_index(w[0]) == idx {
                            assert(before.count(w.drop_first()) == after.count(w.drop_first()));
                        }
                    }
                    assert(self.wf());
                    self.lemma_bare();
                    assert(!self.is_bare());
                }
                false
            },
            None => false,
        }
    }

    fn search(&self, i: usize, s: &[char]) -> (r: Result<usize, ()>)
        requires
            self.wf(),
            i <= s@.len(),
            is_word(s@),
        ensures
            r == if self.count(s@.skip(i as int)) > 0 {
                Ok::<usize, ()>(self.count(s@.skip(i as int)) as usize)
            } else {
                Err::<usize, ()>(())
            },
        decreases s@.len() - i,
    {
        if i == s.len() {
            return if self.accepted_cnt > 0 {
                Ok(self.accepted_cnt)
            } else {
                Err(())
            };
        }
        let idx = letter_of(s[i]);
        proof {
            assert(s@.skip(i as int).drop_first() =~= s@.skip(i + 1));
        }
        match &self.next[idx] {
            Some(next_node) => next_node.search(i + 1, s),
            None => Err(()),
        }
    }

    fn lcp(&self, i: usize, s: &[char]) -> (r: usize)
        requires
            self.wf(),
            i <= s@.len(),
            is_word(s@),
        ensures
            i <= r <= s@.len(),
            self.has_path(s@.subrange(i as int, r as int)),
            r < s@.len() ==> !self.has_path(s@.subrange(i as int, r + 1)),
        decreases s@.len() - i,
    {
        if i == s.len() {
            return i;
        }
        let idx = letter_of(s[i]);
        match &self.next[idx] {
            Some(next_node) => {
                let r = next_node.lcp(i + 1, s);
                proof {
                    assert(s@.subrange(i as int, r as int).drop_first() =~= s@.subrange(
                        i + 1,
                        r as int,
                    ));
                    if r < s@.len() {
                        assert(s@.subrange(i as int, r + 1).drop_first() =~= s@.subrange(
                            i + 1,
                            r + 1,
                        ));
                    }
                }
                r
            },
            None => {
                proof {
                    assert(s@.subrange(i as int, i + 1)[0] == s@[i as int]);
                }
                i
            },
        }
    }
}

/// The place of the letter `c` in the alphabet, from 0.
fn letter_of(c: char) -> (idx: usize)
    requires
        is_letter(c),
    ensures
        idx == letter_index(c),
        idx < NEXT_NODE_SIZE,
{
    (c as u8 - 97u8) as usize
}

/// A collection of words over the letters `a` to `z`, each with the number of
/// times that it was put in. The empty word is in it once from the beginning.
pub struct Trie {
    root: TrieNode,
}

impl Trie {
    /// The representation invariant: below every node but the root some word ends.
    pub closed spec fn wf(&self) -> bool {
        self.root.wf()
    }

    /// How often the word `w` is in the collection.
    pub closed spec fn count(&self, w: Seq<char>) -> nat {
        self.root.count(w)
    }

    /// Some word of the collection begins with `v`; the empty beginning always
    /// counts.
    pub open spec fn has_prefix(&self, v: Seq<char>) -> bool {
        v.len() == 0 || exists|ext: Seq<char>| #[trigger] self.count(v + ext) > 0
    }

    /// The collection that holds the empty word once.
    pub fn new() -> (t: Self)
        ensures
            t.wf(),
            forall|w: Seq<char>|
                #[trigger] t.count(w) == if w.len() == 0 {
                    1nat
                } else {
                    0nat
                },
    {
        Self { root: TrieNode::new(1) }
    }

    /// Puts the word `s` in once more.
    pub fn insert(&mut self, s: &String)
        requires
            old(self).wf(),
            is_word(s@),
            old(self).count(s@) < usize::MAX,
        ensures
            final(self).wf(),
            final(self).count(s@) == old(self).count(s@) + 1,
            forall|w: Seq<char>| w != s@ ==> #[trigger] final(self).count(w) == old(self).count(w),
    {
        let chars = chars_of(s);
        proof {
            assert(chars@.skip(0) =~= s@);
        }
        self.root.add(0, chars.as_slice());
    }

    /// How often the word `s` is in the collection, or an error where it is not.
    pub fn search(&self, s: &String) -> (r: Result<usize, ()>)
        requires
            self.wf(),
            is_word(s@),
        ensures
            r == if self.count(s@) > 0 {
                Ok::<usize, ()>(self.count(s@) as usize)
            } else {
                Err::<usize, ()>(())
            },
    {
        let chars = chars_of(s);
        proof {
            assert(chars@.skip(0) =~= s@);
        }
        self.root.search(0, chars.as_slice())
    }

    /// Takes the word `s` out, once or as often as it is in, and says how often;
    /// an error where it is not in, and then nothing changes.
    pub fn delete(&mut self, s: &String, is_delete_all: bool) -> (r: Result<usize, ()>)
        requires
            old(self).wf(),
            is_word(s@),
        ensures
            final(self).wf(),
            r == if old(self).count(s@) == 0 {
                Err::<usize, ()>(())
            } else if is_delete_all {
                Ok::<usize, ()>(old(self).count(s@) as usize)
            } else {
                Ok::<usize, ()>(1usize)
            },
            final(self).count(s@) == if is_delete_all {
                0
            } else if old(self).count(s@) == 0 {
                0
            } else {
                old(self).count(s@) - 1
            },
            forall|w: Seq<char>| w != s@ ==> #[trigger] final(self).count(w) == old(self).count(w),
    {
        let chars = chars_of(s);
        proof {
            assert(chars@.skip(0) =~= s@);
        }
        let res = if is_delete_all {
            self.root.delete_all(0, chars.as_slice())
        } else {
            self.root.delete_one(0, chars.as_slice())
        };
        if res == 0 {
            Err(())
        } else {
            proof {
                let w = s@ + Seq::<char>::empty();
                assert(w =~= s@);
                old(self).root.lemma_count_path(s@, Seq::<char>::empty());
            }
            self.root.clean_up(0, chars.as_slice());
            Ok(res)
        }
    }

    /// The length of the longest beginning of `s` with which a word of the
    /// collection begins.
    pub fn lcp(&self, s: &String) -> (r: usize)
        requires
            self.wf(),
            is_word(s@),
        ensures
            r <= s@.len(),
            self.has_prefix(s@.take(r as int)),
            r < s@.len() ==> !self.has_prefix(s@.take(r + 1)),
    {
        let chars = chars_of(s);
        let r = self.root.lcp(0, chars.as_slice());
        proof {
            assert(s@.subrange(0, r as int) =~= s@.take(r as int));
            if r > 0 {
                let v = s@.take(r as int);
                self.root.lemma_path_alive(v);
                let ext = choose|ext: Seq<char>| #[trigger] self.root.count(v + ext) > 0;
                assert(self.count(v + ext) > 0);
            }
            if r < s@.len() {
                let v = s@.take(r + 1);
                assert(s@.subrange(0, r + 1) =~= v);
                if self.has_prefix(v) {
                    let ext = choose|ext: Seq<char>| #[trigger] self.count(v + ext) > 0;
                    self.root.lemma_count_path(v, ext);
                }
            }
        }
        r
    }
}

} // verus!

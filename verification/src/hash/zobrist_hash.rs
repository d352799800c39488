use crate::misc::rand::{sample, Pcg32, MAX_DRAWS};
use crate::utils::versatility_functions::Endpoint;
use std::collections::{BTreeMap, BTreeSet};
use vstd::prelude::*;

verus! {

/// The values lie from 0 up to this prime, `2^61 - 1`.
pub const MOD: u64 = 2305843009213693951;

/// The least value from `v` on that is not in use, or `MOD + 1` where all up
/// to `MOD` are.
pub open spec fn first_free(used: Set<u64>, v: u64) -> u64
    decreases MOD + 1 - v,
{
    if v > MOD || !used.contains(v) {
        v
    } else {
        first_free(used, (v + 1) as u64)
    }
}

/// A finite set that holds every value below `v` has at least `v` values.
pub proof fn lemma_full_below(used: Set<u64>, v: u64)
    requires
        used.finite(),
        forall|x: u64| x < v ==> used.contains(x),
    ensures
        used.len() >= v,
    decreases v,
{
    if v > 0 {
        let last = (v - 1) as u64;
        assert(used.contains(last));
        lemma_full_below(used.remove(last), last);
    }
}

/// The value for a new key, and the generator's state after it: the first draw
/// from `0..=MOD`, and while that is in use, up to `tries` times, a draw from
/// `0..MOD`; where the last of them is in use too, the least value that is
/// not.
pub open spec fn pick(state: u64, inc: u64, used: Set<u64>, tries: u32) -> (u64, u64) {
    let first = sample::<u64>(state, inc, 0, MOD + 1, MAX_DRAWS as nat);
    redraw(first.0 as u64, first.1, inc, used, tries as nat)
}

/// The value `val` if it is not in use, and otherwise what the next draw
/// from `0..MOD` leads to, or, where no try is left, the least value that is
/// not in use.
pub open spec fn redraw(val: u64, state: u64, inc: u64, used: Set<u64>, tries: nat) -> (u64, u64)
    decreases tries,
{
    if !used.contains(val) {
        (val, state)
    } else if tries == 0 {
        (first_free(used, 0), state)
    } else {
        let next = sample::<u64>(state, inc, 0, MOD as int, MAX_DRAWS as nat);
        redraw(next.0 as u64, next.1, inc, used, (tries - 1) as nat)
    }
}

/// As `redraw`, with the number of tries as the machine holds it.
pub open spec fn redraw_from(val: u64, state: u64, inc: u64, used: Set<u64>, tries: u32) -> (
    u64,
    u64,
) {
    redraw(val, state, inc, used, tries as nat)
}

/// A table that gives every key a random value of its own, for hashing sets
/// of keys.
pub struct ZobristHash<T> {
    map: BTreeMap<T, u64>,
    set: BTreeSet<u64>,
    rng: Pcg32,
}

impl<T: Ord> Default for ZobristHash<T> {
    fn default() -> (s: Self)
        ensures
            s.wf(),
            s.table() == Map::<T, u64>::empty(),
            s.used() == Set::<u64>::empty(),
    {
        Self::new()
    }
}

impl<T: Ord> ZobristHash<T> {
    /// The value of each key that was asked for.
    pub closed spec fn table(&self) -> Map<T, u64> {
        self.map@
    }

    /// The values that are in use.
    pub closed spec fn used(&self) -> Set<u64> {
        self.set@
    }

    /// The generator that the values are drawn from.
    pub closed spec fn rng(&self) -> Pcg32 {
        self.rng
    }

    /// The representation invariant: the value of every key is in use.
    pub closed spec fn wf(&self) -> bool {
        &&& self.set@.finite()
        &&& forall|k: T| self.map@.contains_key(k) ==> self.set@.contains(#[trigger] self.map@[k])
    }

    /// The values in use are finitely many.
    pub proof fn lemma_used_finite(&self)
        requires
            self.wf(),
        ensures
            self.used().finite(),
    {
    }

    /// The empty table, with a generator seeded from the clock.
    pub fn new() -> (s: Self)
        ensures
            s.wf(),
            s.table() == Map::<T, u64>::empty(),
            s.used() == Set::<u64>::empty(),
    {
        Self { map: BTreeMap::new(), set: BTreeSet::new(), rng: Pcg32::new() }
    }

    /// The value of `key`: the one that it has, or for a new key one that is
    /// drawn for it and that no other key has. Some value up to `MOD` is not
    /// in use.
    pub fn get(&mut self, key: T) -> (val: u64)
        requires
            old(self).wf(),
            vstd::laws_cmp::obeys_cmp::<T>(),
            old(self).used().len() <= MOD,
        ensures
            final(self).wf(),
            final(self).rng().inc() == old(self).rng().inc(),
            old(self).table().contains_key(key) ==> {
                &&& val == old(self).table()[key]
                &&& final(self).table() == old(self).table()
                &&& final(self).used() == old(self).used()
                &&& final(self).rng().state() == old(self).rng().state()
            },
            !old(self).table().contains_key(key) ==> {
                &&& (val, final(self).rng().state()) == pick(
                    old(self).rng().state(),
                    old(self).rng().inc(),
                    old(self).used(),
                    MAX_DRAWS,
                )
                &&& val <= MOD
                &&& !old(self).used().contains(val)
                &&& final(self).used().len() == old(self).used().len() + 1
                &&& final(self).table() == old(self).table().insert(key, val)
                &&& final(self).used() == old(self).used().insert(val)
            },
    {
        broadcast use vstd::std_specs::btree::group_btree_axioms;
        broadcast use vstd::laws_cmp::group_laws_cmp;

        if let Some(val) = self.map.get(&key) {
            return *val;
        }
        let mut val: u64 = self.rng.gen_range((Endpoint::Included(0u64), Endpoint::Included(MOD)));
        let mut tries: u32 = MAX_DRAWS;
        let ghost mut after_draws = self.rng;
        while tries > 0 && self.set.contains(&val)
            invariant
                self.map == old(self).map,
                self.set == old(self).set,
                self.rng.inc() == old(self).rng.inc(),
                val <= MOD,
                redraw_from(val, self.rng.state(), self.rng.inc(), self.set@, tries) == pick(
                    old(self).rng.state(),
                    old(self).rng.inc(),
                    old(self).set@,
                    MAX_DRAWS,
                ),
            decreases tries,
        {
            val = self.rng.gen_range((Endpoint::Included(0u64), Endpoint::Excluded(MOD)));
            tries -= 1;
        }
        proof {
            after_draws = self.rng;
        }
        if self.set.contains(&val) {
            let mut v: u64 = 0;
            while v <= MOD && self.set.contains(&v)
                invariant
                    self.map == old(self).map,
                    self.set == old(self).set,
                    self.rng == after_draws,
                    v <= MOD + 1,
                    forall|x: u64| x < v ==> self.set@.contains(x),
                    first_free(self.set@, v) == first_free(self.set@, 0),
                decreases MOD + 1 - v,
            {
                v += 1;
            }
            proof {
                if v > MOD {
                    lemma_full_below(self.set@, v);
                }
            }
            val = v;
        }
        self.map.insert(key, val);
        self.set.insert(val);
        val
    }
}

} // verus!

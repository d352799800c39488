use crate::data_structure::skip_list::SkipList;
use vstd::prelude::*;

verus! {

/// One operation on a sequence that is addressed by position.
#[derive(Clone, Copy)]
pub enum Op<T> {
    /// Put a value at a position.
    Insert(usize, T),
    /// Take the value at a position out.
    Delete(usize),
    /// Read the value at a position.
    Get(usize),
}

/// What reading position `p` of the sequence `s` gives.
pub open spec fn get_spec<T>(s: Seq<T>, p: int) -> Option<T> {
    if 0 <= p < s.len() {
        Some(s[p])
    } else {
        None
    }
}

/// What taking position `p` out of the sequence `s` leaves, and what it gives.
pub open spec fn delete_spec<T>(s: Seq<T>, p: int) -> (Seq<T>, Option<T>) {
    if 0 <= p < s.len() {
        (s.remove(p), Some(s[p]))
    } else {
        (s, None)
    }
}

/// An insertion is allowed up to the end of the sequence; the other operations
/// are allowed everywhere.
pub open spec fn op_allowed<T>(s: Seq<T>, op: Op<T>) -> bool {
    op matches Op::Insert(p, _) ==> p <= s.len()
}

/// One operation on a plain sequence: the sequence after it, and what it gives.
pub open spec fn step<T>(s: Seq<T>, op: Op<T>) -> (Seq<T>, Option<T>) {
    match op {
        Op::Insert(p, v) => (s.insert(p as int, v), None),
        Op::Delete(p) => delete_spec(s, p as int),
        Op::Get(p) => (s, get_spec(s, p as int)),
    }
}

/// The operations `ops` in turn on a plain sequence: the sequence after the
/// last one, and what each of them gave.
pub open spec fn run<T>(s: Seq<T>, ops: Seq<Op<T>>) -> (Seq<T>, Seq<Option<T>>)
    decreases ops.len(),
{
    if ops.len() == 0 {
        (s, Seq::empty())
    } else {
        let before = run(s, ops.drop_last());
        let last = step(before.0, ops.last());
        (last.0, before.1.push(last.1))
    }
}

/// Every operation of `ops` is allowed on the sequence that it meets.
pub open spec fn allowed<T>(s: Seq<T>, ops: Seq<Op<T>>) -> bool
    decreases ops.len(),
{
    ops.len() == 0 || (allowed(s, ops.drop_last()) && op_allowed(
        run(s, ops.drop_last()).0,
        ops.last(),
    ))
}

/// Number of insertions among `ops`.
pub open spec fn inserts<T>(ops: Seq<Op<T>>) -> nat
    decreases ops.len(),
{
    if ops.len() == 0 {
        0
    } else {
        inserts(ops.drop_last()) + if ops.last() is Insert {
            1nat
        } else {
            0nat
        }
    }
}

/// Number of deletions among `ops` that found an element, starting from `s`.
pub open spec fn deletes_done<T>(s: Seq<T>, ops: Seq<Op<T>>) -> nat
    decreases ops.len(),
{
    if ops.len() == 0 {
        0
    } else {
        deletes_done(s, ops.drop_last()) + if ops.last() is Delete && step(
            run(s, ops.drop_last()).0,
            ops.last(),
        ).1 is Some {
            1nat
        } else {
            0nat
        }
    }
}

/// The insertions that put `vals[0]` at position 0, `vals[1]` at position 1,
/// and so on.
pub open spec fn appends<T>(vals: Seq<T>) -> Seq<Op<T>> {
    Seq::new(vals.len(), |i: int| Op::Insert(i as usize, vals[i]))
}

/// `n` deletions of position 0.
pub open spec fn drains<T>(n: nat) -> Seq<Op<T>> {
    Seq::new(n, |i: int| Op::Delete(0))
}

/// Operations that are allowed stay allowed when the last ones are left out.
pub proof fn lemma_allowed_prefix<T>(s: Seq<T>, ops: Seq<Op<T>>, k: int)
    requires
        allowed(s, ops),
        0 <= k <= ops.len(),
    ensures
        allowed(s, ops.take(k)),
    decreases ops.len(),
{
    if k == ops.len() {
        assert(ops.take(k) =~= ops);
    } else {
        lemma_allowed_prefix(s, ops.drop_last(), k);
        assert(ops.drop_last().take(k) =~= ops.take(k));
    }
}

/// The length after a run from the empty sequence is the number of insertions
/// less the number of deletions that found an element.
pub proof fn lemma_length<T>(ops: Seq<Op<T>>)
    requires
        allowed(Seq::<T>::empty(), ops),
    ensures
        run(Seq::<T>::empty(), ops).0.len() == inserts(ops) - deletes_done(Seq::<T>::empty(), ops),
    decreases ops.len(),
{
    if ops.len() > 0 {
        lemma_length(ops.drop_last());
    }
}

/// Inserting values at positions 0, 1, 2, ... in turn gives the sequence of the
/// values, so that reading position `i` afterwards gives the `i`-th of them.
pub proof fn lemma_round_trip<T>(vals: Seq<T>)
    requires
        vals.len() <= usize::MAX,
    ensures
        allowed(Seq::<T>::empty(), appends(vals)),
        run(Seq::<T>::empty(), appends(vals)).0 == vals,
        forall|i: int| 0 <= i < vals.len() ==> get_spec(vals, i) == Some(vals[i]),
    decreases vals.len(),
{
    if vals.len() > 0 {
        let init = vals.drop_last();
        lemma_round_trip(init);
        assert(appends(vals).drop_last() =~= appends(init));
        assert(init.insert(init.len() as int, vals.last()) =~= vals);
    }
}

/// Deleting position 0 as many times as the sequence is long gives its values
/// in their order and leaves it empty.
pub proof fn lemma_full_drain<T>(s: Seq<T>)
    ensures
        run(s, drains::<T>(s.len())).0 == Seq::<T>::empty(),
        run(s, drains::<T>(s.len())).1 == s.map_values(|v: T| Some(v)),
{
    lemma_drain_prefix(s, s.len());
    assert(s.skip(s.len() as int) =~= Seq::<T>::empty());
    assert(s.take(s.len() as int) =~= s);
}

/// `k` deletions of position 0 give the first `k` values and leave the rest.
pub proof fn lemma_drain_prefix<T>(s: Seq<T>, k: nat)
    requires
        k <= s.len(),
    ensures
        run(s, drains::<T>(k)).0 == s.skip(k as int),
        run(s, drains::<T>(k)).1 == s.take(k as int).map_values(|v: T| Some(v)),
    decreases k,
{
    if k == 0 {
        assert(s.skip(0) =~= s);
        assert(s.take(0).map_values(|v: T| Some(v)) =~= Seq::<Option<T>>::empty());
    } else {
        let j = (k - 1) as nat;
        lemma_drain_prefix(s, j);
        assert(drains::<T>(k).drop_last() =~= drains::<T>(j));
        assert(s.skip(j as int).remove(0) =~= s.skip(k as int));
        assert(s.take(j as int).map_values(|v: T| Some(v)).push(Some(s[j as int])) =~= s.take(
            k as int,
        ).map_values(|v: T| Some(v)));
    }
}

/// Reading or deleting at a position from the length on finds nothing and
/// changes nothing.
pub proof fn lemma_boundary<T>(s: Seq<T>, p: usize)
    requires
        p >= s.len(),
    ensures
        step(s, Op::Get(p)) == (s, None::<T>),
        step(s, Op::Delete(p)) == (s, None::<T>),
{
}

impl<T: Copy> SkipList<T> {
    /// Carries out one operation as `step` does on a plain sequence.
    pub fn apply(&mut self, op: Op<T>) -> (r: Option<T>)
        requires
            old(self).wf(),
            op_allowed(old(self)@, op),
        ensures
            final(self).wf(),
            (final(self)@, r) == step(old(self)@, op),
    {
        match op {
            Op::Insert(p, v) => {
                self.insert(p, v);
                None
            },
            Op::Delete(p) => self.delete(p),
            Op::Get(p) => self.get(p),
        }
    }

    /// Carries out the operations in turn as `run` does on a plain sequence:
    /// the list ends with the same values, and each operation gives the same.
    pub fn apply_all(&mut self, ops: &Vec<Op<T>>) -> (results: Vec<Option<T>>)
        requires
            old(self).wf(),
            allowed(old(self)@, ops@),
        ensures
            final(self).wf(),
            (final(self)@, results@) == run(old(self)@, ops@),
            final(self)@.len() == run(old(self)@, ops@).0.len(),
    {
        let mut results: Vec<Option<T>> = Vec::new();
        let mut i: usize = 0;
        while i < ops.len()
            invariant
                i <= ops.len(),
                self.wf(),
                allowed(old(self)@, ops@),
                (self@, results@) == run(old(self)@, ops@.take(i as int)),
            decreases ops.len() - i,
        {
            proof {
                lemma_allowed_prefix(old(self)@, ops@, i + 1);
                assert(ops@.take(i + 1).drop_last() =~= ops@.take(i as int));
            }
            let r = self.apply(ops[i]);
            results.push(r);
            i += 1;
        }
        proof {
            assert(ops@.take(i as int) =~= ops@);
        }
        results
    }
}

} // verus!

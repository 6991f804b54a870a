use vstd::prelude::*;
use vstd::set_lib::*;

verus! {

/// A fixed set of packet slots. Slot `i` is owned by some component exactly
/// when `in_use[i]` holds; otherwise it is free.
pub struct BufferPool {
    pub in_use: Vec<bool>,
}

impl BufferPool {
    /// The number of slots.
    pub open spec fn capacity_spec(&self) -> nat {
        self.in_use@.len()
    }

    /// The slots that are currently owned.
    pub open spec fn owned(&self) -> Set<int> {
        Set::new(|i: int| 0 <= i < self.in_use@.len() && self.in_use@[i])
    }

    /// Every slot is owned.
    pub open spec fn exhausted(&self) -> bool {
        forall|i: int| 0 <= i < self.in_use@.len() ==> #[trigger] self.in_use@[i]
    }

    /// A pool of `n` free slots.
    pub fn new(n: usize) -> (r: BufferPool)
        ensures
            r.capacity_spec() == n,
            r.owned() == Set::<int>::empty(),
    {
        let mut in_use: Vec<bool> = Vec::new();
        let mut k: usize = 0;
        while k < n
            invariant
                k <= n,
                in_use@.len() == k,
                forall|i: int| 0 <= i < k ==> !#[trigger] in_use@[i],
            decreases n - k,
        {
            in_use.push(false);
            k = k + 1;
        }
        let r = BufferPool { in_use };
        assert(r.owned() =~= Set::<int>::empty());
        r
    }

    pub fn capacity(&self) -> (r: usize)
        ensures
            r == self.capacity_spec(),
    {
        self.in_use.len()
    }

    /// Whether `slot` is currently owned.
    pub fn is_owned(&self, slot: usize) -> (r: bool)
        ensures
            r == self.owned().contains(slot as int),
    {
        slot < self.in_use.len() && self.in_use[slot]
    }

    /// The number of owned slots.
    pub fn owned_count(&self) -> (r: usize)
        ensures
            r == self.owned().len(),
            r <= self.capacity_spec(),
    {
        let mut count: usize = 0;
        let mut k: usize = 0;
        assert(self.owned_below(0) =~= Set::<int>::empty());
        while k < self.in_use.len()
            invariant
                k <= self.in_use@.len(),
                count <= k,
                self.owned_below(k as int).finite(),
                count == self.owned_below(k as int).len(),
            decreases self.in_use@.len() - k,
        {
            let ghost below = self.owned_below(k as int);
            if self.in_use[k] {
                assert(self.owned_below(k + 1) =~= below.insert(k as int));
                count = count + 1;
            } else {
                assert(self.owned_below(k + 1) =~= below);
            }
            k = k + 1;
        }
        assert(self.owned_below(k as int) =~= self.owned());
        count
    }

    /// The owned slots under `k`.
    pub open spec fn owned_below(&self, k: int) -> Set<int> {
        Set::new(|i: int| 0 <= i < k && i < self.in_use@.len() && self.in_use@[i])
    }

    /// Takes the lowest free slot, or reports that none is free.
    /// Returns `None` exactly when the pool is exhausted.
    pub fn acquire(&mut self) -> (r: Option<usize>)
        ensures
            final(self).capacity_spec() == old(self).capacity_spec(),
            r.is_none() <==> old(self).exhausted(),
            r.is_none() ==> *final(self) == *old(self),
            r matches Some(s) ==> {
                &&& s < old(self).capacity_spec()
                &&& !old(self).owned().contains(s as int)
                &&& final(self).owned() == old(self).owned().insert(s as int)
                &&& forall|i: int| 0 <= i < s ==> #[trigger] old(self).in_use@[i]
            },
    {
        let mut k: usize = 0;
        while k < self.in_use.len()
            invariant
                k <= self.in_use@.len(),
                *self == *old(self),
                forall|i: int| 0 <= i < k ==> #[trigger] self.in_use@[i],
            decreases self.in_use@.len() - k,
        {
            if !self.in_use[k] {
                self.in_use.set(k, true);
                assert(self.owned() =~= old(self).owned().insert(k as int));
                return Some(k);
            }
            k = k + 1;
        }
        None
    }

    /// Returns `slot` to the free set. Returns `false`, and changes nothing,
    /// where the slot is not owned (a second release of the same slot).
    pub fn release(&mut self, slot: usize) -> (r: bool)
        ensures
            final(self).capacity_spec() == old(self).capacity_spec(),
            r == old(self).owned().contains(slot as int),
            final(self).owned() == old(self).owned().remove(slot as int),
            !r ==> *final(self) == *old(self),
    {
        if slot < self.in_use.len() && self.in_use[slot] {
            self.in_use.set(slot, false);
            assert(self.owned() =~= old(self).owned().remove(slot as int));
            true
        } else {
            assert(old(self).owned().remove(slot as int) =~= old(self).owned());
            false
        }
    }
}

/// However acquire and release are interleaved, the owned slots are slots of
/// the pool, so there are never more of them than the pool's capacity.
pub proof fn lemma_owned_within_capacity(p: BufferPool)
    ensures
        p.owned().finite(),
        p.owned().len() <= p.capacity_spec(),
        forall|i: int| #[trigger] p.owned().contains(i) ==> 0 <= i < p.capacity_spec(),
{
    let all = set_int_range(0, p.in_use@.len() as int);
    lemma_int_range(0, p.in_use@.len() as int);
    assert(p.owned().subset_of(all));
    lemma_len_subset(p.owned(), all);
}

} // verus!

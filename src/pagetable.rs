use vstd::prelude::*;
use crate::table::Error;

verus! {

/// Bit 63 of a slot word marks a page store handle.
pub const STORE_TAG: u64 = 0x8000_0000_0000_0000;

/// Where a page lives: in memory, or in the page store.
#[derive(Debug, PartialEq, Eq, Structural, Clone, Copy)]
pub enum PageAddr {
    Mem(u64),
    Store(u64),
}

/// The slot word of an address: a store handle carries bit 63, an in-memory
/// address does not.
pub open spec fn addr_word(a: PageAddr) -> int {
    match a {
        PageAddr::Mem(p) => p as int,
        PageAddr::Store(h) => h + STORE_TAG,
    }
}

/// Both kinds of address are 63-bit numbers.
pub open spec fn addr_fits(a: PageAddr) -> bool {
    match a {
        PageAddr::Mem(p) => p < STORE_TAG,
        PageAddr::Store(h) => h < STORE_TAG,
    }
}

/// Packs an address into a slot word.
pub fn encode_addr(a: PageAddr) -> (r: u64)
    requires
        addr_fits(a),
    ensures
        r == addr_word(a),
{
    match a {
        PageAddr::Mem(p) => p,
        PageAddr::Store(h) => h + STORE_TAG,
    }
}

/// Reads the address out of a slot word.
pub fn decode_addr(w: u64) -> (r: PageAddr)
    ensures
        addr_fits(r),
        addr_word(r) == w,
{
    if w >= STORE_TAG {
        PageAddr::Store(w - STORE_TAG)
    } else {
        PageAddr::Mem(w)
    }
}

/// Maps page identifiers to slot words; freed identifiers are reused.
pub struct PageTable {
    slots: Vec<u64>,
    free: Vec<u64>,
    capacity: usize,
}

impl PageTable {
    pub closed spec fn allocated(&self, pid: u64) -> bool {
        pid < self.slots@.len() && !self.free@.contains(pid)
    }

    /// The slot word of each allocated identifier.
    pub closed spec fn view(&self) -> Map<u64, u64> {
        Map::new(|pid: u64| self.allocated(pid), |pid: u64| self.slots@[pid as int])
    }

    /// How many identifiers the table can hand out.
    pub closed spec fn spec_capacity(&self) -> nat {
        self.capacity as nat
    }

    pub closed spec fn wf(&self) -> bool {
        &&& self.slots@.len() <= self.capacity
        &&& self.free@.no_duplicates()
        &&& forall|i: int| 0 <= i < self.free@.len() ==> #[trigger] self.free@[i] < self.slots@.len()
    }

    pub fn new(capacity: usize) -> (r: PageTable)
        ensures
            r.wf(),
            r@ == Map::<u64, u64>::empty(),
            r.spec_capacity() == capacity,
    {
        let r = PageTable { slots: Vec::new(), free: Vec::new(), capacity };
        assert(r@ =~= Map::<u64, u64>::empty());
        r
    }

    /// Allocates an identifier whose slot holds `word`: a freed one if there
    /// is one, else the next never used. Fails when every identifier below the
    /// capacity is allocated.
    pub fn alloc_pid(&mut self, word: u64) -> (r: Result<u64, Error>)
        requires
            old(self).wf(),
        ensures
            final(self).wf(),
            final(self).spec_capacity() == old(self).spec_capacity(),
            r is Err <==> forall|p: u64| p < old(self).spec_capacity() ==> old(self)@.contains_key(p),
            r is Err ==> r == Err::<u64, Error>(Error::Exhausted) && final(self)@ == old(self)@,
            r is Ok ==> r->Ok_0 < old(self).spec_capacity() && !old(self)@.contains_key(r->Ok_0)
                && final(self)@ == old(self)@.insert(r->Ok_0, word),
    {
        let ghost before = self@;
        if self.free.len() > 0 {
            let pid = self.free.pop().unwrap();
            proof {
                let f = old(self).free@;
                assert(f[f.len() - 1] == pid);
                assert(self.free@ =~= f.drop_last());
                assert forall|x: u64| #[trigger] self.free@.contains(x) implies f.contains(x) && x != pid by {
                    let i = choose|i: int| 0 <= i < self.free@.len() && self.free@[i] == x;
                    assert(f[i] == x);
                }
                assert forall|x: u64| f.contains(x) && x != pid implies #[trigger] self.free@.contains(x) by {
                    let i = choose|i: int| 0 <= i < f.len() && f[i] == x;
                    assert(i != f.len() - 1);
                    assert(self.free@[i] == x);
                }
                assert(f.contains(pid));
                assert(!before.contains_key(pid));
                assert(f[f.len() - 1] < old(self).slots@.len());
            }
            self.slots.set(pid as usize, word);
            proof {
                assert(self@ =~= before.insert(pid, word));
            }
            Ok(pid)
        } else if self.slots.len() < self.capacity {
            let pid = self.slots.len() as u64;
            assert(!before.contains_key(pid));
            self.slots.push(word);
            proof {
                assert forall|x: u64| !#[trigger] self.free@.contains(x) by {}
                assert(self@ =~= before.insert(pid, word));
            }
            Ok(pid)
        } else {
            proof {
                assert forall|p: u64| p < old(self).spec_capacity() implies before.contains_key(p) by {
                    assert(!self.free@.contains(p));
                }
            }
            Err(Error::Exhausted)
        }
    }

    /// Returns an allocated identifier to the free list.
    pub fn free_pid(&mut self, pid: u64)
        requires
            old(self).wf(),
            old(self)@.contains_key(pid),
        ensures
            final(self).wf(),
            final(self).spec_capacity() == old(self).spec_capacity(),
            final(self)@ == old(self)@.remove(pid),
    {
        let ghost before = self@;
        assert(self.allocated(pid));
        self.free.push(pid);
        proof {
            let f = old(self).free@;
            assert forall|x: u64| #[trigger] self.free@.contains(x) <==> f.contains(x) || x == pid by {
                if self.free@.contains(x) {
                    let i = choose|i: int| 0 <= i < self.free@.len() && self.free@[i] == x;
                    if i < f.len() {
                        assert(f[i] == x);
                    }
                }
                if f.contains(x) {
                    let i = choose|i: int| 0 <= i < f.len() && f[i] == x;
                    assert(self.free@[i] == x);
                }
                if x == pid {
                    assert(self.free@[f.len() as int] == x);
                }
            }
            assert(self@ =~= before.remove(pid));
        }
    }

    /// The slot word of an allocated identifier.
    pub fn load(&self, pid: u64) -> (r: u64)
        requires
            self.wf(),
            self@.contains_key(pid),
        ensures
            r == self@[pid],
    {
        self.slots[pid as usize]
    }

    /// Replaces the slot word of `pid` by `new` if it still is `expected`;
    /// says whether it did.
    pub fn cas(&mut self, pid: u64, expected: u64, new: u64) -> (r: bool)
        requires
            old(self).wf(),
            old(self)@.contains_key(pid),
        ensures
            final(self).wf(),
            final(self).spec_capacity() == old(self).spec_capacity(),
            r == (old(self)@[pid] == expected),
            r ==> final(self)@ == old(self)@.insert(pid, new),
            !r ==> final(self)@ == old(self)@,
    {
        let ghost before = self@;
        if self.slots[pid as usize] == expected {
            self.slots.set(pid as usize, new);
            assert(self@ =~= before.insert(pid, new));
            true
        } else {
            false
        }
    }
}

} // verus!

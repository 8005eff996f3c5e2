//! The register / SRAM access seam.
//!
//! Every hardware block on the RV1106 that the firmware touches through
//! `/dev/mem` (the CRU reset ladder, the HPMCU mailbox, the SGRF boot-addr
//! register) reaches it as a 32-bit poke or peek at a physical address.
//! [`MemBus`] is that operation, abstracted so the same driver/supervisor code
//! runs against either the real `/dev/mem` backend or [`SimBus`], an in-memory
//! word map. A bus is modelled as a map from address to word; an address never
//! written reads as 0.
//!
//! The two sides of the HPMCU mailbox (the MCU core and Linux) see the *same*
//! memory. Here they share one bus by borrowing it in turn: a model such as
//! [`crate::hpmcu::HpmcuSim`] or [`crate::cru::CruSim`] takes the bus for each
//! step (`&mut B`) instead of holding a handle of its own, and the code under
//! test writes to the same bus between steps. Writes are `&mut self`: there
//! are no aliasing handles to one store.

use vstd::prelude::*;

verus! {

/// The word a bus with contents `mem` returns at `phys`: unwritten words read as 0.
pub open spec fn word_at(mem: Map<u64, u32>, phys: u64) -> u32 {
    if mem.contains_key(phys) {
        mem[phys]
    } else {
        0
    }
}

/// A read gives back what the last write to that address wrote, and a write
/// leaves every other address as it was.
pub proof fn lemma_read_after_write(mem: Map<u64, u32>, a: u64, v: u32, b: u64)
    ensures
        word_at(mem.insert(a, v), a) == v,
        b != a ==> word_at(mem.insert(a, v), b) == word_at(mem, b),
{
}

/// A 32-bit physical-address register/SRAM bus. Addresses must be 4-byte aligned.
pub trait MemBus {
    /// The words written so far, by address.
    spec fn memory(&self) -> Map<u64, u32>;

    fn peek32(&self, phys: u64) -> (r: u32)
        requires
            phys % 4 == 0,
        ensures
            r == word_at(self.memory(), phys),
    ;

    fn poke32(&mut self, phys: u64, val: u32)
        requires
            phys % 4 == 0,
        ensures
            final(self).memory() == old(self).memory().insert(phys, val),
    ;
}

/// Addresses strictly increasing along the sequence.
pub open spec fn strictly_sorted(s: Seq<(u64, u32)>) -> bool {
    forall|i: int, j: int| 0 <= i < j < s.len() ==> s[i].0 < s[j].0
}

/// Whether some entry of `s` has address `a`.
pub open spec fn has_addr(s: Seq<(u64, u32)>, a: u64) -> bool {
    exists|i: int| 0 <= i < s.len() && s[i].0 == a
}

/// The map an address-sorted list of `(address, word)` entries stands for.
pub open spec fn entries_map(s: Seq<(u64, u32)>) -> Map<u64, u32> {
    Map::new(
        |a: u64| has_addr(s, a),
        |a: u64| s[choose|i: int| 0 <= i < s.len() && s[i].0 == a].1,
    )
}

/// In-memory bus for host tests. Unwritten words read as 0.
pub struct SimBus {
    words: Vec<(u64, u32)>,
}

impl SimBus {
    #[verifier::type_invariant]
    spec fn sorted(&self) -> bool {
        strictly_sorted(self.words@)
    }

    pub closed spec fn contents(&self) -> Map<u64, u32> {
        entries_map(self.words@)
    }

    pub fn new() -> (b: Self)
        ensures
            b.contents() == Map::<u64, u32>::empty(),
    {
        let b = SimBus { words: Vec::new() };
        assert(b.contents() =~= Map::<u64, u32>::empty());
        b
    }

    /// Snapshot every written word (address-sorted): for test assertions/dumps.
    pub fn dump(&self) -> (v: Vec<(u64, u32)>)
        ensures
            strictly_sorted(v@),
            entries_map(v@) == self.contents(),
    {
        proof {
            use_type_invariant(self);
        }
        let mut v: Vec<(u64, u32)> = Vec::new();
        let mut i: usize = 0;
        while i < self.words.len()
            invariant
                i <= self.words@.len(),
                v@ == self.words@.take(i as int),
            decreases self.words@.len() - i,
        {
            v.push(self.words[i]);
            i += 1;
            assert(v@ =~= self.words@.take(i as int));
        }
        assert(self.words@.take(i as int) =~= self.words@);
        v
    }
}

impl Default for SimBus {
    fn default() -> (b: Self)
        ensures
            b.contents() == Map::<u64, u32>::empty(),
    {
        SimBus::new()
    }
}

/// In a sorted list, the entry with address `a` sits at the one index that
/// holds it.
proof fn lemma_sorted_lookup(s: Seq<(u64, u32)>, i: int)
    requires
        strictly_sorted(s),
        0 <= i < s.len(),
    ensures
        has_addr(s, s[i].0),
        entries_map(s)[s[i].0] == s[i].1,
{
    let a = s[i].0;
    assert(has_addr(s, a));
    let k = choose|k: int| 0 <= k < s.len() && s[k].0 == a;
    if k < i {
        assert(s[k].0 < s[i].0);
    } else if k > i {
        assert(s[i].0 < s[k].0);
    }
}

impl MemBus for SimBus {
    open spec fn memory(&self) -> Map<u64, u32> {
        self.contents()
    }

    fn peek32(&self, phys: u64) -> (r: u32) {
        proof {
            use_type_invariant(self);
        }
        let mut i: usize = 0;
        while i < self.words.len()
            invariant
                i <= self.words@.len(),
                strictly_sorted(self.words@),
                forall|j: int| 0 <= j < i ==> self.words@[j].0 != phys,
            decreases self.words@.len() - i,
        {
            if self.words[i].0 == phys {
                proof {
                    lemma_sorted_lookup(self.words@, i as int);
                }
                return self.words[i].1;
            }
            i += 1;
        }
        assert(!has_addr(self.words@, phys));
        0
    }

    fn poke32(&mut self, phys: u64, val: u32) {
        proof {
            use_type_invariant(&*self);
        }
        let ghost old_words = self.words@;
        let mut w: Vec<(u64, u32)> = Vec::new();
        let mut i: usize = 0;
        // entries below `phys`
        while i < self.words.len() && self.words[i].0 < phys
            invariant
                self.words@ == old_words,
                strictly_sorted(old_words),
                i <= old_words.len(),
                w@ == old_words.take(i as int),
                forall|j: int| 0 <= j < i ==> old_words[j].0 < phys,
            decreases old_words.len() - i,
        {
            w.push(self.words[i]);
            i += 1;
            assert(w@ =~= old_words.take(i as int));
        }
        let lo = i;
        w.push((phys, val));
        // skip an existing entry for `phys`
        if i < self.words.len() && self.words[i].0 == phys {
            i += 1;
        }
        let hi = i;
        while i < self.words.len()
            invariant
                self.words@ == old_words,
                strictly_sorted(old_words),
                lo <= hi <= i <= old_words.len(),
                hi == lo || (hi == lo + 1 && old_words[lo as int].0 == phys),
                forall|j: int| 0 <= j < lo ==> old_words[j].0 < phys,
                forall|j: int| hi <= j < old_words.len() ==> old_words[j].0 > phys,
                w@ == old_words.take(lo as int) + seq![(phys, val)] + old_words.subrange(hi as int, i as int),
            decreases old_words.len() - i,
        {
            w.push(self.words[i]);
            i += 1;
            assert(w@ =~= old_words.take(lo as int) + seq![(phys, val)] + old_words.subrange(hi as int, i as int));
        }
        proof {
            let nw = w@;
            assert(old_words.subrange(hi as int, i as int) =~= old_words.skip(hi as int));
            assert(nw.len() == lo + 1 + (old_words.len() - hi));
            assert forall|p: int, q: int| 0 <= p < q < nw.len() implies nw[p].0 < nw[q].0 by {
                if q < lo {
                } else if p < lo && q == lo {
                } else if p < lo {
                    assert(nw[q] == old_words[q - lo - 1 + hi]);
                } else if p == lo {
                    assert(nw[q] == old_words[q - lo - 1 + hi]);
                } else {
                    assert(nw[p] == old_words[p - lo - 1 + hi]);
                    assert(nw[q] == old_words[q - lo - 1 + hi]);
                }
            }
            assert(strictly_sorted(nw));
            let old_map = entries_map(old_words);
            let new_map = entries_map(nw);
            assert forall|a: u64| #[trigger] new_map.contains_key(a) == old_map.insert(phys, val).contains_key(a) by {
                if a != phys {
                    if has_addr(old_words, a) {
                        let k = choose|k: int| 0 <= k < old_words.len() && old_words[k].0 == a;
                        if k < lo {
                            assert(nw[k] == old_words[k]);
                        } else {
                            assert(k >= hi);
                            assert(nw[k - hi + lo + 1] == old_words[k]);
                        }
                    }
                    if has_addr(nw, a) {
                        let k = choose|k: int| 0 <= k < nw.len() && nw[k].0 == a;
                        if k < lo {
                            assert(old_words[k] == nw[k]);
                        } else if k > lo {
                            assert(old_words[k - lo - 1 + hi] == nw[k]);
                        }
                    }
                } else {
                    assert(nw[lo as int].0 == phys);
                }
            }
            assert forall|a: u64| #[trigger] new_map.contains_key(a) implies new_map[a] == old_map.insert(phys, val)[a] by {
                if a == phys {
                    lemma_sorted_lookup(nw, lo as int);
                } else {
                    let k = choose|k: int| 0 <= k < nw.len() && nw[k].0 == a;
                    lemma_sorted_lookup(nw, k);
                    if k < lo {
                        assert(old_words[k] == nw[k]);
                        lemma_sorted_lookup(old_words, k);
                    } else {
                        assert(k > lo);
                        assert(old_words[k - lo - 1 + hi] == nw[k]);
                        lemma_sorted_lookup(old_words, k - lo - 1 + hi);
                    }
                }
            }
            assert(new_map =~= old_map.insert(phys, val));
        }
        self.words = w;
    }
}

} // verus!

use vstd::prelude::*;

verus! {

/// The largest number of orders a single client may have in flight.
pub const MAX_ACTIVE_ORDERS: usize = 65535;

/// Number of 64-bit words that hold one bit per order slot.
pub const N_CHUNKS: usize = 1024;

/// Bit `i` of the word `x` is set.
pub open spec fn bit_set(x: u64, i: int) -> bool {
    (x >> (i as u64)) & 1u64 == 1u64
}

proof fn lemma_full_word(x: u64, i: u64)
    requires
        x == 0xffff_ffff_ffff_ffffu64,
        i < 64,
    ensures
        (x >> i) & 1u64 == 1u64,
{
    assert(x == 0xffff_ffff_ffff_ffffu64 && i < 64 ==> (x >> i) & 1u64 == 1u64) by (bit_vector);
}

proof fn lemma_set_bit(x: u64, i: u64, j: u64)
    requires
        i < 64,
        j < 64,
    ensures
        ((x | (1u64 << i)) >> j) & 1u64 == (if i == j { 1u64 } else { (x >> j) & 1u64 }),
{
    assert(i < 64 && j < 64 ==> ((x | (1u64 << i)) >> j) & 1u64 == (if i == j { 1u64 } else {
        (x >> j) & 1u64
    })) by (bit_vector);
}

proof fn lemma_clear_bit(x: u64, i: u64, j: u64)
    requires
        i < 64,
        j < 64,
    ensures
        ((x & !(1u64 << i)) >> j) & 1u64 == (if i == j { 0u64 } else { (x >> j) & 1u64 }),
{
    assert(i < 64 && j < 64 ==> ((x & !(1u64 << i)) >> j) & 1u64 == (if i == j { 0u64 } else {
        (x >> j) & 1u64
    })) by (bit_vector);
}

proof fn lemma_bit_is_zero_or_one(x: u64, j: u64)
    ensures
        (x >> j) & 1u64 == 0u64 || (x >> j) & 1u64 == 1u64,
{
    assert((x >> j) & 1u64 == 0u64 || (x >> j) & 1u64 == 1u64) by (bit_vector);
}

/// `s` is the lowest slot that is free when `taken` are taken.
pub open spec fn claims_lowest(taken: Set<u16>, s: u16) -> bool {
    &&& !taken.contains(s)
    &&& forall|t: u16| t < s ==> #[trigger] taken.contains(t)
}

/// The order slots of one client: a bitmap with one bit per slot, where a set bit
/// means the slot is taken. Slot 0 is never handed out, since 0 is the order id of
/// an order that has not been given one.
pub struct FreeList {
    free: Vec<u64>,
}

impl View for FreeList {
    type V = Set<u16>;

    /// The set of slots that are taken.
    closed spec fn view(&self) -> Set<u16> {
        Set::new(|s: u16| bit_set(self.free@[s as int / 64], s as int % 64))
    }
}

impl FreeList {
    /// The bitmap has one word per chunk of 64 slots.
    pub closed spec fn wf(&self) -> bool {
        self.free@.len() == N_CHUNKS
    }

    /// A list where only slot 0 is taken.
    pub fn new() -> (r: Self)
        ensures
            r.wf(),
            r@ == set![0u16],
    {
        let mut free: Vec<u64> = vec![0u64; N_CHUNKS];
        let w = free[0] | 1;
        free.set(0, w);
        let r = Self { free };
        proof {
            assert forall|s: u16| #[trigger] r@.contains(s) <==> s == 0 by {
                let j = (s % 64) as u64;
                assert(0u64 >> j == 0u64) by (bit_vector);
                assert(0u64 & 1u64 == 0u64) by (bit_vector);
                if (s as int) / 64 == 0 {
                    lemma_set_bit(0u64, 0u64, j);
                    assert(r.free@[0] == 0u64 | 1u64);
                    assert(0u64 | (1u64 << 0u64) == 0u64 | 1u64) by (bit_vector);
                } else {
                    assert(r.free@[(s as int) / 64] == 0u64);
                }
            }
            assert(r@ =~= set![0u16]);
        }
        r
    }

    /// Takes the smallest free slot, if any slot is free.
    pub fn claim_slot(&mut self) -> (r: Option<u16>)
        requires
            old(self).wf(),
        ensures
            final(self).wf(),
            match r {
                Some(s) => {
                    &&& claims_lowest(old(self)@, s)
                    &&& final(self)@ == old(self)@.insert(s)
                },
                None => {
                    &&& forall|t: u16| old(self)@.contains(t)
                    &&& final(self)@ == old(self)@
                },
            },
    {
        let mut offset: usize = 0;
        while offset < N_CHUNKS
            invariant
                self.free@.len() == N_CHUNKS,
                self.free@ == old(self).free@,
                offset <= N_CHUNKS,
                forall|k: int| 0 <= k < offset ==> self.free@[k] == 0xffff_ffff_ffff_ffffu64,
            decreases N_CHUNKS - offset,
        {
            let x = self.free[offset];
            if x != 0xffff_ffff_ffff_ffffu64 {
                let i = x.trailing_ones() as u64;
                proof {
                    vstd::std_specs::bits::axiom_u64_trailing_ones(x);
                }
                let nx = x | (1u64 << i);
                self.free.set(offset, nx);
                let slot: usize = offset * 64 + (i as usize);
                let s = slot as u16;
                proof {
                    assert(s as int == slot);
                    assert((s as int) / 64 == offset && (s as int) % 64 == i);
                    assert(!old(self)@.contains(s));
                    assert forall|t: u16| t < s implies old(self)@.contains(t) by {
                        if (t as int) / 64 < offset {
                            lemma_full_word(old(self).free@[t as int / 64], (t % 64) as u64);
                        } else {
                            assert((t as int) / 64 == offset);
                            assert(t % 64 < i);
                        }
                    }
                    assert forall|t: u16| #[trigger] self@.contains(t) <==> old(self)@.insert(s).contains(t) by {
                        if (t as int) / 64 == offset {
                            lemma_set_bit(x, i, (t % 64) as u64);
                            if t != s {
                                assert(t % 64 != i);
                            }
                        }
                    }
                    assert(self@ =~= old(self)@.insert(s));
                }
                return Some(s);
            }
            offset = offset + 1;
        }
        proof {
            assert forall|t: u16| old(self)@.contains(t) by {
                lemma_full_word(old(self).free@[t as int / 64], (t % 64) as u64);
            }
            assert(self@ =~= old(self)@);
        }
        None
    }

    /// Frees a slot.
    pub fn drop_slot(&mut self, slot_idx: u16)
        requires
            old(self).wf(),
        ensures
            final(self).wf(),
            final(self)@ == old(self)@.remove(slot_idx),
    {
        let offset: usize = (slot_idx / 64) as usize;
        let i: u64 = (slot_idx & 63) as u64;
        proof {
            assert(slot_idx & 63 == slot_idx % 64) by (bit_vector);
        }
        let x = self.free[offset];
        self.free.set(offset, x & !(1u64 << i));
        proof {
            assert forall|t: u16| #[trigger] self@.contains(t) <==> old(self)@.remove(slot_idx).contains(t) by {
                if (t as int) / 64 == offset {
                    lemma_clear_bit(x, i, (t % 64) as u64);
                    lemma_bit_is_zero_or_one(x, (t % 64) as u64);
                    if t != slot_idx {
                        assert(t % 64 != i);
                    }
                }
            }
            assert(self@ =~= old(self)@.remove(slot_idx));
        }
    }
}

/// Giving back a slot just claimed leaves the taken slots as they were.
pub proof fn law_drop_undoes_claim(before: Set<u16>, s: u16)
    requires
        !before.contains(s),
    ensures
        before.insert(s).remove(s) == before,
{
    assert(before.insert(s).remove(s) =~= before);
}

/// A fresh list never hands out slot 0, and each claim hands out the lowest free
/// slot: on a list made by `FreeList::new` (slot 0 taken), the first claim hands
/// out 1 and the second 2.
pub proof fn law_fresh_claims_count_up(s1: u16, s2: u16)
    requires
        claims_lowest(set![0u16], s1),
        claims_lowest(set![0u16].insert(s1), s2),
    ensures
        s1 == 1,
        s2 == 2,
{
    if s1 > 1 {
        assert(set![0u16].contains(1u16));
    }
    assert(s1 == 1);
    if s2 > 2 {
        assert(set![0u16].insert(s1).contains(2u16));
    }
    if s2 < 2 {
        assert(set![0u16].insert(s1).contains(s2));
    }
}

/// One call on a list, as the slots taken before and after it see it: a claim that
/// handed out `slot` (`is_claim`), or a drop of `slot`, which is never slot 0.
pub open spec fn slot_step(before: Set<u16>, after: Set<u16>, is_claim: bool, slot: u16) -> bool {
    if is_claim {
        !before.contains(slot) && after == before.insert(slot)
    } else {
        slot != 0 && after == before.remove(slot)
    }
}

/// `states` are the slots taken along a run of calls `steps` on a fresh list.
pub open spec fn slot_run(states: Seq<Set<u16>>, steps: Seq<(bool, u16)>) -> bool {
    &&& states.len() == steps.len() + 1
    &&& states[0] == set![0u16]
    &&& forall|i: int| 0 <= i < steps.len() ==> #[trigger] slot_step(states[i], states[i + 1], steps[i].0, steps[i].1)
}

/// A slot taken at step `a` that no step before `b` drops is still taken at step `b`.
proof fn lemma_slot_stays(states: Seq<Set<u16>>, steps: Seq<(bool, u16)>, s: u16, a: int, b: int)
    requires
        slot_run(states, steps),
        0 <= a <= b < states.len(),
        states[a].contains(s),
        forall|k: int| a <= k < b ==> !(!(#[trigger] steps[k]).0 && steps[k].1 == s),
    ensures
        states[b].contains(s),
    decreases b - a,
{
    if a < b {
        assert(slot_step(states[a], states[a + 1], steps[a].0, steps[a].1));
        lemma_slot_stays(states, steps, s, a + 1, b);
    }
}

/// Along any run of claims and drops on a fresh list that never drops slot 0, slot
/// 0 stays taken and is never handed out, and a slot handed out twice was dropped
/// in between: the slots handed out and not dropped since are pairwise distinct.
pub proof fn law_claims_stay_distinct(states: Seq<Set<u16>>, steps: Seq<(bool, u16)>)
    requires
        slot_run(states, steps),
    ensures
        forall|i: int| 0 <= i < states.len() ==> #[trigger] states[i].contains(0u16),
        forall|i: int| 0 <= i < steps.len() && (#[trigger] steps[i]).0 ==> steps[i].1 != 0,
        forall|i: int, j: int|
            0 <= i < j < steps.len() && (#[trigger] steps[i]).0 && (#[trigger] steps[j]).0 && steps[i].1 == steps[j].1
                ==> exists|k: int| i < k < j && !(#[trigger] steps[k]).0 && steps[k].1 == steps[i].1,
{
    assert forall|i: int| 0 <= i < states.len() implies #[trigger] states[i].contains(0u16) by {
        assert forall|k: int| 0 <= k < i implies !(!(#[trigger] steps[k]).0 && steps[k].1 == 0u16) by {
            assert(slot_step(states[k], states[k + 1], steps[k].0, steps[k].1));
        }
        lemma_slot_stays(states, steps, 0u16, 0, i);
    }
    assert forall|i: int| 0 <= i < steps.len() && (#[trigger] steps[i]).0 implies steps[i].1 != 0 by {
        assert(states[i].contains(0u16));
        assert(slot_step(states[i], states[i + 1], steps[i].0, steps[i].1));
    }
    assert forall|i: int, j: int|
        0 <= i < j < steps.len() && (#[trigger] steps[i]).0 && (#[trigger] steps[j]).0 && steps[i].1 == steps[j].1
            implies exists|k: int| i < k < j && !(#[trigger] steps[k]).0 && steps[k].1 == steps[i].1 by {
        let s = steps[i].1;
        assert(slot_step(states[i], states[i + 1], steps[i].0, steps[i].1));
        assert(slot_step(states[j], states[j + 1], steps[j].0, steps[j].1));
        assert(states[i + 1].contains(s));
        if !exists|k: int| i < k < j && !(#[trigger] steps[k]).0 && steps[k].1 == s {
            assert forall|k: int| i + 1 <= k < j implies !(!(#[trigger] steps[k]).0 && steps[k].1 == s) by {
                if !steps[k].0 && steps[k].1 == s {
                    assert(i < k < j);
                }
            }
            lemma_slot_stays(states, steps, s, i + 1, j);
        }
    }
}

} // verus!

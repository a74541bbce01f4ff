//! Generational ids.
//!
//! An [`IdGenerator`] hands out [`GenId`]s. A recycled id comes back
//! with its generation bumped (wrapping at `u32::MAX`), so a stale
//! handle does not compare equal to the id that later reuses its slot,
//! and an id handed out never equals one still live.
use vstd::prelude::*;

verus! {

/// The number of distinct generations per slot; `to_bits` packs the
/// slot above the generation with this as the radix.
pub open spec fn generation_radix() -> int {
    0x1_0000_0000
}

/// A generational id: a raw slot plus the number of times that slot
/// has been recycled.
#[derive(Debug, Clone, Copy, PartialEq, Eq, Hash, Structural)]
pub struct GenId {
    id: u32,
    generation: u32,
}

impl GenId {
    /// The raw slot of this id.
    pub closed spec fn slot(self) -> u32 {
        self.id
    }

    /// How many times the slot had been recycled when this id was
    /// issued (modulo 2^32).
    pub closed spec fn gen(self) -> u32 {
        self.generation
    }

    /// The id with the given slot and generation.
    pub closed spec fn spec_from_raw(id: u32, generation: u32) -> GenId {
        GenId { id, generation }
    }

    /// The same slot, one generation later (wrapping).
    pub open spec fn spec_next_generation(self) -> GenId {
        GenId::spec_from_raw(
            self.slot(),
            if self.gen() < u32::MAX { (self.gen() + 1) as u32 } else { 0 },
        )
    }

    /// The packed form of the id: slot in the high half, generation in
    /// the low half.
    pub open spec fn spec_bits(self) -> u64 {
        (self.slot() * generation_radix() + self.gen()) as u64
    }

    pub broadcast proof fn lemma_parts(id: GenId)
        ensures
            #[trigger] GenId::spec_from_raw(id.slot(), id.gen()) == id,
    {
    }

    pub broadcast proof fn lemma_from_raw(a: u32, b: u32)
        ensures
            #![trigger GenId::spec_from_raw(a, b)]
            GenId::spec_from_raw(a, b).slot() == a,
            GenId::spec_from_raw(a, b).gen() == b,
    {
    }

    /// A sentinel id that no generator hands out before its slot
    /// counter is exhausted.
    pub fn placeholder() -> (r: GenId)
        ensures
            r.slot() == u32::MAX,
            r.gen() == u32::MAX,
    {
        GenId { id: u32::MAX, generation: u32::MAX }
    }

    /// Builds an id from its raw parts.
    pub fn from_raw(id: u32, generation: u32) -> (r: GenId)
        ensures
            r == GenId::spec_from_raw(id, generation),
    {
        GenId { id, generation }
    }

    /// The raw slot.
    pub fn index(&self) -> (r: u32)
        ensures
            r == self.slot(),
    {
        self.id
    }

    /// The generation.
    pub fn generation(&self) -> (r: u32)
        ensures
            r == self.gen(),
    {
        self.generation
    }

    /// The same slot one generation later, wrapping at `u32::MAX`.
    pub fn next_generation(self) -> (r: GenId)
        ensures
            r == self.spec_next_generation(),
    {
        let generation = if self.generation < u32::MAX {
            self.generation + 1
        } else {
            0
        };
        GenId { id: self.id, generation }
    }

    /// Packs the id into one integer, slot in the high half.
    pub fn to_bits(&self) -> (r: u64)
        ensures
            r == self.spec_bits(),
    {
        proof {
            assert(self.id * generation_radix() + self.generation <= u64::MAX) by (nonlinear_arith)
                requires
                    self.id <= u32::MAX,
                    self.generation <= u32::MAX,
            ;
        }
        (self.id as u64) * 0x1_0000_0000u64 + (self.generation as u64)
    }

    /// Unpacks an id from its packed form.
    pub fn from_bits(bits: u64) -> (r: GenId)
        ensures
            r.spec_bits() == bits,
    {
        let id = (bits / 0x1_0000_0000u64) as u32;
        let generation = (bits % 0x1_0000_0000u64) as u32;
        proof {
            assert(bits == (bits / 0x1_0000_0000u64) * generation_radix() + bits % 0x1_0000_0000u64) by (nonlinear_arith);
            assert(bits / 0x1_0000_0000u64 <= u32::MAX) by (nonlinear_arith);
        }
        GenId { id, generation }
    }

    /// Two ids pack to the same integer only if they are the same id.
    pub broadcast proof fn lemma_bits_injective(a: GenId, b: GenId)
        ensures
            #![trigger a.spec_bits(), b.spec_bits()]
            a.spec_bits() == b.spec_bits() ==> a == b,
    {
        if a.spec_bits() == b.spec_bits() {
            let (x, y, u, v) = (a.id as int, a.generation as int, b.id as int, b.generation as int);
            assert(x * generation_radix() + y <= u64::MAX) by (nonlinear_arith)
                requires
                    0 <= x <= u32::MAX,
                    0 <= y <= u32::MAX,
            ;
            assert(u * generation_radix() + v <= u64::MAX) by (nonlinear_arith)
                requires
                    0 <= u <= u32::MAX,
                    0 <= v <= u32::MAX,
            ;
            assert(x == u && y == v) by (nonlinear_arith)
                requires
                    0 <= y < generation_radix(),
                    0 <= v < generation_radix(),
                    x * generation_radix() + y == u * generation_radix() + v,
            ;
        }
    }
}

pub broadcast group group_gen_id {
    GenId::lemma_parts,
    GenId::lemma_from_raw,
    GenId::lemma_bits_injective,
}

/// Allocates and recycles [`GenId`] values.
///
/// `new_id` returns the most recently recycled id with its generation
/// bumped, or a fresh slot at generation zero when nothing has been
/// recycled.
pub struct IdGenerator {
    next_id: u32,
    unused_ids: Vec<GenId>,
    /// The generation each slot handed out so far holds now.
    current: Ghost<Map<u32, u32>>,
}

impl IdGenerator {
    /// The next fresh slot.
    pub closed spec fn next_slot(&self) -> u32 {
        self.next_id
    }

    /// The recycled ids waiting for reuse, the last one first in line.
    pub closed spec fn unused(&self) -> Seq<GenId> {
        self.unused_ids@
    }

    /// For each slot handed out so far, the generation of the last id
    /// handed out in it.
    pub closed spec fn current(&self) -> Map<u32, u32> {
        self.current@
    }

    /// `new_id` can return without running out of slots.
    pub open spec fn can_issue(&self) -> bool {
        self.unused().len() > 0 || self.next_slot() < u32::MAX
    }

    /// The id that the next call of `new_id` returns.
    pub open spec fn spec_next_id(&self) -> GenId {
        if self.unused().len() > 0 {
            self.unused().last().spec_next_generation()
        } else {
            GenId::spec_from_raw(self.next_slot(), 0)
        }
    }

    /// `id` is the last id handed out in its slot, and it has not been
    /// recycled since.
    pub open spec fn is_live(&self, id: GenId) -> bool {
        &&& self.current().contains_key(id.slot())
        &&& self.current()[id.slot()] == id.gen()
        &&& forall|i: int| 0 <= i < self.unused().len() ==> (#[trigger] self.unused()[i]).slot() != id.slot()
    }

    /// Bookkeeping under which every id handed out differs from the
    /// live ones: the fresh slot is above every slot used so far, each
    /// waiting id is the last one of its slot, and no slot waits twice.
    pub open spec fn fresh_ok(&self) -> bool {
        &&& forall|s: u32| #[trigger] self.current().contains_key(s) ==> s < self.next_slot()
        &&& forall|i: int|
            0 <= i < self.unused().len() ==> self.current().contains_key((#[trigger] self.unused()[i]).slot())
                && self.current()[self.unused()[i].slot()] == self.unused()[i].gen()
        &&& forall|i: int, j: int|
            0 <= i < j < self.unused().len() ==> (#[trigger] self.unused()[i]).slot() != (#[trigger] self.unused()[j]).slot()
    }

    /// The number of recycled ids waiting.
    pub fn unused_len(&self) -> (r: usize)
        ensures
            r == self.unused().len(),
    {
        self.unused_ids.len()
    }

    /// The next fresh slot.
    pub fn next_slot_value(&self) -> (r: u32)
        ensures
            r == self.next_slot(),
    {
        self.next_id
    }

    /// The id the next `new_id` returns, without handing it out.
    pub fn peek_next_id(&self) -> (r: GenId)
        ensures
            r == self.spec_next_id(),
    {
        let n = self.unused_ids.len();
        if n > 0 {
            self.unused_ids[n - 1].next_generation()
        } else {
            GenId { id: self.next_id, generation: 0 }
        }
    }

    /// An empty generator.
    pub fn new() -> (r: IdGenerator)
        ensures
            r.next_slot() == 0,
            r.unused().len() == 0,
            r.current().is_empty(),
            r.fresh_ok(),
    {
        IdGenerator { next_id: 0, unused_ids: Vec::new(), current: Ghost(Map::empty()) }
    }

    /// Returns the last recycled id with its generation bumped, or a
    /// fresh slot at generation zero.
    ///
    /// There must be a slot left: a recycled id, or a fresh slot below
    /// `u32::MAX`.
    pub fn new_id(&mut self) -> (r: GenId)
        requires
            old(self).can_issue(),
        ensures
            r == old(self).spec_next_id(),
            old(self).unused().len() > 0 ==> {
                &&& final(self).unused() == old(self).unused().drop_last()
                &&& final(self).next_slot() == old(self).next_slot()
            },
            old(self).unused().len() == 0 ==> {
                &&& final(self).unused() == old(self).unused()
                &&& final(self).next_slot() == old(self).next_slot() + 1
            },
            final(self).current() == old(self).current().insert(r.slot(), r.gen()),
            old(self).fresh_ok() ==> {
                &&& !old(self).is_live(r)
                &&& final(self).fresh_ok()
                &&& final(self).is_live(r)
            },
            old(self).fresh_ok() ==> forall|other: GenId|
                #[trigger] old(self).is_live(other) ==> final(self).is_live(other),
    {
        broadcast use group_gen_id;
        if self.unused_ids.len() > 0 {
            let last = self.unused_ids.pop().unwrap();
            let id = last.next_generation();
            proof {
                self.current@ = self.current@.insert(id.slot(), id.gen());
                let n = old(self).unused().len() - 1;
                assert(old(self).unused()[n] == last);
                assert forall|i: int| 0 <= i < self.unused().len() implies self.unused()[i] == old(self).unused()[i] by {}
                if old(self).fresh_ok() {
                    assert(!old(self).is_live(id)) by {
                        assert(old(self).unused()[n].slot() == id.slot());
                    }
                    assert forall|i: int|
                        0 <= i < self.unused().len() implies self.current().contains_key((#[trigger] self.unused()[i]).slot())
                            && self.current()[self.unused()[i].slot()] == self.unused()[i].gen() by {
                        assert(old(self).unused()[i].slot() != old(self).unused()[n].slot());
                    }
                    assert forall|i: int, j: int| 0 <= i < j < self.unused().len() implies (
                    #[trigger] self.unused()[i]).slot() != (#[trigger] self.unused()[j]).slot() by {
                        assert(old(self).unused()[i] == self.unused()[i]);
                        assert(old(self).unused()[j] == self.unused()[j]);
                    }
                    assert forall|i: int| 0 <= i < self.unused().len() implies (#[trigger] self.unused()[i]).slot()
                        != id.slot() by {
                        assert(old(self).unused()[i].slot() != old(self).unused()[n].slot());
                    }
                    assert forall|other: GenId| #[trigger] old(self).is_live(other) implies self.is_live(other) by {
                        assert(other.slot() != old(self).unused()[n].slot());
                    }
                }
            }
            id
        } else {
            let id = GenId { id: self.next_id, generation: 0 };
            self.next_id = self.next_id + 1;
            proof {
                self.current@ = self.current@.insert(id.slot(), id.gen());
                if old(self).fresh_ok() {
                    assert(!old(self).current().contains_key(id.slot()));
                    assert forall|other: GenId| #[trigger] old(self).is_live(other) implies self.is_live(other) by {
                        assert(other.slot() < old(self).next_slot());
                    }
                }
            }
            id
        }
    }

    /// Returns `id` to the pool for future reuse.
    pub fn recycle(&mut self, id: GenId)
        ensures
            final(self).unused() == old(self).unused().push(id),
            final(self).next_slot() == old(self).next_slot(),
            final(self).current() == old(self).current(),
            old(self).fresh_ok() && old(self).is_live(id) ==> {
                &&& final(self).fresh_ok()
                &&& !final(self).is_live(id)
            },
            forall|other: GenId| #[trigger] final(self).is_live(other) ==> old(self).is_live(other),
            forall|other: GenId|
                other.slot() != id.slot() ==> (#[trigger] final(self).is_live(other) == old(self).is_live(other)),
    {
        self.unused_ids.push(id);
        proof {
            let n = old(self).unused().len() as int;
            assert(self.unused()[n] == id);
            assert forall|i: int| 0 <= i < n implies self.unused()[i] == old(self).unused()[i] by {}
            assert forall|other: GenId| #[trigger] self.is_live(other) implies old(self).is_live(other) by {
                assert forall|i: int| 0 <= i < old(self).unused().len() implies (#[trigger] old(
                    self,
                ).unused()[i]).slot() != other.slot() by {
                    assert(self.unused()[i] == old(self).unused()[i]);
                }
            }
            assert forall|other: GenId| other.slot() != id.slot() implies (#[trigger] self.is_live(other)
                == old(self).is_live(other)) by {
                if old(self).is_live(other) {
                    assert forall|i: int| 0 <= i < self.unused().len() implies (#[trigger] self.unused()[i]).slot()
                        != other.slot() by {
                        if i < n {
                            assert(self.unused()[i] == old(self).unused()[i]);
                        }
                    }
                }
                if self.is_live(other) {
                    assert forall|i: int| 0 <= i < old(self).unused().len() implies (#[trigger] old(
                        self,
                    ).unused()[i]).slot() != other.slot() by {
                        assert(self.unused()[i] == old(self).unused()[i]);
                    }
                }
            }
            if old(self).fresh_ok() && old(self).is_live(id) {
                assert forall|i: int|
                    0 <= i < self.unused().len() implies self.current().contains_key((#[trigger] self.unused()[i]).slot())
                        && self.current()[self.unused()[i].slot()] == self.unused()[i].gen() by {
                    if i < n {
                        assert(self.unused()[i] == old(self).unused()[i]);
                    }
                }
                assert forall|i: int, j: int| 0 <= i < j < self.unused().len() implies (
                #[trigger] self.unused()[i]).slot() != (#[trigger] self.unused()[j]).slot() by {
                    assert(self.unused()[i] == old(self).unused()[i]);
                    if j < n {
                        assert(self.unused()[j] == old(self).unused()[j]);
                    }
                }
                assert(!self.is_live(id));
            }
        }
    }
}

/// `after` is `before` with the ids packed into `gone` handed back:
/// the fresh slot and each slot's generation are unchanged, and the
/// waiting ids are those of `before` followed by exactly the ids whose
/// packed form is in `gone`.
pub open spec fn ids_recycled(before: IdGenerator, after: IdGenerator, gone: Set<u64>) -> bool {
    &&& after.next_slot() == before.next_slot()
    &&& after.current() == before.current()
    &&& exists|s: Seq<GenId>|
        #[trigger] (before.unused() + s) == after.unused() && forall|g: GenId|
            #[trigger] s.contains(g) <==> gone.contains(g.spec_bits())
}

/// A generator handed nothing back has recycled the empty set.
pub proof fn lemma_recycled_none(g: IdGenerator, h: IdGenerator)
    requires
        h.next_slot() == g.next_slot(),
        h.current() == g.current(),
        h.unused() == g.unused(),
    ensures
        ids_recycled(g, h, Set::empty()),
{
    let s = Seq::<GenId>::empty();
    assert(g.unused() + s =~= h.unused());
}

/// Two rounds of recycling, over a shrinking set of keys, recycle what
/// the two rounds took out together.
pub proof fn lemma_recycled_compose(
    a: IdGenerator,
    b: IdGenerator,
    c: IdGenerator,
    da: Set<u64>,
    db: Set<u64>,
    dc: Set<u64>,
)
    requires
        ids_recycled(a, b, da - db),
        ids_recycled(b, c, db - dc),
        dc.subset_of(db),
        db.subset_of(da),
    ensures
        ids_recycled(a, c, da - dc),
{
    let s1 = choose|s: Seq<GenId>|
        #[trigger] (a.unused() + s) == b.unused() && forall|g: GenId|
            #[trigger] s.contains(g) <==> (da - db).contains(g.spec_bits());
    let s2 = choose|s: Seq<GenId>|
        #[trigger] (b.unused() + s) == c.unused() && forall|g: GenId|
            #[trigger] s.contains(g) <==> (db - dc).contains(g.spec_bits());
    let s = s1 + s2;
    assert(a.unused() + s =~= c.unused());
    assert forall|g: GenId| #[trigger] s.contains(g) <==> (da - dc).contains(g.spec_bits()) by {
        if s.contains(g) {
            let i = choose|i: int| 0 <= i < s.len() && s[i] == g;
            if i < s1.len() {
                assert(s1[i] == g);
                assert(s1.contains(g));
            } else {
                assert(s2[i - s1.len()] == g);
                assert(s2.contains(g));
            }
        }
        if (da - dc).contains(g.spec_bits()) {
            if db.contains(g.spec_bits()) {
                assert(s2.contains(g));
                let i = choose|i: int| 0 <= i < s2.len() && s2[i] == g;
                assert(s[s1.len() + i] == g);
            } else {
                assert(s1.contains(g));
                let i = choose|i: int| 0 <= i < s1.len() && s1[i] == g;
                assert(s[i] == g);
            }
        }
    }
}

/// Under the generator's bookkeeping, the id that `new_id` returns
/// next differs from every live id, so a handle to a live id never
/// comes to mean a new one.
pub proof fn law_next_id_is_new(g: IdGenerator, live: GenId)
    requires
        g.fresh_ok(),
        g.is_live(live),
    ensures
        live != g.spec_next_id(),
{
    broadcast use group_gen_id;
    if g.unused().len() > 0 {
        let n = g.unused().len() - 1;
        assert(g.unused()[n].slot() != live.slot());
    }
}

} // verus!

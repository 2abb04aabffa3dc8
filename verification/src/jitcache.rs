//! The translation cache of the JIT: a guest-address table of slots over a
//! fixed-capacity, bump-allocated code arena. A slot value of 0 is the
//! sentinel for "not yet translated"; a published entry is the one-based
//! arena offset of its code block, so the sentinel never collides with a
//! block address. Entries and blocks, once published, are never modified,
//! moved or reclaimed; the arena only grows.
//!
//! Insertion re-checks the slot first (the double-checked pattern), so two
//! insertions against the same slot can never produce two code blocks: every
//! caller gets the address the first insertion published.

use vstd::prelude::*;

verus! {

/// Guest addresses are partitioned into slots of this many bytes; every
/// cacheable guest address is aligned to it.
pub const SLOT_WIDTH: usize = 4;

/// Default capacity of the executable arena, in bytes.
pub const DEFAULT_ARENA_CAPACITY: usize = 16 * 1024 * 1024;

/// Fatal conditions of the translation cache.
#[derive(Clone, Copy, PartialEq, Eq, Structural, Debug)]
pub enum JitError {
    /// The arena has too little room left for the code block.
    OutOfSpace,
}

/// The mathematical state of a cache: the slot table, the arena bytes, and
/// the high-water mark of the arena.
#[verifier::ext_equal]
pub ghost struct CacheModel {
    /// One entry per guest slot; 0 is the "not yet translated" sentinel.
    pub slots: Seq<u64>,
    /// The whole arena, used and free parts alike.
    pub arena: Seq<u8>,
    /// How many arena bytes are in use; never decreases.
    pub inuse: int,
}

/// Internal consistency: the high-water mark stays within the arena and
/// every published entry points at or below it.
pub open spec fn model_wf(m: CacheModel) -> bool {
    &&& 0 <= m.inuse <= m.arena.len()
    &&& m.arena.len() < usize::MAX
    &&& forall|i: int|
        0 <= i < m.slots.len() ==> #[trigger] m.slots[i] == 0 || 0 < m.slots[i] <= m.inuse + 1
}

/// What a lookup of the slot holding `addr` observes.
pub open spec fn lookup_spec(m: CacheModel, addr: int) -> Option<usize> {
    if m.slots[addr / (SLOT_WIDTH as int)] == 0 {
        None
    } else {
        Some(m.slots[addr / (SLOT_WIDTH as int)] as usize)
    }
}

/// The slot for `addr` already holds a translation.
pub open spec fn insert_hits(m: CacheModel, addr: int) -> bool {
    m.slots[addr / (SLOT_WIDTH as int)] != 0
}

/// The arena has room for the code block.
pub open spec fn insert_fits(m: CacheModel, code: Seq<u8>) -> bool {
    m.inuse + code.len() <= m.arena.len()
}

/// The native address a fresh insertion publishes: the one-based offset of
/// the new block, placed at the high-water mark.
pub open spec fn fresh_addr(m: CacheModel) -> int {
    m.inuse + 1
}

/// The cache state after a fresh (missing, fitting) insertion: the code is
/// copied to the high-water mark, the mark advances by exactly the code
/// length, and the slot is published.
pub open spec fn inserted_model(m: CacheModel, addr: int, code: Seq<u8>) -> CacheModel {
    CacheModel {
        slots: m.slots.update(addr / (SLOT_WIDTH as int), fresh_addr(m) as u64),
        arena: m.arena.subrange(0, m.inuse) + code + m.arena.subrange(
            m.inuse + code.len(),
            m.arena.len() as int,
        ),
        inuse: m.inuse + code.len(),
    }
}

/// A thread-shareable cache of compiled code blocks, keyed by guest address.
pub struct JitCache {
    blocks: Vec<u64>,
    arena: Vec<u8>,
    inuse: usize,
}

impl View for JitCache {
    type V = CacheModel;

    closed spec fn view(&self) -> CacheModel {
        CacheModel { slots: self.blocks@, arena: self.arena@, inuse: self.inuse as int }
    }
}

impl JitCache {
    /// The invariant every operation preserves.
    pub open spec fn wf(&self) -> bool {
        model_wf(self@)
    }

    /// Create a cache for guest addresses below `max_guest_addr`, with an
    /// arena of the given capacity. All slots start untranslated.
    pub fn with_capacity(max_guest_addr: usize, capacity: usize) -> (c: JitCache)
        requires
            capacity < usize::MAX,
        ensures
            c.wf(),
            c@.slots.len() == max_guest_addr as int / (SLOT_WIDTH as int) + if max_guest_addr
                as int % (SLOT_WIDTH as int) == 0 {
                0int
            } else {
                1int
            },
            c@.arena.len() == capacity,
            c@.inuse == 0,
            forall|i: int| 0 <= i < c@.slots.len() ==> c@.slots[i] == 0,
    {
        let extra: usize = if max_guest_addr % SLOT_WIDTH == 0 {
            0
        } else {
            1
        };
        let nslots = max_guest_addr / SLOT_WIDTH + extra;
        JitCache { blocks: vec![0u64; nslots], arena: vec![0u8; capacity], inuse: 0 }
    }

    /// Create a cache for guest addresses below `max_guest_addr` with the
    /// default arena capacity.
    pub fn new(max_guest_addr: usize) -> (c: JitCache)
        ensures
            c.wf(),
            c@.slots.len() == max_guest_addr as int / (SLOT_WIDTH as int) + if max_guest_addr
                as int % (SLOT_WIDTH as int) == 0 {
                0int
            } else {
                1int
            },
            c@.arena.len() == DEFAULT_ARENA_CAPACITY,
            c@.inuse == 0,
            forall|i: int| 0 <= i < c@.slots.len() ==> c@.slots[i] == 0,
    {
        JitCache::with_capacity(max_guest_addr, DEFAULT_ARENA_CAPACITY)
    }

    /// How many guest-address slots the cache was configured with.
    pub fn slot_count(&self) -> (r: usize)
        ensures
            r == self@.slots.len(),
    {
        self.blocks.len()
    }

    /// How many arena bytes are in use: the high-water mark.
    pub fn arena_in_use(&self) -> (r: usize)
        ensures
            r == self@.inuse,
    {
        self.inuse
    }

    /// Look up the native address published for the slot holding `addr`.
    /// `addr` must be slot-aligned and below the configured bound.
    pub fn lookup(&self, addr: usize) -> (r: Option<usize>)
        requires
            self.wf(),
            addr % SLOT_WIDTH == 0,
            addr as int / (SLOT_WIDTH as int) < self@.slots.len(),
        ensures
            r == lookup_spec(self@, addr as int),
    {
        let entry = self.blocks[addr / SLOT_WIDTH];
        if entry == 0 {
            None
        } else {
            Some(entry as usize)
        }
    }

    /// Insert a code block for `addr`. If the slot already holds a
    /// translation, nothing changes and the existing native address is
    /// returned: this is the at-most-once-compilation guarantee. Otherwise
    /// the code is copied to the high-water mark, the slot is published, and
    /// the fresh native address is returned; a block that does not fit in
    /// the remaining arena is a fatal resource-exhaustion error.
    pub fn add_mapping(&mut self, addr: usize, code: &Vec<u8>) -> (r: Result<usize, JitError>)
        requires
            old(self).wf(),
            addr % SLOT_WIDTH == 0,
            addr as int / (SLOT_WIDTH as int) < old(self)@.slots.len(),
        ensures
            final(self).wf(),
            final(self)@.slots.len() == old(self)@.slots.len(),
            insert_hits(old(self)@, addr as int) ==> final(self)@ == old(self)@ && r == Ok::<
                usize,
                JitError,
            >(old(self)@.slots[addr as int / (SLOT_WIDTH as int)] as usize),
            !insert_hits(old(self)@, addr as int) && insert_fits(old(self)@, code@)
                ==> final(self)@ == inserted_model(old(self)@, addr as int, code@) && r == Ok::<
                usize,
                JitError,
            >((old(self)@.inuse + 1) as usize),
            !insert_hits(old(self)@, addr as int) && !insert_fits(old(self)@, code@)
                ==> final(self)@ == old(self)@ && r == Err::<usize, JitError>(JitError::OutOfSpace),
    {
        let slot = addr / SLOT_WIDTH;
        let entry = self.blocks[slot];
        if entry != 0 {
            return Ok(entry as usize);
        }
        let len = code.len();
        if self.arena.len() - self.inuse < len {
            return Err(JitError::OutOfSpace);
        }
        let base = self.inuse;
        let mut i: usize = 0;
        while i < len
            invariant
                i <= len,
                len == code@.len(),
                base + len <= self.arena@.len(),
                base == self.inuse,
                self.blocks@ == old(self)@.slots,
                self.inuse == old(self)@.inuse,
                self.arena@.len() == old(self)@.arena.len(),
                self.arena@.subrange(0, base as int) == old(self)@.arena.subrange(0, base as int),
                self.arena@.subrange(base as int, base + i) == code@.subrange(0, i as int),
                self.arena@.subrange(base + len, self.arena@.len() as int) == old(
                    self,
                )@.arena.subrange(base + len, old(self)@.arena.len() as int),
            decreases len - i,
        {
            let alen = self.arena.len();
            assert(base + i < alen);
            self.arena[base + i] = code[i];
            proof {
                assert(self.arena@.subrange(0, base as int) =~= old(self)@.arena.subrange(
                    0,
                    base as int,
                ));
                assert(self.arena@.subrange(base as int, base + i + 1) =~= code@.subrange(
                    0,
                    i + 1,
                ));
                assert(self.arena@.subrange(base + len, self.arena@.len() as int) =~= old(
                    self,
                )@.arena.subrange(base + len, old(self)@.arena.len() as int));
            }
            i = i + 1;
        }
        let new_addr = self.inuse + 1;
        self.blocks[slot] = new_addr as u64;
        self.inuse = self.inuse + len;
        proof {
            let a0 = old(self)@.arena;
            let af = self.arena@;
            let m2 = inserted_model(old(self)@, addr as int, code@);
            assert(af.len() == m2.arena.len());
            assert forall|j: int| 0 <= j < af.len() implies af[j] == m2.arena[j] by {
                if j < base {
                    assert(af.subrange(0, base as int)[j] == a0.subrange(0, base as int)[j]);
                } else if j < base + len {
                    assert(af.subrange(base as int, base + len)[j - base] == code@.subrange(
                        0,
                        len as int,
                    )[j - base]);
                } else {
                    assert(af.subrange(base + len, af.len() as int)[j - base - len] == a0.subrange(
                        base + len,
                        a0.len() as int,
                    )[j - base - len]);
                }
            }
            assert(af =~= m2.arena);
            assert(final(self)@ =~= m2);
        }
        Ok(new_addr)
    }
}

/// Before any insertion has targeted the slot of `addr`, a lookup of `addr`
/// reports "not present".
pub proof fn lemma_lookup_fresh(m: CacheModel, addr: int)
    requires
        0 <= addr / (SLOT_WIDTH as int) < m.slots.len(),
        forall|i: int| 0 <= i < m.slots.len() ==> m.slots[i] == 0,
    ensures
        lookup_spec(m, addr) is None,
{
}

/// After one successful insertion for `addr`, every lookup of `addr`
/// observes the address that insertion returned, and later insertions for
/// other slots never change it.
pub proof fn lemma_lookup_after_insert(m: CacheModel, addr: int, code: Seq<u8>)
    requires
        model_wf(m),
        0 <= addr / (SLOT_WIDTH as int) < m.slots.len(),
        !insert_hits(m, addr),
        insert_fits(m, code),
    ensures
        lookup_spec(inserted_model(m, addr, code), addr) == Some((fresh_addr(m)) as usize),
        forall|a2: int, c2: Seq<u8>|
            0 <= a2 / (SLOT_WIDTH as int) < m.slots.len() && a2 / (SLOT_WIDTH as int) != addr / (
            SLOT_WIDTH as int) ==> lookup_spec(
                #[trigger] inserted_model(inserted_model(m, addr, code), a2, c2),
                addr,
            ) == Some((fresh_addr(m)) as usize),
{
    assert(fresh_addr(m) <= u64::MAX) by {
        assert(m.inuse <= m.arena.len());
    }
}

/// Idempotence of insertion: a second insertion for the same address, with
/// any payload, returns the very address the first one returned, and the
/// arena in-use mark grows by exactly the first payload's length.
pub proof fn lemma_insert_idempotent(m: CacheModel, addr: int, code1: Seq<u8>, code2: Seq<u8>)
    requires
        model_wf(m),
        0 <= addr / (SLOT_WIDTH as int) < m.slots.len(),
        !insert_hits(m, addr),
        insert_fits(m, code1),
    ensures
        insert_hits(inserted_model(m, addr, code1), addr),
        lookup_spec(inserted_model(m, addr, code1), addr) == Some((fresh_addr(m)) as usize),
        inserted_model(m, addr, code1).inuse == m.inuse + code1.len(),
{
}

} // verus!

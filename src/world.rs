//! The store: things grouped by part composition into archetypes, packed into chunks.
use vstd::prelude::*;
use crate::raw_table::{RawTable, TableView, pack, valid_table_size, lemma_allocate_free, lemma_pack_unpack, lemma_pack_split, lemma_generation_bits};
use crate::registry::Registry;
use crate::virtual_vec::VirtualVec;

verus! {

/// Most part types a registry can hold, and so bits in a part bitmap.
pub const MAX_PART_TYPES: usize = 256;

/// Most archetypes a world holds, plus one reserved index.
pub const MAX_ARCHTYPES: usize = 16384;

/// Most chunks a world holds, plus one reserved index.
pub const MAX_CHUNKS: usize = 131072;

/// Most things a world holds, plus one reserved index.
pub const MAX_THINGS: usize = 1048576;

/// Bytes of part data a chunk holds.
pub const CHUNK_SIZE_BYTES: usize = 16384;

/// Words of a part bitmap.
pub const PART_WORDS: usize = 4;

/// Set of part slots, one bit each.
#[derive(Clone, Copy, Debug)]
pub struct PartBitmap {
    parts: [u64; PART_WORDS],
}

/// Whether bit `i` of the words `w` is set.
pub open spec fn has_bit(w: Seq<u64>, i: int) -> bool {
    (w[i / 64] >> ((i % 64) as u64)) & 1 == 1
}

proof fn lemma_set_bit(w: u64, b: u64, c: u64)
    requires
        b < 64,
        c < 64,
    ensures
        ((w | (1u64 << b)) >> c) & 1 == 1 <==> (c == b || (w >> c) & 1 == 1),
        ((w & !(1u64 << b)) >> c) & 1 == 1 <==> (c != b && (w >> c) & 1 == 1),
{
    assert(((w | (1u64 << b)) >> c) & 1 == 1 <==> (c == b || (w >> c) & 1 == 1)) by (bit_vector)
        requires
            b < 64,
            c < 64,
    ;
    assert(((w & !(1u64 << b)) >> c) & 1 == 1 <==> (c != b && (w >> c) & 1 == 1)) by (bit_vector)
        requires
            b < 64,
            c < 64,
    ;
}

impl View for PartBitmap {
    type V = Seq<u64>;

    closed spec fn view(&self) -> Seq<u64> {
        self.parts@
    }
}

impl PartBitmap {
    /// Whether part slot `i` is in the set.
    pub open spec fn has(&self, i: int) -> bool {
        has_bit(self@, i)
    }

    /// The empty set.
    pub fn new() -> (r: Self)
        ensures
            r@ == seq![0u64, 0u64, 0u64, 0u64],
            forall|i: int| 0 <= i < MAX_PART_TYPES ==> !#[trigger] r.has(i),
    {
        let r = PartBitmap { parts: [0u64; PART_WORDS] };
        assert(r@ =~= seq![0u64, 0u64, 0u64, 0u64]);
        assert forall|i: int| 0 <= i < MAX_PART_TYPES implies !#[trigger] r.has(i) by {
            let c = (i % 64) as u64;
            assert((0u64 >> c) & 1 == 0) by (bit_vector);
        }
        r
    }

    /// `self` is `base` with bit `part` set.
    pub open spec fn is_with(&self, base: PartBitmap, part: usize) -> bool {
        self@ == base@.update((part / 64) as int, base@[(part / 64) as int] | (1u64 << ((part % 64) as u64)))
    }

    /// `self` is `base` with bit `part` cleared.
    pub open spec fn is_without(&self, base: PartBitmap, part: usize) -> bool {
        self@ == base@.update((part / 64) as int, base@[(part / 64) as int] & !(1u64 << ((part % 64) as u64)))
    }

    /// Whether part slot `part` is in the set.
    pub fn contains(&self, part: usize) -> (r: bool)
        requires
            part < MAX_PART_TYPES,
        ensures
            r == self.has(part as int),
    {
        (self.parts[part / 64] >> ((part % 64) as u64)) & 1 == 1
    }

    /// The set with `part` added.
    pub fn with(&self, part: usize) -> (r: Self)
        requires
            part < MAX_PART_TYPES,
        ensures
            r@.len() == PART_WORDS,
            r.is_with(*self, part),
            forall|i: int| 0 <= i < MAX_PART_TYPES ==> #[trigger] r.has(i) == (i == part || self.has(i)),
    {
        let mut parts = self.parts;
        let w = part / 64;
        let b = (part % 64) as u64;
        parts[w] = parts[w] | (1u64 << b);
        let r = PartBitmap { parts };
        proof {
            assert forall|i: int| 0 <= i < MAX_PART_TYPES implies #[trigger] r.has(i) == (i == part
                || self.has(i)) by {
                let c = (i % 64) as u64;
                lemma_set_bit(self@[w as int], b, c);
            }
        }
        r
    }

    /// The set with `part` taken out.
    pub fn without(&self, part: usize) -> (r: Self)
        requires
            part < MAX_PART_TYPES,
        ensures
            r@.len() == PART_WORDS,
            r.is_without(*self, part),
            forall|i: int| 0 <= i < MAX_PART_TYPES ==> #[trigger] r.has(i) == (i != part && self.has(i)),
    {
        let mut parts = self.parts;
        let w = part / 64;
        let b = (part % 64) as u64;
        parts[w] = parts[w] & !(1u64 << b);
        let r = PartBitmap { parts };
        proof {
            assert forall|i: int| 0 <= i < MAX_PART_TYPES implies #[trigger] r.has(i) == (i != part
                && self.has(i)) by {
                let c = (i % 64) as u64;
                lemma_set_bit(self@[w as int], b, c);
            }
        }
        r
    }

    /// Whether both hold the same parts.
    pub fn same_as(&self, other: &PartBitmap) -> (r: bool)
        ensures
            r == (self@ == other@),
    {
        let mut i: usize = 0;
        while i < PART_WORDS
            invariant
                i <= PART_WORDS,
                self@.len() == PART_WORDS,
                other@.len() == PART_WORDS,
                forall|k: int| 0 <= k < i ==> self@[k] == other@[k],
            decreases PART_WORDS - i,
        {
            if self.parts[i] != other.parts[i] {
                return false;
            }
            i = i + 1;
        }
        assert(self@ =~= other@);
        true
    }

    /// Whether every part of `other` is also in this set.
    pub fn is_superset(&self, other: &PartBitmap) -> (r: bool)
        ensures
            r == (forall|k: int| 0 <= k < PART_WORDS ==> (#[trigger] self@[k] & other@[k]) == other@[k]),
    {
        let mut i: usize = 0;
        while i < PART_WORDS
            invariant
                i <= PART_WORDS,
                self@.len() == PART_WORDS,
                other@.len() == PART_WORDS,
                forall|k: int| 0 <= k < i ==> (#[trigger] self@[k] & other@[k]) == other@[k],
            decreases PART_WORDS - i,
        {
            if self.parts[i] & other.parts[i] != other.parts[i] {
                return false;
            }
            i = i + 1;
        }
        true
    }
}

/// Fingerprint of an archetype: its plain parts and its shared (vector) parts.
#[derive(Clone, Copy, Debug)]
pub struct ArchtypeKey {
    pub scalar_parts: PartBitmap,
    pub vector_parts: PartBitmap,
}

impl ArchtypeKey {
    /// Key with no parts.
    pub fn new() -> (r: Self)
        ensures
            forall|i: int| 0 <= i < MAX_PART_TYPES ==> !#[trigger] r.scalar_parts.has(i) && !r.vector_parts.has(i),
    {
        ArchtypeKey { scalar_parts: PartBitmap::new(), vector_parts: PartBitmap::new() }
    }

    /// Whether both keys name the same archetype.
    pub fn same_as(&self, other: &ArchtypeKey) -> (r: bool)
        ensures
            r == (self == other),
    {
        let r = self.scalar_parts.same_as(&other.scalar_parts) && self.vector_parts.same_as(&other.vector_parts);
        proof {
            if r {
                assert(self.scalar_parts.parts@ =~= other.scalar_parts.parts@);
                assert(self.vector_parts.parts@ =~= other.vector_parts.parts@);
                assert(self.scalar_parts.parts == other.scalar_parts.parts);
                assert(self.vector_parts.parts == other.vector_parts.parts);
            }
        }
        r
    }
}

/// Handle of an archetype.
#[derive(Clone, Copy, Debug, PartialEq, Eq, Structural)]
pub struct ArchtypeId(pub u32);

/// Handle of a thing; the zero handle never names one.
#[derive(Clone, Copy, Debug, PartialEq, Eq, Structural)]
pub struct ThingId(pub u32);

/// Handle of a chunk.
#[derive(Clone, Copy, Debug, PartialEq, Eq, Structural)]
pub struct ChunkId(pub u32);

/// Result of a query: the handles of the matching chunks, in order of creation.
pub struct Query {
    pub chunks: Vec<ChunkId>,
}

/// Where a thing is: positions of its archetype and chunk, and its slot in the chunk.
#[derive(Clone, Copy)]
struct Thing {
    id: ThingId,
    archtype: u32,
    chunk: u32,
    slot: u32,
}

struct Archtype {
    id: ArchtypeId,
    key: ArchtypeKey,
    /// Positions of the chunks that hold things of this archetype, in order of creation.
    chunks: Vec<u32>,
    /// Things one chunk of this archetype holds.
    per_chunk: u32,
    /// Offset in a chunk of the column of each plain part, by part slot.
    offsets: Vec<usize>,
}

struct Chunk {
    id: ChunkId,
    archtype: u32,
    /// Positions of the thing records in the chunk, by slot.
    things: Vec<u32>,
    /// Part data: one column per plain part of the archetype, one cell per slot.
    data: Vec<u8>,
}

/// The store of things.
pub struct World {
    widths: Vec<usize>,
    thing_table: RawTable<MAX_THINGS>,
    things: VirtualVec<Thing>,
    archtype_table: RawTable<MAX_ARCHTYPES>,
    archtypes: VirtualVec<Archtype>,
    chunk_table: RawTable<MAX_CHUNKS>,
    chunks: VirtualVec<Chunk>,
}

/// Payload that marks a thing slot as naming no record.
pub open spec fn no_record() -> u32 {
    (MAX_THINGS - 1) as u32
}

impl World {
    closed spec fn records(&self) -> Seq<Thing> {
        self.things@.items
    }

    pub closed spec fn tv(&self) -> TableView {
        self.thing_table@
    }

    /// A slot of the thing table names no record, or the record whose handle it issues.
    closed spec fn slot_ok(&self, j: int) -> bool {
        let s = self.tv().stores[j];
        let v = self.tv().index_of(s);
        v == no_record() || (v < self.records().len() && self.records()[v as int].id.0 == pack(
            j as u32,
            self.tv().generation_of(s),
        ))
    }

    closed spec fn record_ok(&self, p: int) -> bool {
        let id = self.records()[p].id.0;
        &&& self.tv().lookup(id) == Some(p as u32)
        &&& !self.tv().free.contains(self.tv().index_of(id))
        &&& self.records()[p].archtype < self.archtypes@.items.len()
        &&& self.records()[p].chunk < self.chunks@.items.len()
    }

    closed spec fn archtype_ok(&self, a: int) -> bool {
        let id = self.archtypes@.items[a].id.0;
        let arch = self.archtypes@.items[a];
        &&& arch.per_chunk >= 1
        &&& arch.offsets@.len() == self.widths@.len()
        &&& forall|i: int| 0 <= i < self.widths@.len() && #[trigger] arch.key.scalar_parts.has(i)
            ==> arch.offsets@[i] + arch.per_chunk * self.widths@[i] <= CHUNK_SIZE_BYTES
        &&& forall|i: int| 0 <= i < self.widths@.len() ==> #[trigger] arch.offsets@[i] == arch.per_chunk
            * Self::width_sum(self.widths@, arch.key, i)
        &&& arch.per_chunk * Self::width_sum(self.widths@, arch.key, self.widths@.len() as int) <= CHUNK_SIZE_BYTES
        &&& self.archtype_table@.lookup(id) == Some(a as u32)
        &&& !self.archtype_table@.free.contains(self.archtype_table@.index_of(id))
    }

    closed spec fn chunk_ok(&self, c: int) -> bool {
        let id = self.chunks@.items[c].id.0;
        &&& self.chunks@.items[c].data@.len() == CHUNK_SIZE_BYTES
        &&& self.chunk_table@.lookup(id) == Some(c as u32)
        &&& !self.chunk_table@.free.contains(self.chunk_table@.index_of(id))
    }

    /// Record `p` sits in the cell its location names, in a chunk of its archetype.
    closed spec fn occ_ok(&self, p: int) -> bool {
        let r = self.records()[p];
        &&& r.chunk < self.chunks@.items.len()
        &&& r.slot < self.chunks@.items[r.chunk as int].things@.len()
        &&& self.chunks@.items[r.chunk as int].things@[r.slot as int] == p
        &&& self.chunks@.items[r.chunk as int].archtype == r.archtype
    }

    /// Cell `s` of chunk `c` holds a record, other than `skip`, whose location names the cell.
    closed spec fn cell_ok(&self, c: int, s: int, skip: int) -> bool {
        let q = self.chunks@.items[c].things@[s];
        &&& q < self.records().len()
        &&& q != skip
        &&& self.records()[q as int].chunk == c
        &&& self.records()[q as int].slot == s
    }

    /// Chunk `c` belongs to an archetype and holds no more things than it allows.
    closed spec fn room_ok(&self, c: int) -> bool {
        let a = self.chunks@.items[c].archtype as int;
        &&& a < self.archtypes@.items.len()
        &&& self.chunks@.items[c].things@.len() <= self.archtypes@.items[a].per_chunk
    }

    /// Every record but `skip` is in exactly the cell it names, and every occupied cell names
    /// a record other than `skip`.
    closed spec fn layout_ok(&self, skip: int) -> bool {
        &&& forall|p: int| 0 <= p < self.records().len() && p != skip ==> #[trigger] self.occ_ok(p)
        &&& forall|c: int, s: int|
            0 <= c < self.chunks@.items.len() && 0 <= s < self.chunks@.items[c].things@.len()
                ==> #[trigger] self.cell_ok(c, s, skip)
        &&& forall|c: int| 0 <= c < self.chunks@.items.len() ==> #[trigger] self.room_ok(c)
    }

    pub closed spec fn wf(&self) -> bool {
        self.wf_core() && self.layout_ok(-1)
    }

    /// Each archetype lists, in increasing order, exactly the chunks that belong to it.
    closed spec fn chunk_lists_ok(&self) -> bool {
        &&& forall|a: int, k: int|
            0 <= a < self.archtypes@.items.len() && 0 <= k < self.archtypes@.items[a].chunks@.len()
                ==> #[trigger] self.archtypes@.items[a].chunks@[k] < self.chunks@.items.len()
                && self.chunks@.items[self.archtypes@.items[a].chunks@[k] as int].archtype == a
        &&& forall|a: int, k1: int, k2: int|
            0 <= a < self.archtypes@.items.len() && 0 <= k1 < k2 < self.archtypes@.items[a].chunks@.len()
                ==> #[trigger] self.archtypes@.items[a].chunks@[k1] < #[trigger] self.archtypes@.items[a].chunks@[k2]
        &&& forall|c: int| 0 <= c < self.chunks@.items.len() ==> #[trigger] self.chunks@.items[c].archtype
            < self.archtypes@.items.len() && self.archtypes@.items[self.chunks@.items[c].archtype as int].chunks@.contains(c as u32)
    }

    /// The chunk lists carry over when the archetypes' lists and the chunks' archetypes stay.
    proof fn lemma_lists_kept(&self, before: World)
        requires
            before.chunk_lists_ok(),
            self.archtypes@.items.len() == before.archtypes@.items.len(),
            forall|a: int| 0 <= a < self.archtypes@.items.len() ==> (#[trigger] self.archtypes@.items[a]).chunks@
                == before.archtypes@.items[a].chunks@,
            self.chunks@.items.len() == before.chunks@.items.len(),
            forall|c: int| 0 <= c < self.chunks@.items.len() ==> (#[trigger] self.chunks@.items[c]).archtype
                == before.chunks@.items[c].archtype,
        ensures
            self.chunk_lists_ok(),
    {
        assert forall|a: int, k: int|
            0 <= a < self.archtypes@.items.len() && 0 <= k < self.archtypes@.items[a].chunks@.len()
                implies #[trigger] self.archtypes@.items[a].chunks@[k] < self.chunks@.items.len()
                && self.chunks@.items[self.archtypes@.items[a].chunks@[k] as int].archtype == a by {
            assert(self.archtypes@.items[a].chunks@ == before.archtypes@.items[a].chunks@);
            assert(before.archtypes@.items[a].chunks@[k] < before.chunks@.items.len());
            assert(self.chunks@.items[before.archtypes@.items[a].chunks@[k] as int].archtype
                == before.chunks@.items[before.archtypes@.items[a].chunks@[k] as int].archtype);
        }
        assert forall|a: int, k1: int, k2: int|
            0 <= a < self.archtypes@.items.len() && 0 <= k1 < k2 < self.archtypes@.items[a].chunks@.len()
                implies #[trigger] self.archtypes@.items[a].chunks@[k1] < #[trigger] self.archtypes@.items[a].chunks@[k2] by {
            assert(self.archtypes@.items[a].chunks@ == before.archtypes@.items[a].chunks@);
        }
        assert forall|c: int| 0 <= c < self.chunks@.items.len() implies #[trigger] self.chunks@.items[c].archtype
            < self.archtypes@.items.len() && self.archtypes@.items[self.chunks@.items[c].archtype as int].chunks@.contains(c as u32) by {
            assert(self.chunks@.items[c].archtype == before.chunks@.items[c].archtype);
            assert(self.archtypes@.items[self.chunks@.items[c].archtype as int].chunks@
                == before.archtypes@.items[before.chunks@.items[c].archtype as int].chunks@);
        }
    }

    closed spec fn wf_core(&self) -> bool {
        &&& self.chunk_lists_ok()
        &&& self.widths@.len() <= MAX_PART_TYPES
        &&& self.thing_table.wf()
        &&& self.archtype_table.wf()
        &&& self.chunk_table.wf()
        &&& self.things.wf()
        &&& self.archtypes.wf()
        &&& self.chunks.wf()
        &&& self.things@.map == MAX_THINGS
        &&& self.archtypes@.map == MAX_ARCHTYPES
        &&& self.chunks@.map == MAX_CHUNKS
        &&& self.records().len() + self.tv().free.len() == MAX_THINGS - 1
        &&& self.archtypes@.items.len() + self.archtype_table@.free.len() == MAX_ARCHTYPES - 1
        &&& self.chunks@.items.len() + self.chunk_table@.free.len() == MAX_CHUNKS - 1
        &&& forall|j: int| 0 <= j < MAX_THINGS - 1 ==> #[trigger] self.slot_ok(j)
        &&& forall|p: int| 0 <= p < self.records().len() ==> #[trigger] self.record_ok(p)
        &&& forall|a: int| 0 <= a < self.archtypes@.items.len() ==> #[trigger] self.archtype_ok(a)
        &&& forall|c: int| 0 <= c < self.chunks@.items.len() ==> #[trigger] self.chunk_ok(c)
        &&& self.keys_distinct()
    }

    /// No two archetypes share a key.
    closed spec fn keys_distinct(&self) -> bool {
        forall|a: int, b: int|
            0 <= a < self.archtypes@.items.len() && 0 <= b < self.archtypes@.items.len() && a != b
                ==> #[trigger] self.key_at(a) != #[trigger] self.key_at(b)
    }

    proof fn lemma_keys_kept(&self, before: World)
        requires
            before.keys_distinct(),
            self.archtypes@.items.len() == before.archtypes@.items.len(),
            forall|a: int| 0 <= a < self.archtypes@.items.len() ==> #[trigger] self.key_at(a) == before.key_at(a),
        ensures
            self.keys_distinct(),
    {
        assert forall|a: int, b: int|
            0 <= a < self.archtypes@.items.len() && 0 <= b < self.archtypes@.items.len() && a != b
                implies #[trigger] self.key_at(a) != #[trigger] self.key_at(b) by {
            assert(self.key_at(a) == before.key_at(a));
            assert(self.key_at(b) == before.key_at(b));
        }
    }

    /// Position of the record of `id`, if `id` names a live thing.
    pub closed spec fn record_index(&self, id: ThingId) -> Option<u32> {
        match self.tv().lookup(id.0) {
            Some(p) => if p < self.records().len() {
                Some(p)
            } else {
                None
            },
            None => None,
        }
    }

    /// Key of the archetype in position `a`.
    pub closed spec fn key_at(&self, a: int) -> ArchtypeKey {
        self.archtypes@.items[a].key
    }

    /// The live things, each with the key of its archetype.
    pub closed spec fn things(&self) -> Map<ThingId, ArchtypeKey> {
        Map::new(
            |id: ThingId| self.record_index(id) is Some,
            |id: ThingId| self.key_at(self.records()[self.record_index(id)->Some_0 as int].archtype as int),
        )
    }

    /// Keys of the archetypes, in order of creation.
    pub closed spec fn archetype_keys(&self) -> Seq<ArchtypeKey> {
        self.archtypes@.items.map_values(|a: Archtype| a.key)
    }

    /// Handles of the archetypes, in order of creation.
    pub closed spec fn archetype_ids(&self) -> Seq<ArchtypeId> {
        self.archtypes@.items.map_values(|a: Archtype| a.id)
    }

    /// Empty world over the part types of `registry`.
    pub fn new(registry: &Registry) -> (r: Self)
        requires
            registry.wf(),
        ensures
            r.wf(),
            r.things() == Map::<ThingId, ArchtypeKey>::empty(),
            r.archetype_keys() == Seq::<ArchtypeKey>::empty(),
            r.chunk_ids() == Seq::<ChunkId>::empty(),
            r.spare_things() == MAX_THINGS - 1,
            r.spare_archetypes() == MAX_ARCHTYPES - 1,
            r.spare_chunks() == MAX_CHUNKS - 1,
            r.part_slots() == registry.parts().len(),
            forall|i: int| 0 <= i < registry.parts().len() ==> #[trigger] r.part_width(i) == registry.parts()[i].width,
    {
        let mut widths: Vec<usize> = Vec::new();
        let n = registry.part_count();
        let mut i: usize = 0;
        while i < n
            invariant
                n == registry.parts().len(),
                i <= n,
                widths@.len() == i,
                forall|k: int| 0 <= k < i ==> #[trigger] widths@[k] == registry.parts()[k].width,
            decreases n - i,
        {
            widths.push(registry.part(i).width);
            i = i + 1;
        }
        assert(1048576u32 & 1048575u32 == 0 && 16384u32 & 16383u32 == 0 && 131072u32 & 131071u32
            == 0) by (bit_vector);
        let thing_table: RawTable<MAX_THINGS> = RawTable::new();
        let archtype_table: RawTable<MAX_ARCHTYPES> = RawTable::new();
        let chunk_table: RawTable<MAX_CHUNKS> = RawTable::new();
        let r = World {
            widths,
            thing_table,
            things: VirtualVec::new(MAX_THINGS),
            archtype_table,
            archtypes: VirtualVec::new(MAX_ARCHTYPES),
            chunk_table,
            chunks: VirtualVec::new(MAX_CHUNKS),
        };
        proof {
            assert forall|j: int| 0 <= j < MAX_THINGS - 1 implies #[trigger] r.slot_ok(j) by {
                let m = r.tv().mask();
                assert(m == 0xfffffu32);
                assert(!0u32 & 0xfffffu32 == 0xfffffu32) by (bit_vector);
            }
            assert(r.things() =~= Map::<ThingId, ArchtypeKey>::empty());
            assert(r.archetype_keys() =~= Seq::<ArchtypeKey>::empty());
            assert(r.chunk_ids() =~= Seq::<ChunkId>::empty());
        }
        r
    }

    /// Plain-part slots a key is read over.
    pub open spec fn slot_count(widths: Seq<usize>) -> int {
        if widths.len() < MAX_PART_TYPES { widths.len() as int } else { MAX_PART_TYPES as int }
    }

    /// Bytes the plain parts of `key` in slots below `i` take per thing.
    pub closed spec fn width_sum(widths: Seq<usize>, key: ArchtypeKey, i: int) -> nat
        decreases i,
    {
        if i <= 0 {
            0
        } else {
            Self::width_sum(widths, key, i - 1) + if key.scalar_parts.has(i - 1) {
                widths[i - 1] as nat
            } else {
                0
            }
        }
    }

    /// Whether one thing of `key` fits in a chunk.
    pub closed spec fn fits(widths: Seq<usize>, key: ArchtypeKey) -> bool {
        Self::width_sum(widths, key, Self::slot_count(widths)) <= CHUNK_SIZE_BYTES
    }

    /// Things one chunk of an archetype with `key` holds: the chunk size over the bytes one
    /// thing takes.
    pub closed spec fn per_chunk(widths: Seq<usize>, key: ArchtypeKey) -> nat {
        let stride = Self::width_sum(widths, key, Self::slot_count(widths));
        if stride == 0 { CHUNK_SIZE_BYTES as nat } else { CHUNK_SIZE_BYTES as nat / stride }
    }

    proof fn lemma_width_sum_monotone(widths: Seq<usize>, key: ArchtypeKey, i: int, j: int)
        requires
            0 <= i <= j,
        ensures
            Self::width_sum(widths, key, i) <= Self::width_sum(widths, key, j),
        decreases j - i,
    {
        if i < j {
            Self::lemma_width_sum_monotone(widths, key, i, j - 1);
        }
    }

    /// Layout of an archetype with `key`: things per chunk and, by part slot, the offset of the
    /// part's column in a chunk; `None` when one thing does not fit in a chunk.
    fn plan_layout(&self, key: &ArchtypeKey) -> (r: Option<(u32, Vec<usize>)>)
        requires
            self.widths@.len() <= MAX_PART_TYPES,
        ensures
            r is None <==> !Self::fits(self.widths@, *key),
            match r {
                Some(plan) => {
                    &&& plan.0 == Self::per_chunk(self.widths@, *key)
                    &&& 1 <= plan.0 <= CHUNK_SIZE_BYTES
                    &&& plan.1@.len() == self.widths@.len()
                    &&& forall|i: int| 0 <= i < self.widths@.len() && #[trigger] key.scalar_parts.has(i)
                        ==> plan.1@[i] + plan.0 * self.widths@[i] <= CHUNK_SIZE_BYTES
                    &&& forall|i: int| 0 <= i < self.widths@.len() ==> #[trigger] plan.1@[i] == plan.0 * Self::width_sum(self.widths@, *key, i)
                    &&& plan.0 * Self::width_sum(self.widths@, *key, self.widths@.len() as int) <= CHUNK_SIZE_BYTES
                },
                None => true,
            },
    {
        let n = self.widths.len();
        let mut stride: usize = 0;
        let mut i: usize = 0;
        while i < n
            invariant
                n == self.widths@.len(),
                n <= MAX_PART_TYPES,
                i <= n,
                stride == Self::width_sum(self.widths@, *key, i as int),
                stride <= CHUNK_SIZE_BYTES,
            decreases n - i,
        {
            if key.scalar_parts.contains(i) {
                let w = self.widths[i];
                if w > CHUNK_SIZE_BYTES - stride {
                    proof {
                        Self::lemma_width_sum_monotone(self.widths@, *key, i as int + 1, n as int);
                    }
                    return None;
                }
                stride = stride + w;
            }
            i = i + 1;
        }
        let per_chunk: usize = if stride == 0 {
            CHUNK_SIZE_BYTES
        } else {
            CHUNK_SIZE_BYTES / stride
        };
        proof {
            if stride > 0 {
                assert(1 <= per_chunk <= CHUNK_SIZE_BYTES && per_chunk * stride <= CHUNK_SIZE_BYTES) by (nonlinear_arith)
                    requires
                        0 < stride <= CHUNK_SIZE_BYTES,
                        per_chunk == CHUNK_SIZE_BYTES / stride,
                ;
            }
        }
        let mut offsets: Vec<usize> = Vec::new();
        let mut acc: usize = 0;
        let mut i: usize = 0;
        while i < n
            invariant
                n == self.widths@.len(),
                n <= MAX_PART_TYPES,
                i <= n,
                stride == Self::width_sum(self.widths@, *key, n as int),
                1 <= per_chunk <= CHUNK_SIZE_BYTES,
                stride == 0 || per_chunk * stride <= CHUNK_SIZE_BYTES,
                stride > 0 || per_chunk == CHUNK_SIZE_BYTES,
                acc == per_chunk * Self::width_sum(self.widths@, *key, i as int),
                offsets@.len() == i,
                forall|k: int| 0 <= k < i && #[trigger] key.scalar_parts.has(k)
                    ==> offsets@[k] + per_chunk * self.widths@[k] <= CHUNK_SIZE_BYTES,
                forall|k: int| 0 <= k < i ==> #[trigger] offsets@[k] == per_chunk * Self::width_sum(self.widths@, *key, k),
            decreases n - i,
        {
            offsets.push(acc);
            proof {
                Self::lemma_width_sum_monotone(self.widths@, *key, i as int + 1, n as int);
                let ws = Self::width_sum(self.widths@, *key, i as int + 1);
                let w: nat = if key.scalar_parts.has(i as int) { self.widths@[i as int] as nat } else { 0 };
                assert(ws == Self::width_sum(self.widths@, *key, i as int) + w);
                if stride == 0 {
                    assert(ws == 0);
                }
                assert(per_chunk * ws <= CHUNK_SIZE_BYTES) by (nonlinear_arith)
                    requires
                        ws <= stride,
                        stride == 0 ==> ws == 0,
                        stride == 0 || per_chunk * stride <= CHUNK_SIZE_BYTES,
                        per_chunk <= CHUNK_SIZE_BYTES,
                ;
                assert(per_chunk * ws == acc + per_chunk * w) by (nonlinear_arith)
                    requires
                        acc == per_chunk * Self::width_sum(self.widths@, *key, i as int),
                        ws == Self::width_sum(self.widths@, *key, i as int) + w,
                ;
            }
            if key.scalar_parts.contains(i) {
                acc = acc + per_chunk * self.widths[i];
            }
            i = i + 1;
        }
        proof {
            assert(per_chunk * stride <= CHUNK_SIZE_BYTES) by (nonlinear_arith)
                requires
                    stride == 0 || per_chunk * stride <= CHUNK_SIZE_BYTES,
            ;
        }
        Some((per_chunk as u32, offsets))
    }

    /// The conjuncts of `wf` over things and chunks carry over when neither they nor the
    /// thing table changed and archetypes were only added.
    proof fn lemma_keep_things(&self, before: World)
        requires
            before.wf(),
            self.records() == before.records(),
            self.tv() == before.tv(),
            self.chunks@ == before.chunks@,
            self.chunk_table@ == before.chunk_table@,
            self.archtypes@.items.len() >= before.archtypes@.items.len(),
            forall|a: int| 0 <= a < before.archtypes@.items.len() ==> #[trigger] self.archtypes@.items[a] == before.archtypes@.items[a],
        ensures
            forall|j: int| 0 <= j < MAX_THINGS - 1 ==> #[trigger] self.slot_ok(j),
            forall|p: int| 0 <= p < self.records().len() ==> #[trigger] self.record_ok(p),
            forall|c: int| 0 <= c < self.chunks@.items.len() ==> #[trigger] self.chunk_ok(c),
            self.layout_ok(-1),
    {
        assert forall|p: int| 0 <= p < self.records().len() && p != -1 implies #[trigger] self.occ_ok(p) by {
            assert(before.occ_ok(p));
        }
        assert forall|c: int, s: int|
            0 <= c < self.chunks@.items.len() && 0 <= s < self.chunks@.items[c].things@.len()
                implies #[trigger] self.cell_ok(c, s, -1) by {
            assert(before.cell_ok(c, s, -1));
        }
        assert forall|c: int| 0 <= c < self.chunks@.items.len() implies #[trigger] self.room_ok(c) by {
            assert(before.room_ok(c));
        }
        assert forall|j: int| 0 <= j < MAX_THINGS - 1 implies #[trigger] self.slot_ok(j) by {
            assert(before.slot_ok(j));
        }
        assert forall|p: int| 0 <= p < self.records().len() implies #[trigger] self.record_ok(p) by {
            assert(before.record_ok(p));
        }
        assert forall|c: int| 0 <= c < self.chunks@.items.len() implies #[trigger] self.chunk_ok(c) by {
            assert(before.chunk_ok(c));
        }
    }

    /// Position of the archetype with `key`, if there is one.
    fn find_archetype(&self, key: &ArchtypeKey) -> (r: Option<u32>)
        requires
            self.wf(),
        ensures
            match r {
                Some(a) => a < self.archetype_keys().len() && self.key_at(a as int) == *key,
                None => !self.archetype_keys().contains(*key),
            },
    {
        let count = self.archtypes.len();
        let mut a: usize = 0;
        while a < count
            invariant
                self.wf(),
                count == self.archtypes@.items.len(),
                a <= count,
                forall|b: int| 0 <= b < a ==> self.key_at(b) != *key,
            decreases count - a,
        {
            if self.archtypes.get(a).key.same_as(key) {
                return Some(a as u32);
            }
            a = a + 1;
        }
        proof {
            if self.archetype_keys().contains(*key) {
                let b = choose|b: int| 0 <= b < count && self.archetype_keys()[b] == *key;
                assert(self.key_at(b) == *key);
            }
        }
        None
    }

    /// Position of the archetype with `key`, added if there is none; `None` when it has to be
    /// added and no archetype handle is free.
    fn find_or_add_archetype(&mut self, key: &ArchtypeKey) -> (r: Option<u32>)
        requires
            old(self).wf(),
        ensures
            final(self).wf(),
            final(self).records() == old(self).records(),
            final(self).tv() == old(self).tv(),
            final(self).chunk_table@ == old(self).chunk_table@,
            final(self).chunks@ == old(self).chunks@,
            final(self).widths@ == old(self).widths@,
            final(self).archetype_keys() == old(self).archetype_keys() || final(self).archetype_keys()
                == old(self).archetype_keys().push(*key),
            final(self).archetype_keys().len() >= old(self).archetype_keys().len(),
            forall|a: int| 0 <= a < old(self).archtypes@.items.len() ==> #[trigger] final(self).archtypes@.items[a] == old(self).archtypes@.items[a],
            forall|a: int| 0 <= a < old(self).archetype_keys().len() ==> #[trigger] final(self).key_at(a) == old(self).key_at(a),
            match r {
                Some(a) => a < final(self).archetype_keys().len() && final(self).key_at(a as int) == *key,
                None => (old(self).archtype_table@.free.len() == 0 || !Self::fits(old(self).widths@, *key))
                    && final(self).archetype_keys() == old(self).archetype_keys(),
            },
    {
        if let Some(a) = self.find_archetype(key) {
            return Some(a);
        }
        let count = self.archtypes.len();
        if self.archtype_table.free_count() == 0 {
            return None;
        }
        let (per_chunk, offsets) = match self.plan_layout(key) {
            Some(plan) => plan,
            None => return None,
        };
        let ghost old_table = self.archtype_table@;
        proof {
            self.archtype_table.lemma_view_wf();
        }
        let h = self.archtype_table.allocate_handle();
        self.archtype_table.set(h, count as u32);
        self.archtypes.push(Archtype { id: ArchtypeId(h), key: *key, chunks: Vec::new(), per_chunk, offsets });
        proof {
            assert(old_table.free.contains(old_table.free[0]));
            assert forall|b: int| 0 <= b < self.archtypes@.items.len() implies #[trigger] self.archtype_ok(b) by {
                let idb = self.archtypes@.items[b].id.0;
                lemma_allocate_free(old_table, old_table.index_of(idb));
                if b < count {
                    assert(old(self).archtype_ok(b));
                    assert(self.archtypes@.items[b] == old(self).archtypes@.items[b]);
                }
            }
            assert(self.archetype_keys() =~= old(self).archetype_keys().push(*key));
            self.lemma_keep_things(*old(self));
            assert forall|a: int, b: int|
                0 <= a < self.archtypes@.items.len() && 0 <= b < self.archtypes@.items.len() && a != b
                    implies #[trigger] self.key_at(a) != #[trigger] self.key_at(b) by {
                if a < count && b < count {
                    assert(old(self).key_at(a) != old(self).key_at(b));
                } else if a < count {
                    assert(old(self).archetype_keys()[a] == self.key_at(a));
                } else {
                    assert(old(self).archetype_keys()[b] == self.key_at(b));
                }
            }
        }
        Some(count as u32)
    }

    /// Position of the archetype of each chunk, in order of creation.
    pub closed spec fn chunk_archetypes(&self) -> Seq<int> {
        self.chunks@.items.map_values(|c: Chunk| c.archtype as int)
    }

    /// Things one chunk of the archetype in position `a` holds.
    pub closed spec fn archetype_capacity(&self, a: int) -> nat {
        self.archtypes@.items[a].per_chunk as nat
    }

    /// What the chunk sequences say about each other, and what having room means.
    pub proof fn lemma_chunk_shape(&self)
        requires
            self.wf(),
        ensures
            self.chunk_archetypes().len() == self.chunk_ids().len(),
            self.chunk_lens().len() == self.chunk_ids().len(),
            forall|c: int| 0 <= c < self.chunk_ids().len() ==> 0 <= #[trigger] self.chunk_archetypes()[c] < self.archetype_keys().len(),
            forall|a: int| 0 <= a < self.archetype_keys().len() ==> #[trigger] self.archetype_capacity(a) >= 1,
            forall|a: int, c: int| #[trigger] self.room_for(a, c) <==> 0 <= c < self.chunk_ids().len()
                && self.chunk_archetypes()[c] == a && self.chunk_lens()[c] < self.archetype_capacity(a),
    {
        assert forall|c: int| 0 <= c < self.chunk_ids().len() implies 0 <= #[trigger] self.chunk_archetypes()[c] < self.archetype_keys().len() by {
            assert(self.room_ok(c));
        }
        assert forall|a: int| 0 <= a < self.archetype_keys().len() implies #[trigger] self.archetype_capacity(a) >= 1 by {
            assert(self.archtype_ok(a));
        }
    }

    /// Whether chunk `c` belongs to archetype `a` and has room for one more thing.
    pub closed spec fn room_for(&self, a: int, c: int) -> bool {
        &&& 0 <= c < self.chunks@.items.len()
        &&& self.chunks@.items[c].archtype == a
        &&& self.chunks@.items[c].things@.len() < self.archtypes@.items[a].per_chunk
    }

    /// Position of the last chunk of archetype `a` that has room, if any.
    fn find_room(&self, a: u32) -> (r: Option<u32>)
        requires
            self.wf_core(),
            a < self.archtypes@.items.len(),
        ensures
            match r {
                Some(c) => self.room_for(a as int, c as int) && forall|c2: int| #[trigger] self.room_for(a as int, c2) ==> c2 <= c,
                None => forall|c2: int| !#[trigger] self.room_for(a as int, c2),
            },
    {
        let arch = self.archtypes.get(a as usize);
        let mut k = arch.chunks.len();
        while k > 0
            invariant
                k <= arch.chunks@.len(),
                *arch == self.archtypes@.items[a as int],
                self.wf_core(),
                a < self.archtypes@.items.len(),
                forall|k2: int| k <= k2 < arch.chunks@.len() ==> !#[trigger] self.room_for(a as int, arch.chunks@[k2] as int),
            decreases k,
        {
            k = k - 1;
            let c = arch.chunks[k];
            if (c as usize) < self.chunks.len() {
                let chunk = self.chunks.get(c as usize);
                if chunk.archtype == a && chunk.things.len() < arch.per_chunk as usize {
                    proof {
                        assert forall|c2: int| #[trigger] self.room_for(a as int, c2) implies c2 <= c by {
                            assert(self.archtypes@.items[a as int].chunks@.contains(c2 as u32));
                            let j = choose|j: int| 0 <= j < arch.chunks@.len() && arch.chunks@[j] == c2 as u32;
                            if j > k {
                            } else if j < k {
                                assert(arch.chunks@[j] < arch.chunks@[k as int]);
                            }
                        }
                    }
                    return Some(c);
                }
            }
        }
        proof {
            assert forall|c2: int| !#[trigger] self.room_for(a as int, c2) by {
                if self.room_for(a as int, c2) {
                    assert(self.archtypes@.items[a as int].chunks@.contains(c2 as u32));
                    let j = choose|j: int| 0 <= j < arch.chunks@.len() && arch.chunks@[j] == c2 as u32;
                }
            }
        }
        None
    }

    /// Position of a chunk of archetype `a` with room, opening a new one when none has any;
    /// `None` when a chunk is needed and no chunk handle is free. Records and the cells they
    /// sit in stay as they are.
    fn prepare_chunk(&mut self, a: u32, Ghost(skip): Ghost<int>) -> (r: Option<u32>)
        requires
            old(self).wf_core(),
            old(self).layout_ok(skip),
            a < old(self).archtypes@.items.len(),
        ensures
            final(self).wf_core(),
            final(self).layout_ok(skip),
            final(self).thing_table == old(self).thing_table,
            final(self).things == old(self).things,
            final(self).archtype_table == old(self).archtype_table,
            final(self).widths@ == old(self).widths@,
            final(self).archtypes@.items.len() == old(self).archtypes@.items.len(),
            forall|b: int| 0 <= b < old(self).archtypes@.items.len() ==> (#[trigger] final(self).archtypes@.items[b]).key
                == old(self).archtypes@.items[b].key && final(self).archtypes@.items[b].id == old(self).archtypes@.items[b].id
                && final(self).archtypes@.items[b].per_chunk == old(self).archtypes@.items[b].per_chunk
                && final(self).archtypes@.items[b].offsets@ == old(self).archtypes@.items[b].offsets@,
            final(self).chunks@.items.len() >= old(self).chunks@.items.len(),
            forall|c: int| 0 <= c < old(self).chunks@.items.len() ==> #[trigger] final(self).chunks@.items[c] == old(self).chunks@.items[c],
            forall|c: int| old(self).chunks@.items.len() <= c < final(self).chunks@.items.len() ==> (#[trigger] final(self).chunks@.items[c]).things@.len() == 0,
            match r {
                Some(c) => c < final(self).chunks@.items.len() && final(self).chunks@.items[c as int].archtype == a
                    && final(self).chunks@.items[c as int].things@.len() < final(self).archtypes@.items[a as int].per_chunk,
                None => old(self).chunk_table@.free.len() == 0,
            },
            (exists|c2: int| #[trigger] old(self).room_for(a as int, c2)) ==> r is Some && *final(self) == *old(self)
                && old(self).room_for(a as int, r->Some_0 as int)
                && forall|c2: int| #[trigger] old(self).room_for(a as int, c2) ==> c2 <= r->Some_0,
            (forall|c2: int| !#[trigger] old(self).room_for(a as int, c2)) && r is Some ==> r->Some_0 == old(self).chunks@.items.len()
                && final(self).chunks@.items.len() == old(self).chunks@.items.len() + 1,
    {
        if let Some(c) = self.find_room(a) {
            return Some(c);
        }
        if self.chunk_table.free_count() == 0 {
            return None;
        }
        let count = self.chunks.len();
        let ghost old_table = self.chunk_table@;
        proof {
            self.chunk_table.lemma_view_wf();
        }
        let h = self.chunk_table.allocate_handle();
        self.chunk_table.set(h, count as u32);
        let data: Vec<u8> = vec![0u8; CHUNK_SIZE_BYTES];
        self.chunks.push(Chunk { id: ChunkId(h), archtype: a, things: Vec::new(), data });
        let mut arch = self.archtypes.replace(
            a as usize,
            Archtype { id: ArchtypeId(0), key: ArchtypeKey::new(), chunks: Vec::new(), per_chunk: 1, offsets: Vec::new() },
        );
        arch.chunks.push(count as u32);
        self.archtypes.replace(a as usize, arch);
        proof {
            let o = *old(self);
            let ol = o.archtypes@.items[a as int].chunks@;
            assert(self.archtypes@.items[a as int].chunks@ == ol.push(count as u32));
            assert forall|a2: int, k: int|
                0 <= a2 < self.archtypes@.items.len() && 0 <= k < self.archtypes@.items[a2].chunks@.len()
                    implies #[trigger] self.archtypes@.items[a2].chunks@[k] < self.chunks@.items.len()
                    && self.chunks@.items[self.archtypes@.items[a2].chunks@[k] as int].archtype == a2 by {
                if !(a2 == a && k == ol.len()) {
                    assert(self.archtypes@.items[a2].chunks@[k] == o.archtypes@.items[a2].chunks@[k]);
                    assert(o.archtypes@.items[a2].chunks@[k] < o.chunks@.items.len());
                }
            }
            assert forall|a2: int, k1: int, k2: int|
                0 <= a2 < self.archtypes@.items.len() && 0 <= k1 < k2 < self.archtypes@.items[a2].chunks@.len()
                    implies #[trigger] self.archtypes@.items[a2].chunks@[k1] < #[trigger] self.archtypes@.items[a2].chunks@[k2] by {
                if a2 == a && k2 == ol.len() {
                    assert(ol[k1] < o.chunks@.items.len());
                } else {
                    assert(self.archtypes@.items[a2].chunks@[k1] == o.archtypes@.items[a2].chunks@[k1]);
                    assert(self.archtypes@.items[a2].chunks@[k2] == o.archtypes@.items[a2].chunks@[k2]);
                }
            }
            assert forall|c: int| 0 <= c < self.chunks@.items.len() implies #[trigger] self.chunks@.items[c].archtype
                < self.archtypes@.items.len() && self.archtypes@.items[self.chunks@.items[c].archtype as int].chunks@.contains(c as u32) by {
                if c < count {
                    let b = o.chunks@.items[c].archtype as int;
                    assert(o.archtypes@.items[b].chunks@.contains(c as u32));
                    let j = choose|j: int| 0 <= j < o.archtypes@.items[b].chunks@.len() && o.archtypes@.items[b].chunks@[j] == c as u32;
                    assert(self.archtypes@.items[b].chunks@[j] == c as u32);
                } else {
                    assert(self.archtypes@.items[a as int].chunks@[ol.len() as int] == c as u32);
                }
            }
            assert(o.archtype_ok(a as int));
            assert forall|d: int| 0 <= d < self.chunks@.items.len() implies #[trigger] self.chunk_ok(d) by {
                let idd = self.chunks@.items[d].id.0;
                lemma_allocate_free(old_table, old_table.index_of(idd));
                if d < count {
                    assert(o.chunk_ok(d));
                    assert(self.chunks@.items[d] == o.chunks@.items[d]);
                }
            }
            assert forall|j: int| 0 <= j < MAX_THINGS - 1 implies #[trigger] self.slot_ok(j) by {
                assert(o.slot_ok(j));
            }
            assert forall|p: int| 0 <= p < self.records().len() implies #[trigger] self.record_ok(p) by {
                assert(o.record_ok(p));
            }
            assert forall|b: int| 0 <= b < self.archtypes@.items.len() implies #[trigger] self.archtype_ok(b) by {
                assert(o.archtype_ok(b));
            }
            assert forall|b: int| 0 <= b < self.archtypes@.items.len() implies #[trigger] self.key_at(b) == o.key_at(b) by {
            }
            self.lemma_keys_kept(o);
            assert forall|p: int| 0 <= p < self.records().len() && p != skip implies #[trigger] self.occ_ok(p) by {
                assert(o.occ_ok(p));
            }
            assert forall|c: int, t: int|
                0 <= c < self.chunks@.items.len() && 0 <= t < self.chunks@.items[c].things@.len()
                    implies #[trigger] self.cell_ok(c, t, skip) by {
                assert(o.cell_ok(c, t, skip));
            }
            assert forall|c: int| 0 <= c < self.chunks@.items.len() implies #[trigger] self.room_ok(c) by {
                if c < count {
                    assert(o.room_ok(c));
                }
            }
        }
        Some(count as u32)
    }

    /// Whether one thing with the parts of `key` fits in a chunk.
    pub closed spec fn fits_key(&self, key: ArchtypeKey) -> bool {
        Self::fits(self.widths@, key)
    }

    /// Bytes of all the plain parts of slots below `i` together.
    pub closed spec fn total_upto(widths: Seq<usize>, i: int) -> nat
        decreases i,
    {
        if i <= 0 { 0 } else { Self::total_upto(widths, i - 1) + widths[i - 1] as nat }
    }

    /// Bytes of all the plain parts together.
    pub closed spec fn total_width(&self) -> nat {
        Self::total_upto(self.widths@, Self::slot_count(self.widths@))
    }

    proof fn lemma_total_bounds(widths: Seq<usize>, key: ArchtypeKey, i: int)
        requires
            0 <= i,
        ensures
            Self::width_sum(widths, key, i) <= Self::total_upto(widths, i),
        decreases i,
    {
        if i > 0 {
            Self::lemma_total_bounds(widths, key, i - 1);
        }
    }

    /// When all the plain parts fit in a chunk together, every key does.
    pub proof fn lemma_all_fit(&self, key: ArchtypeKey)
        requires
            self.total_width() <= CHUNK_SIZE_BYTES,
        ensures
            self.fits_key(key),
    {
        Self::lemma_total_bounds(self.widths@, key, Self::slot_count(self.widths@));
    }

    /// Whether `id` misses in the thing table: its generation is not its slot's.
    pub closed spec fn misses(&self, id: ThingId) -> bool {
        self.tv().lookup(id.0) is None
    }

    /// Slot of the thing table that `id` names.
    pub closed spec fn handle_slot(&self, id: ThingId) -> int {
        self.tv().index_of(id.0) as int
    }

    /// A handle that misses names no thing.
    pub proof fn lemma_miss_is_absent(&self, id: ThingId)
        requires
            self.misses(id),
        ensures
            !self.things().contains_key(id),
    {
    }

    /// Handles a new thing can still take.
    pub closed spec fn spare_things(&self) -> nat {
        self.tv().free.len()
    }

    /// Handles a new archetype can still take.
    pub closed spec fn spare_archetypes(&self) -> nat {
        self.archtype_table@.free.len()
    }

    /// Handles a new chunk can still take.
    pub closed spec fn spare_chunks(&self) -> nat {
        self.chunk_table@.free.len()
    }

    proof fn lemma_things_same(&self, before: World)
        requires
            before.wf_core(),
            self.records() == before.records(),
            self.tv() == before.tv(),
            self.archtypes@.items.len() >= before.archtypes@.items.len(),
            forall|a: int| 0 <= a < before.archtypes@.items.len() ==> #[trigger] self.key_at(a) == before.key_at(a),
        ensures
            self.things() == before.things(),
    {
        assert forall|id: ThingId| #[trigger] self.things().contains_key(id) implies self.things()[id]
            == before.things()[id] by {
            let p = self.record_index(id)->Some_0 as int;
            assert(before.record_ok(p));
        }
        assert(self.things() =~= before.things());
    }

    /// Creates a thing with the parts of `key` and returns its handle. The thing goes in the
    /// next free slot of a chunk of the archetype with that key, which is added if there is
    /// none, and its part bytes start out zero. `None` when one such thing does not fit in a
    /// chunk, or a handle for the thing, or for an archetype or chunk it needs, is not to be
    /// had; nothing about the things changes then.
    #[verifier::rlimit(40)]
    pub fn create_thing(&mut self, key: &ArchtypeKey) -> (r: Option<ThingId>)
        requires
            old(self).wf(),
        ensures
            final(self).wf(),
            match r {
                Some(id) => !old(self).things().contains_key(id) && final(self).things()
                    == old(self).things().insert(id, *key),
                None => final(self).things() == old(self).things(),
            },
            old(self).spare_things() > 0 && old(self).spare_archetypes() > 0
                && old(self).spare_chunks() > 0 && old(self).fits_key(*key) ==> r is Some,
            final(self).archetype_keys() == old(self).archetype_keys() || final(self).archetype_keys()
                == old(self).archetype_keys().push(*key),
            match r {
                Some(id) => forall|i: int| #[trigger] final(self).holds_part(id, i) ==> final(self).part_data(id, i)
                    == Seq::new(final(self).part_width(i), |_k: int| 0u8),
                None => true,
            },
            r is Some ==> forall|g: ThingId, i: int|
                #![trigger final(self).part_data(g, i)]
                old(self).holds_part(g, i) ==> final(self).holds_part(g, i) && final(self).part_data(g, i)
                    == old(self).part_data(g, i),
            match r {
                Some(id) => final(self).slot_index(id) + 1 == final(self).chunk_lens()[final(self).chunk_index(id)],
                None => true,
            },
            match r {
                Some(id) => {
                    let a = final(self).archetype_index(id);
                    let c = final(self).chunk_index(id);
                    if exists|c2: int| #[trigger] old(self).room_for(a, c2) {
                        &&& old(self).room_for(a, c)
                        &&& forall|c2: int| #[trigger] old(self).room_for(a, c2) ==> c2 <= c
                        &&& final(self).chunk_ids() == old(self).chunk_ids()
                        &&& final(self).chunk_archetypes() == old(self).chunk_archetypes()
                        &&& final(self).chunk_lens() == old(self).chunk_lens().update(c, old(self).chunk_lens()[c] + 1)
                    } else {
                        &&& c == old(self).chunk_ids().len()
                        &&& final(self).chunk_ids().len() == c + 1
                        &&& final(self).chunk_ids().take(c) == old(self).chunk_ids()
                        &&& final(self).chunk_archetypes() == old(self).chunk_archetypes().push(a)
                        &&& final(self).chunk_lens() == old(self).chunk_lens().push(1)
                    }
                },
                None => true,
            },
            final(self).spare_things() + (if r is Some { 1int } else { 0int }) == old(self).spare_things(),
            forall|g: ThingId| #[trigger] old(self).misses(g) ==> final(self).misses(g) && r != Some(g),
    {
        if self.thing_table.free_count() == 0 {
            return None;
        }
        let a = match self.find_or_add_archetype(key) {
            Some(a) => a,
            None => {
                proof {
                    self.lemma_things_same(*old(self));
                }
                return None;
            },
        };
        let p = self.things.len() as u32;
        proof {
            self.lemma_things_same(*old(self));
        }
        let ghost s1 = *self;
        proof {
            assert forall|c2: int| #[trigger] s1.room_for(a as int, c2) == old(self).room_for(a as int, c2) by {
                if 0 <= c2 < old(self).chunks@.items.len() {
                    assert(old(self).room_ok(c2));
                }
            }
        }
        let c = match self.prepare_chunk(a, Ghost(-1)) {
            Some(c) => c,
            None => {
                proof {
                    self.lemma_things_same(*old(self));
                }
                return None;
            },
        };
        let ghost before_push = *self;
        proof {
            self.lemma_things_same(*old(self));
            assert forall|d: int| 0 <= d < old(self).chunks@.items.len() implies #[trigger] self.chunk_bytes()[d] == old(self).chunk_bytes()[d] by {
                assert(self.chunks@.items[d] == old(self).chunks@.items[d]);
            }
        }
        let mut chunk = self.chunks.replace(c as usize, Chunk { id: ChunkId(0), archtype: 0, things: Vec::new(), data: Vec::new() });
        let slot = chunk.things.len() as u32;
        chunk.things.push(p);
        self.chunks.replace(c as usize, chunk);
        proof {
            let o = before_push;
            assert forall|d: int| 0 <= d < self.chunks@.items.len() implies #[trigger] self.chunk_ok(d) by {
                assert(o.chunk_ok(d));
            }
            assert forall|b: int| 0 <= b < self.archtypes@.items.len() implies #[trigger] self.archtype_ok(b) by {
                assert(o.archtype_ok(b));
            }
            assert forall|q: int| 0 <= q < self.records().len() implies #[trigger] self.record_ok(q) by {
                assert(o.record_ok(q));
            }
            assert forall|j: int| 0 <= j < MAX_THINGS - 1 implies #[trigger] self.slot_ok(j) by {
                assert(o.slot_ok(j));
            }
            assert forall|q: int| 0 <= q < self.records().len() implies #[trigger] self.occ_ok(q) by {
                assert(o.occ_ok(q));
            }
            assert forall|d: int, t: int|
                0 <= d < self.chunks@.items.len() && 0 <= t < self.chunks@.items[d].things@.len() && !(d == c && t == slot)
                    implies #[trigger] self.cell_ok(d, t, p as int) by {
                assert(o.cell_ok(d, t, -1));
            }
            assert forall|d: int| 0 <= d < self.chunks@.items.len() implies #[trigger] self.room_ok(d) by {
                assert(o.room_ok(d));
            }
            self.lemma_keys_kept(o);
        }
        let ghost mid = *self;
        let ghost t0 = self.tv();
        proof {
            self.thing_table.lemma_view_wf();
            assert(p < MAX_THINGS - 1);
        }
        let h = self.thing_table.allocate_handle();
        self.thing_table.set(h, p);
        self.things.push(Thing { id: ThingId(h), archtype: a, chunk: c, slot });
        let id = ThingId(h);
        proof {
            assert forall|q: int| 0 <= q < self.records().len() implies #[trigger] self.occ_ok(q) by {
                if q < p {
                    assert(mid.occ_ok(q));
                }
            }
            assert forall|d: int, t: int|
                0 <= d < self.chunks@.items.len() && 0 <= t < self.chunks@.items[d].things@.len()
                    implies #[trigger] self.cell_ok(d, t, -1) by {
                if !(d == c && t == slot) {
                    assert(mid.cell_ok(d, t, p as int));
                }
            }
            assert forall|d: int| 0 <= d < self.chunks@.items.len() implies #[trigger] self.room_ok(d) by {
                assert(mid.room_ok(d));
            }
            let i = t0.free[0];
            let t1 = self.tv();
            lemma_pack_split(h, t0.mask());
            assert(t0.free.contains(i));
            assert forall|j: int| 0 <= j < MAX_THINGS - 1 implies #[trigger] self.slot_ok(j) by {
                assert(mid.slot_ok(j));
                if j == i {
                    lemma_generation_bits(t0.stores[j], t0.mask());
                    lemma_pack_unpack(p, t0.generation_of(t0.stores[j]), t0.mask());
                }
            }
            assert forall|q: int| 0 <= q < self.records().len() implies #[trigger] self.record_ok(q) by {
                let idq = self.records()[q].id.0;
                lemma_allocate_free(t0, t0.index_of(idq));
                if q < p {
                    assert(mid.record_ok(q));
                }
            }
            assert forall|d: int| 0 <= d < self.archtypes@.items.len() implies #[trigger] self.archtype_ok(d) by {
                assert(mid.archtype_ok(d));
            }
            assert forall|d: int| 0 <= d < self.chunks@.items.len() implies #[trigger] self.chunk_ok(d) by {
                assert(mid.chunk_ok(d));
            }
            // Slot `i` named no record before: a record naming it would hold a free index.
            assert(t0.index_of(t0.stores[i as int]) == no_record()) by {
                assert(mid.slot_ok(i as int));
                let v = t0.index_of(t0.stores[i as int]);
                if v != no_record() {
                    assert(mid.record_ok(v as int));
                    lemma_generation_bits(t0.stores[i as int], t0.mask());
                    lemma_pack_unpack(i, t0.generation_of(t0.stores[i as int]), t0.mask());
                }
            }
            assert(!mid.things().contains_key(id));
            assert forall|g: ThingId| true implies (#[trigger] self.things().contains_key(g)) == (g == id
                || mid.things().contains_key(g)) && (self.things().contains_key(g) ==> self.things()[g]
                == mid.things().insert(id, *key)[g]) && (g != id && mid.things().contains_key(g) ==> self.record_index(g)
                == mid.record_index(g)) by {
                let k = t0.index_of(g.0);
                lemma_pack_split(g.0, t0.mask());
                lemma_generation_bits(t0.stores[i as int], t0.mask());
                lemma_pack_unpack(p, t0.generation_of(t0.stores[i as int]), t0.mask());
                if k != i {
                    if k < MAX_THINGS - 1 {
                        assert(mid.slot_ok(k as int));
                        assert(t1.stores[k as int] == t0.stores[k as int]);
                        assert(t1.lookup(g.0) == t0.lookup(g.0));
                    }
                    assert(self.record_index(g) == mid.record_index(g));
                    if self.record_index(g) is Some {
                        let v = self.record_index(g)->Some_0 as int;
                        assert(self.records()[v] == mid.records()[v]);
                        assert(self.things()[g] == mid.things()[g]);
                    }
                    assert(g != id);
                } else if g == id {
                    assert(self.record_index(g) == Some(p));
                    assert(self.records()[p as int].archtype == a);
                    assert(mid.key_at(a as int) == *key);
                    assert(self.key_at(a as int) == *key);
                    assert(self.things()[g] == *key);
                } else {
                    assert(t1.lookup(g.0) is None);
                    assert(mid.record_index(g) is None);
                }
            }
            assert(self.things() =~= mid.things().insert(id, *key));
            self.lemma_keys_kept(mid);
            assert(mid.room_ok(c as int));
            assert(mid.archtype_ok(a as int));
        }
        let ghost before_fill = *self;
        self.fill_cell(a as usize, c as usize, slot as usize, None, Ghost(-1));
        proof {
            let f0 = before_push;
            let oo0 = *old(self);
            assert forall|d: int| 0 <= d < self.chunks@.items.len() implies #[trigger] self.chunks@.items[d].id == f0.chunks@.items[d].id
                && self.chunks@.items[d].archtype == f0.chunks@.items[d].archtype
                && self.chunks@.items[d].things@.len() == if d == c { (f0.chunks@.items[d].things@.len() + 1) as int } else {
                    f0.chunks@.items[d].things@.len() as int
                } by {
                assert(self.chunks@.items[d].id == before_fill.chunks@.items[d].id);
            }
            assert(self.chunk_ids() =~= f0.chunk_ids());
            assert(self.chunk_archetypes() =~= f0.chunk_archetypes());
            assert(self.chunk_lens() =~= f0.chunk_lens().update(c as int, f0.chunk_lens()[c as int] + 1));
            assert(self.record_index(id) == Some(p));
            if exists|c2: int| #[trigger] s1.room_for(a as int, c2) {
                assert(f0 == s1);
                assert(s1.chunks@ == oo0.chunks@);
                assert(f0.chunk_ids() =~= oo0.chunk_ids());
                assert(f0.chunk_archetypes() =~= oo0.chunk_archetypes());
                assert(f0.chunk_lens() =~= oo0.chunk_lens());
                assert(self.archetype_index(id) == a as int);
                assert(self.chunk_index(id) == c as int);
                assert(oo0.room_for(a as int, c as int));
                assert forall|c2: int| #[trigger] oo0.room_for(a as int, c2) implies c2 <= c by {
                    assert(s1.room_for(a as int, c2));
                }
                assert(self.chunk_lens() == oo0.chunk_lens().update(c as int, oo0.chunk_lens()[c as int] + 1));
            } else {
                assert(!exists|c2: int| #[trigger] oo0.room_for(a as int, c2)) by {
                    if exists|c2: int| #[trigger] oo0.room_for(a as int, c2) {
                        let c2 = choose|c2: int| #[trigger] oo0.room_for(a as int, c2);
                        assert(s1.room_for(a as int, c2));
                    }
                }
                let n0 = oo0.chunks@.items.len();
                assert(s1.chunks@ == oo0.chunks@);
                assert(f0.chunk_ids().take(n0 as int) =~= oo0.chunk_ids());
                assert(f0.chunk_archetypes() =~= oo0.chunk_archetypes().push(a as int));
                assert(f0.chunk_lens() =~= oo0.chunk_lens().push(0));
                assert(self.chunk_ids().take(n0 as int) =~= oo0.chunk_ids());
                assert(self.chunk_lens() =~= oo0.chunk_lens().push(1));
                assert(self.chunk_archetypes() =~= oo0.chunk_archetypes().push(a as int));
                assert(self.archetype_index(id) == a as int);
                assert(self.chunk_index(id) == c as int);
                assert(c as int == oo0.chunk_ids().len());
            }
            let o = before_fill;
            assert(self.record_index(id) == Some(p));
            assert forall|i: int| #[trigger] self.holds_part(id, i) implies self.part_data(id, i)
                == Seq::new(self.part_width(i), |_k: int| 0u8) by {
                assert(self.archetype_index(id) == a);
                assert(self.chunk_index(id) == c);
                assert(self.slot_index(id) == slot);
                assert(self.cell_start(id, i) == o.byte_start(a as int, slot as int, i));
                assert(o.key_at(a as int) == *key);
                self.lemma_cell_in_chunk(id, i);
                assert forall|k: int| 0 <= k < self.part_width(i) implies #[trigger] self.part_data(id, i)[k] == 0u8 by {
                    assert(self.chunk_bytes()[c as int][o.byte_start(a as int, slot as int, i) + k] == o.src_byte(None, i, k));
                }
                assert(self.part_data(id, i) =~= Seq::new(self.part_width(i), |_k: int| 0u8));
            }
            assert(self.chunk_index(id) == c);
            assert(self.slot_index(id) == slot);
            assert(self.chunk_lens()[c as int] == self.chunks@.items[c as int].things@.len());
            let oo = *old(self);
            assert(mid.tv() == oo.tv());
            assert(mid.records() == oo.records());
            assert forall|d: int| 0 <= d < oo.chunks@.items.len() implies #[trigger] o.chunk_bytes()[d] == oo.chunk_bytes()[d] by {
                assert(o.chunks@.items[d].data@ == before_push.chunks@.items[d].data@);
            }
            assert forall|g: ThingId, pi: int|
                #![trigger self.part_data(g, pi)]
                oo.holds_part(g, pi) implies self.holds_part(g, pi) && self.part_data(g, pi) == oo.part_data(g, pi) by {
                assert(mid.things().contains_key(g));
                assert(g != id);
                let q = oo.record_index(g)->Some_0 as int;
                assert(self.record_index(g) == oo.record_index(g));
                assert(oo.record_ok(q));
                assert(oo.occ_ok(q));
                let rq = oo.records()[q];
                assert(self.records()[q] == rq);
                oo.lemma_cell_in_chunk(g, pi);
                assert(self.archtypes@.items[rq.archtype as int].offsets@ == oo.archtypes@.items[rq.archtype as int].offsets@);
                assert(self.archtypes@.items[rq.archtype as int].key == oo.archtypes@.items[rq.archtype as int].key);
                assert(self.things()[g] == oo.things()[g]);
                assert(self.chunk_bytes()[rq.chunk as int].len() == CHUNK_SIZE_BYTES) by {
                    assert(self.chunk_ok(rq.chunk as int));
                }
                if rq.chunk == c {
                    assert(rq.archtype == a);
                    assert(rq.slot < slot);
                    assert forall|k: int| 0 <= k < oo.part_width(pi) implies #[trigger] self.part_data(g, pi)[k] == oo.part_data(g, pi)[k] by {
                        let jj = oo.cell_start(g, pi) + k;
                        assert(jj == o.byte_start(a as int, rq.slot as int, pi) + k);
                        assert(!o.in_cell_upto(a as int, slot as int, jj, o.widths@.len() as int)) by {
                            if o.in_cell_upto(a as int, slot as int, jj, o.widths@.len() as int) {
                                let i2 = choose|i2: int|
                                    0 <= i2 < o.widths@.len() && i2 < o.widths@.len() && #[trigger] o.archtypes@.items[a as int].key.scalar_parts.has(i2)
                                        && o.byte_start(a as int, slot as int, i2) <= jj
                                        < o.byte_start(a as int, slot as int, i2) + o.widths@[i2];
                                o.lemma_cells_disjoint(a as int, rq.slot as int, pi, slot as int, i2);
                            }
                        }
                        assert(self.chunk_bytes()[c as int][jj] == o.chunk_bytes()[c as int][jj]);
                    }
                } else {
                    assert(self.chunk_bytes()[rq.chunk as int] == o.chunk_bytes()[rq.chunk as int]);
                }
                assert(self.part_data(g, pi) =~= oo.part_data(g, pi));
            }
        }
        Some(id)
    }

    /// Moving records between slots of chunks keeps `wf` and the things, as long as the
    /// handles, archetypes of records, and all tables stay.
    proof fn lemma_same_shape(&self, before: World)
        requires
            before.wf_core(),
            self.thing_table.wf(),
            self.archtype_table.wf(),
            self.chunk_table.wf(),
            self.things.wf(),
            self.archtypes.wf(),
            self.chunks.wf(),
            self.things@.map == before.things@.map,
            self.archtypes@.map == before.archtypes@.map,
            self.chunks@.map == before.chunks@.map,
            self.tv() == before.tv(),
            self.archtype_table@ == before.archtype_table@,
            self.chunk_table@ == before.chunk_table@,
            self.records().len() == before.records().len(),
            forall|q: int| 0 <= q < self.records().len() ==> (#[trigger] self.records()[q]).id == before.records()[q].id
                && self.records()[q].archtype == before.records()[q].archtype
                && self.records()[q].chunk == before.records()[q].chunk,
            self.archtypes@.items.len() == before.archtypes@.items.len(),
            forall|a: int| 0 <= a < self.archtypes@.items.len() ==> (#[trigger] self.archtypes@.items[a]).id
                == before.archtypes@.items[a].id && self.archtypes@.items[a].key == before.archtypes@.items[a].key
                && self.archtypes@.items[a].per_chunk == before.archtypes@.items[a].per_chunk
                && self.archtypes@.items[a].offsets@ == before.archtypes@.items[a].offsets@
                && self.archtypes@.items[a].chunks@ == before.archtypes@.items[a].chunks@,
            self.widths@ == before.widths@,
            self.chunks@.items.len() == before.chunks@.items.len(),
            forall|c: int| 0 <= c < self.chunks@.items.len() ==> (#[trigger] self.chunks@.items[c]).id
                == before.chunks@.items[c].id && self.chunks@.items[c].data@.len() == before.chunks@.items[c].data@.len()
                && self.chunks@.items[c].archtype == before.chunks@.items[c].archtype,
        ensures
            self.wf_core(),
            self.things() == before.things(),
            self.archetype_keys() == before.archetype_keys(),
    {
        self.lemma_lists_kept(before);
        assert forall|j: int| 0 <= j < MAX_THINGS - 1 implies #[trigger] self.slot_ok(j) by {
            assert(before.slot_ok(j));
            let v = self.tv().index_of(self.tv().stores[j]);
            if v < self.records().len() {
                assert(self.records()[v as int].id == before.records()[v as int].id);
            }
        }
        assert forall|q: int| 0 <= q < self.records().len() implies #[trigger] self.record_ok(q) by {
            assert(before.record_ok(q));
            assert(self.records()[q].id == before.records()[q].id);
        }
        assert forall|a: int| 0 <= a < self.archtypes@.items.len() implies #[trigger] self.archtype_ok(a) by {
            assert(before.archtype_ok(a));
            assert(self.archtypes@.items[a].id == before.archtypes@.items[a].id);
        }
        assert forall|c: int| 0 <= c < self.chunks@.items.len() implies #[trigger] self.chunk_ok(c) by {
            assert(before.chunk_ok(c));
            assert(self.chunks@.items[c].id == before.chunks@.items[c].id);
        }
        self.lemma_keys_kept(before);
        assert forall|g: ThingId| #[trigger] self.things().contains_key(g) implies self.things()[g]
            == before.things()[g] by {
            let v = self.record_index(g)->Some_0 as int;
            assert(self.records()[v].archtype == before.records()[v].archtype);
            assert(before.record_ok(v));
            assert(self.archtypes@.items[before.records()[v].archtype as int].key == before.archtypes@.items[before.records()[v].archtype as int].key);
        }
        assert(self.things() =~= before.things());
        assert forall|a: int| 0 <= a < self.archtypes@.items.len() implies self.archetype_keys()[a] == before.archetype_keys()[a] by {
            assert(self.archtypes@.items[a].key == before.archtypes@.items[a].key);
        }
        assert(self.archetype_keys() =~= before.archetype_keys());
    }

    /// Takes the record in position `p` out of its chunk, moving the chunk's last occupant into
    /// the freed slot. The record keeps its fields; no cell holds it afterwards.
    fn detach(&mut self, p: u32)
        requires
            old(self).wf(),
            p < old(self).records().len(),
        ensures
            final(self).wf_core(),
            final(self).layout_ok(p as int),
            final(self).things() == old(self).things(),
            final(self).archetype_keys() == old(self).archetype_keys(),
            final(self).thing_table == old(self).thing_table,
            final(self).archtype_table == old(self).archtype_table,
            final(self).chunk_table == old(self).chunk_table,
            final(self).archtypes == old(self).archtypes,
            final(self).widths@ == old(self).widths@,
            final(self).records().len() == old(self).records().len(),
            final(self).records()[p as int] == old(self).records()[p as int],
            forall|q: int| 0 <= q < final(self).records().len() ==> (#[trigger] final(self).records()[q]).id
                == old(self).records()[q].id && final(self).records()[q].archtype == old(self).records()[q].archtype
                && final(self).records()[q].chunk == old(self).records()[q].chunk,
            final(self).chunks@.items.len() == old(self).chunks@.items.len(),
            forall|c: int| 0 <= c < final(self).chunks@.items.len() ==> (#[trigger] final(self).chunks@.items[c]).id
                == old(self).chunks@.items[c].id && final(self).chunks@.items[c].archtype == old(self).chunks@.items[c].archtype,
            final(self).chunk_lens() == old(self).chunk_lens().update(
                old(self).records()[p as int].chunk as int,
                (old(self).chunk_lens()[old(self).records()[p as int].chunk as int] - 1) as nat,
            ),
            forall|c: int| 0 <= c < old(self).chunks@.items.len() && c != old(self).records()[p as int].chunk
                ==> #[trigger] final(self).chunk_bytes()[c] == old(self).chunk_bytes()[c],
            ({
                let r0 = old(self).records()[p as int];
                let n0 = old(self).chunk_lens()[r0.chunk as int];
                let ql = old(self).chunks@.items[r0.chunk as int].things@[n0 - 1];
                &&& r0.chunk < old(self).chunks@.items.len()
                &&& r0.slot < n0
                &&& forall|q: int| 0 <= q < final(self).records().len() ==> (#[trigger] final(self).records()[q]).slot
                    == if r0.slot < n0 - 1 && q == ql { r0.slot } else { old(self).records()[q].slot }
                &&& forall|j: int| 0 <= j < CHUNK_SIZE_BYTES
                    && !old(self).in_cell_upto(r0.archtype as int, r0.slot as int, j, old(self).widths@.len() as int)
                    ==> #[trigger] final(self).chunk_bytes()[r0.chunk as int][j] == old(self).chunk_bytes()[r0.chunk as int][j]
                &&& r0.slot < n0 - 1 ==> forall|i: int, k: int|
                    0 <= i < old(self).widths@.len() && old(self).archtypes@.items[r0.archtype as int].key.scalar_parts.has(i)
                        && 0 <= k < old(self).widths@[i] ==> #[trigger] final(self).chunk_bytes()[r0.chunk as int][old(self).byte_start(r0.archtype as int, r0.slot as int, i) + k]
                        == old(self).chunk_bytes()[r0.chunk as int][old(self).byte_start(r0.archtype as int, n0 - 1, i) + k]
            }),
    {
        let ghost o = *self;
        proof {
            assert(o.occ_ok(p as int));
            assert(o.chunk_lens()[o.records()[p as int].chunk as int] == o.chunks@.items[o.records()[p as int].chunk as int].things@.len());
        }
        let rec = *self.things.get(p as usize);
        let c = rec.chunk as usize;
        let s = rec.slot as usize;
        let ghost n = o.chunks@.items[c as int].things@.len();
        let ghost ql = o.chunks@.items[c as int].things@[n - 1];
        proof {
            assert(o.cell_ok(c as int, n - 1, -1));
        }
        let mut chunk = self.chunks.replace(c, Chunk { id: ChunkId(0), archtype: 0, things: Vec::new(), data: Vec::new() });
        chunk.things.swap_remove(s);
        if s < chunk.things.len() {
            let q = chunk.things[s] as usize;
            let mut moved = *self.things.get(q);
            moved.slot = s as u32;
            self.things.replace(q, moved);
        }
        self.chunks.replace(c, chunk);
        proof {
            self.lemma_same_shape(o);
            let nt = self.chunks@.items[c as int].things@;
            let ot = o.chunks@.items[c as int].things@;
            assert(nt =~= ot.update(s as int, ql).drop_last());
            assert forall|x: int| 0 <= x < self.records().len() && x != p implies #[trigger] self.occ_ok(x) by {
                assert(o.occ_ok(x));
                let rx = o.records()[x];
                if x == ql && s < n - 1 {
                } else if rx.chunk == c {
                    assert(rx.slot != s);
                    assert(o.cell_ok(c as int, rx.slot as int, -1));
                    assert(rx.slot != n - 1);
                }
            }
            assert forall|d: int, t: int|
                0 <= d < self.chunks@.items.len() && 0 <= t < self.chunks@.items[d].things@.len()
                    implies #[trigger] self.cell_ok(d, t, p as int) by {
                if d != c {
                    assert(o.cell_ok(d, t, -1));
                    let x = o.chunks@.items[d].things@[t];
                    assert(x != ql);
                } else if t == s {
                    assert(o.cell_ok(c as int, n - 1, -1));
                } else {
                    assert(o.cell_ok(d, t, -1));
                }
            }
            assert forall|d: int| 0 <= d < self.chunks@.items.len() implies #[trigger] self.room_ok(d) by {
                assert(o.room_ok(d));
            }
            assert(self.chunk_lens() =~= o.chunk_lens().update(c as int, (o.chunk_lens()[c as int] - 1) as nat));
            assert forall|d: int| 0 <= d < o.chunks@.items.len() implies #[trigger] self.chunk_bytes()[d] == o.chunk_bytes()[d] by {
                assert(self.chunks@.items[d].data@ == o.chunks@.items[d].data@);
            }
            assert(o.room_ok(c as int));
            assert(o.chunks@.items[c as int].archtype == rec.archtype);
        }
        let ghost b = *self;
        proof {
            assert forall|d: int| 0 <= d < o.chunks@.items.len() implies #[trigger] b.chunk_bytes()[d] == o.chunk_bytes()[d] by {
                assert(b.chunks@.items[d].data@ == o.chunks@.items[d].data@);
            }
        }
        if s < self.chunks.get(c).things.len() {
            let a0 = rec.archtype as usize;
            let last = self.chunks.get(c).things.len();
            self.fill_cell(a0, c, s, Some((a0, c, last)), Ghost(p as int));
            proof {
                assert forall|i: int, k: int|
                    0 <= i < o.widths@.len() && o.archtypes@.items[a0 as int].key.scalar_parts.has(i)
                        && 0 <= k < o.widths@[i] implies #[trigger] self.chunk_bytes()[c as int][o.byte_start(a0 as int, s as int, i) + k]
                        == o.chunk_bytes()[c as int][o.byte_start(a0 as int, n - 1, i) + k] by {
                    assert(last == n - 1);
                    assert(o.room_ok(c as int));
                    o.lemma_byte_range(a0 as int, n - 1, i);
                    assert(b.byte_start(a0 as int, s as int, i) == o.byte_start(a0 as int, s as int, i));
                    assert(b.byte_start(a0 as int, last as int, i) == o.byte_start(a0 as int, n - 1, i));
                    assert(self.chunk_bytes()[c as int][b.byte_start(a0 as int, s as int, i) + k] == b.src_byte(Some((a0, c, last)), i, k));
                    assert(b.src_byte(Some((a0, c, last)), i, k) == b.chunk_bytes()[c as int][b.byte_start(a0 as int, last as int, i) + k]);
                }
                assert forall|d: int| 0 <= d < o.chunks@.items.len() && d != c implies #[trigger] self.chunk_bytes()[d] == o.chunk_bytes()[d] by {
                    assert(b.chunk_bytes()[d] == o.chunk_bytes()[d]);
                }
            }
        }
    }

    /// The slot of a record's handle holds that record's position.
    proof fn lemma_record_slot(&self, q: int)
        requires
            self.wf_core(),
            0 <= q < self.records().len(),
        ensures
            self.tv().index_of(self.records()[q].id.0) < MAX_THINGS - 1,
            self.tv().index_of(self.tv().stores[self.tv().index_of(self.records()[q].id.0) as int]) == q,
            self.tv().generation_of(self.tv().stores[self.tv().index_of(self.records()[q].id.0) as int])
                == self.tv().generation_of(self.records()[q].id.0),
    {
        self.thing_table.lemma_view_wf();
        assert(self.record_ok(q));
    }

    /// Destroys the thing `id` names and returns `true`; `false`, changing nothing, when it
    /// names none. Its chunk slot is taken by the chunk's last occupant, bytes and all, so the
    /// chunk stays dense; its handle stops resolving before its index goes back to the free
    /// list. Every other thing keeps its part bytes.
    #[verifier::rlimit(40)]
    pub fn destroy_thing(&mut self, id: ThingId) -> (r: bool)
        requires
            old(self).wf(),
        ensures
            final(self).wf(),
            r == old(self).things().contains_key(id),
            final(self).things() == old(self).things().remove(id),
            final(self).archetype_keys() == old(self).archetype_keys(),
            final(self).chunk_ids() == old(self).chunk_ids(),
            r ==> forall|g: ThingId, i: int|
                #![trigger final(self).part_data(g, i)]
                g != id && old(self).holds_part(g, i) ==> final(self).holds_part(g, i) && final(self).part_data(g, i)
                    == old(self).part_data(g, i),
            final(self).chunk_lens() == if r {
                old(self).chunk_lens().update(
                    old(self).chunk_index(id),
                    (old(self).chunk_lens()[old(self).chunk_index(id)] - 1) as nat,
                )
            } else {
                old(self).chunk_lens()
            },
            final(self).spare_things() == old(self).spare_things() + (if r { 1int } else { 0int }),
            r ==> final(self).misses(id),
            forall|g: ThingId| #[trigger] old(self).misses(g) && old(self).handle_slot(g) != old(self).handle_slot(id)
                ==> final(self).misses(g),
    {
        let p = match self.thing_table.get(id.0) {
            Some(p) => p,
            None => {
                proof {
                    assert(old(self).things() =~= old(self).things().remove(id));
                }
                return false;
            },
        };
        if p as usize >= self.things.len() {
            proof {
                assert(old(self).things() =~= old(self).things().remove(id));
            }
            return false;
        }
        self.detach(p);
        let ghost d = *self;
        let ghost t0 = self.tv();
        let ghost i = t0.index_of(id.0);
        proof {
            self.thing_table.lemma_view_wf();
            self.lemma_record_slot(p as int);
            lemma_pack_split(id.0, t0.mask());
            lemma_pack_split(t0.stores[i as int], t0.mask());
            assert(d.slot_ok(i as int));
            assert(d.records()[p as int].id == id);
            assert(d.record_ok(p as int));
        }
        self.thing_table.set(id.0, (MAX_THINGS - 1) as u32);
        self.thing_table.invalidate(id.0);
        self.thing_table.release_handle(id.0);
        let ghost t3 = self.tv();
        let last = self.things.len() - 1;
        self.things.swap_remove(p as usize);
        if (p as usize) < last {
            let moved = *self.things.get(p as usize);
            proof {
                d.lemma_record_slot(last as int);
                assert(d.records()[last as int] == moved);
            }
            self.thing_table.set(moved.id.0, p);
            let c = moved.chunk as usize;
            let s = moved.slot as usize;
            if c < self.chunks.len() {
                let mut chunk = self.chunks.replace(c, Chunk { id: ChunkId(0), archtype: 0, things: Vec::new(), data: Vec::new() });
                if s < chunk.things.len() && chunk.things[s] as usize == last {
                    chunk.things.set(s, p);
                }
                self.chunks.replace(c, chunk);
            }
        }
        proof {
            let t4 = self.tv();
            let m = t0.mask();
            let g_i = t0.generation_of(id.0);
            lemma_generation_bits(t0.stores[i as int], m);
            lemma_pack_unpack(no_record(), g_i, m);
            crate::raw_table::lemma_bump(pack(no_record(), g_i), t0.n);
            assert(t4.index_of(t4.stores[i as int]) == no_record());
            assert(t4.generation_of(t4.stores[i as int]) != g_i);
            let j = if p < last { t0.index_of(d.records()[last as int].id.0) } else { i };
            if p < last {
                d.lemma_record_slot(last as int);
                assert(j != i);
                let g_j = t0.generation_of(t0.stores[j as int]);
                lemma_generation_bits(t0.stores[j as int], m);
                lemma_pack_unpack(p, g_j, m);
                lemma_pack_split(d.records()[last as int].id.0, m);
                assert(t4.index_of(t4.stores[j as int]) == p);
                assert(t4.generation_of(t4.stores[j as int]) == g_j);
            }
            assert(forall|k: int| 0 <= k < MAX_THINGS - 1 && k != i && k != j ==> t4.stores[k] == t0.stores[k]);
            assert(t4.free == t0.free.push(i));
            // Thing-table slots.
            assert forall|k: int| 0 <= k < MAX_THINGS - 1 implies #[trigger] self.slot_ok(k) by {
                assert(d.slot_ok(k));
                if k != i && k != j {
                    let v = t0.index_of(t0.stores[k]);
                    if v != no_record() {
                        if v == p {
                            lemma_pack_split(d.records()[p as int].id.0, m);
                            lemma_generation_bits(t0.stores[k], m);
                            lemma_pack_unpack(k as u32, t0.generation_of(t0.stores[k]), m);
                        }
                        if v == last {
                            d.lemma_record_slot(last as int);
                            lemma_generation_bits(t0.stores[k], m);
                            lemma_pack_unpack(k as u32, t0.generation_of(t0.stores[k]), m);
                        }
                        assert(self.records()[v as int] == d.records()[v as int]);
                    }
                } else if k == j && p < last {
                    lemma_pack_split(d.records()[last as int].id.0, m);
                }
            }
            // Records.
            assert forall|q: int| 0 <= q < self.records().len() implies #[trigger] self.record_ok(q) by {
                let idq = self.records()[q].id.0;
                if q == p {
                    d.lemma_record_slot(last as int);
                    assert(d.record_ok(last as int));
                    assert(!t0.free.contains(j));
                    assert(!t4.free.contains(j));
                } else {
                    assert(self.records()[q] == d.records()[q]);
                    d.lemma_record_slot(q);
                    let kq = t0.index_of(idq);
                    assert(kq != i);
                    assert(kq != j);
                    assert(d.record_ok(q));
                    assert(!t4.free.contains(kq));
                }
            }
            assert forall|a: int| 0 <= a < self.archtypes@.items.len() implies #[trigger] self.archtype_ok(a) by {
                assert(d.archtype_ok(a));
            }
            assert forall|c: int| 0 <= c < self.chunks@.items.len() implies #[trigger] self.chunk_ok(c) by {
                assert(d.chunk_ok(c));
            }
            assert(self.archetype_keys() =~= d.archetype_keys());
            // Things.
            assert forall|g: ThingId| true implies (#[trigger] self.things().contains_key(g)) == (g != id
                && d.things().contains_key(g)) && (self.things().contains_key(g) ==> self.things()[g]
                == d.things()[g] && self.records()[self.record_index(g)->Some_0 as int] == d.records()[d.record_index(g)->Some_0 as int]) by {
                let k = t0.index_of(g.0);
                lemma_pack_split(g.0, m);
                if k == i {
                    if g != id {
                        assert(t0.generation_of(g.0) != g_i);
                    }
                } else if k == j && p < last {
                    let moved_id = d.records()[last as int].id.0;
                    lemma_pack_split(moved_id, m);
                    if t0.generation_of(g.0) == t0.generation_of(t0.stores[j as int]) {
                        assert(g.0 == moved_id);
                        assert(self.record_index(g) == Some(p));
                        assert(d.record_index(g) == Some(last as u32));
                    }
                } else if k < MAX_THINGS - 1 {
                    assert(d.slot_ok(k as int));
                    assert(t4.lookup(g.0) == t0.lookup(g.0));
                    if d.record_index(g) is Some {
                        let v = d.record_index(g)->Some_0 as int;
                        if v == p {
                            d.lemma_record_slot(p as int);
                        }
                        if v == last {
                            d.lemma_record_slot(last as int);
                        }
                        assert(self.records()[v] == d.records()[v]);
                    }
                }
            }
            assert(self.things() =~= d.things().remove(id));
            self.lemma_keys_kept(d);
            // Cells: only the cell of the record that moved into position `p` changed.
            let mc = d.records()[last as int].chunk as int;
            let ms = d.records()[last as int].slot as int;
            if p < last {
                assert(d.occ_ok(last as int));
            }
            assert forall|x: int| 0 <= x < self.records().len() implies #[trigger] self.occ_ok(x) by {
                if x != p {
                    assert(d.occ_ok(x));
                    assert(self.records()[x] == d.records()[x]);
                    if p < last {
                        assert(d.chunks@.items[mc].things@[ms] == last);
                    }
                }
            }
            assert forall|c: int, t: int|
                0 <= c < self.chunks@.items.len() && 0 <= t < self.chunks@.items[c].things@.len()
                    implies #[trigger] self.cell_ok(c, t, -1) by {
                if !(p < last && c == mc && t == ms) {
                    assert(d.cell_ok(c, t, p as int));
                    let v = d.chunks@.items[c].things@[t];
                    if p < last && v == last {
                        assert(d.occ_ok(last as int));
                    }
                    assert(self.records()[v as int] == d.records()[v as int]);
                }
            }
            assert forall|c: int| 0 <= c < self.chunks@.items.len() implies #[trigger] self.room_ok(c) by {
                assert(d.room_ok(c));
            }
            // Part bytes of the other things.
            let o = *old(self);
            assert(self.chunk_bytes() =~= d.chunk_bytes()) by {
                assert forall|c: int| 0 <= c < self.chunks@.items.len() implies self.chunks@.items[c].data@ == d.chunks@.items[c].data@ by {
                }
            }
            let r0 = o.records()[p as int];
            let n0 = o.chunk_lens()[r0.chunk as int];
            let ql = o.chunks@.items[r0.chunk as int].things@[n0 - 1];
            assert(o.occ_ok(p as int));
            assert(o.record_ok(p as int));
            assert(o.room_ok(r0.chunk as int));
            assert forall|g: ThingId, pi: int|
                #![trigger self.part_data(g, pi)]
                g != id && o.holds_part(g, pi) implies self.holds_part(g, pi) && self.part_data(g, pi) == o.part_data(g, pi) by {
                assert(d.things().contains_key(g));
                assert(self.things().contains_key(g));
                let q = o.record_index(g)->Some_0 as int;
                assert(d.record_index(g) == o.record_index(g));
                assert(o.record_ok(q));
                assert(o.occ_ok(q));
                o.lemma_cell_in_chunk(g, pi);
                let rq = o.records()[q];
                assert(self.part_data(g, pi) == d.part_data(g, pi));
                if rq.chunk == r0.chunk {
                    assert(rq.archtype == r0.archtype);
                    if q == ql && r0.slot < n0 - 1 {
                        assert(o.cell_ok(r0.chunk as int, n0 - 1, -1));
                        assert(rq.slot == n0 - 1);
                        assert(d.records()[q].slot == r0.slot);
                        assert(d.records()[q].chunk == rq.chunk && d.records()[q].archtype == rq.archtype);
                        o.lemma_byte_range(r0.archtype as int, r0.slot as int, pi);
                        o.lemma_byte_range(r0.archtype as int, n0 - 1, pi);
                        assert(d.chunk_bytes()[r0.chunk as int].len() == CHUNK_SIZE_BYTES) by {
                            assert(d.chunk_ok(r0.chunk as int));
                        }
                        assert forall|k: int| 0 <= k < o.part_width(pi) implies #[trigger] d.part_data(g, pi)[k] == o.part_data(g, pi)[k] by {
                            assert(d.chunk_bytes()[r0.chunk as int][o.byte_start(r0.archtype as int, r0.slot as int, pi) + k]
                                == o.chunk_bytes()[r0.chunk as int][o.byte_start(r0.archtype as int, n0 - 1, pi) + k]);
                        }
                        assert(d.part_data(g, pi) =~= o.part_data(g, pi));
                    } else {
                        assert(d.records()[q] == rq);
                        if rq.slot == r0.slot {
                            assert(o.cell_ok(r0.chunk as int, r0.slot as int, -1));
                            lemma_pack_split(g.0, m);
                            assert(o.slot_ok(t0.index_of(g.0) as int));
                        }
                        o.lemma_cells_disjoint(r0.archtype as int, rq.slot as int, pi, r0.slot as int, pi);
                        assert forall|jj: int| o.cell_start(g, pi) <= jj < o.cell_start(g, pi) + o.part_width(pi)
                            implies !#[trigger] o.in_cell_upto(r0.archtype as int, r0.slot as int, jj, o.widths@.len() as int) by {
                            if o.in_cell_upto(r0.archtype as int, r0.slot as int, jj, o.widths@.len() as int) {
                                let i2 = choose|i2: int|
                                    0 <= i2 < o.widths@.len() && i2 < o.widths@.len() && #[trigger] o.archtypes@.items[r0.archtype as int].key.scalar_parts.has(i2)
                                        && o.byte_start(r0.archtype as int, r0.slot as int, i2) <= jj
                                        < o.byte_start(r0.archtype as int, r0.slot as int, i2) + o.widths@[i2];
                                o.lemma_cells_disjoint(r0.archtype as int, rq.slot as int, pi, r0.slot as int, i2);
                            }
                        }
                        assert(d.chunk_bytes()[r0.chunk as int].len() == CHUNK_SIZE_BYTES) by {
                            assert(d.chunk_ok(r0.chunk as int));
                        }
                        assert forall|k: int| 0 <= k < o.part_width(pi) implies #[trigger] d.part_data(g, pi)[k] == o.part_data(g, pi)[k] by {
                            let jj = o.cell_start(g, pi) + k;
                            assert(!o.in_cell_upto(r0.archtype as int, r0.slot as int, jj, o.widths@.len() as int));
                            assert(d.chunk_bytes()[r0.chunk as int][jj] == o.chunk_bytes()[r0.chunk as int][jj]);
                        }
                        assert(d.part_data(g, pi) =~= o.part_data(g, pi));
                    }
                } else {
                    assert(o.cell_ok(r0.chunk as int, n0 - 1, -1));
                    assert(q != ql);
                    assert(d.records()[q] == rq);
                    assert(d.chunk_bytes()[rq.chunk as int] == o.chunk_bytes()[rq.chunk as int]);
                    assert(d.part_data(g, pi) =~= o.part_data(g, pi));
                }
            }
        }
        true
    }

    /// Pointing one record at another archetype keeps `wf` and changes only that thing's key.
    proof fn lemma_retag(&self, before: World, p: int)
        requires
            before.wf_core(),
            0 <= p < before.records().len(),
            self.thing_table == before.thing_table,
            self.archtype_table == before.archtype_table,
            self.chunk_table == before.chunk_table,
            self.archtypes == before.archtypes,
            self.chunks == before.chunks,
            self.widths@ == before.widths@,
            self.things.wf(),
            self.things@.map == before.things@.map,
            self.records().len() == before.records().len(),
            self.records()[p].id == before.records()[p].id,
            self.records()[p].archtype < self.archtypes@.items.len(),
            self.records()[p].chunk < self.chunks@.items.len(),
            forall|q: int| 0 <= q < self.records().len() && q != p ==> #[trigger] self.records()[q] == before.records()[q],
        ensures
            self.wf_core(),
            self.things() == before.things().insert(
                self.records()[p].id,
                self.key_at(self.records()[p].archtype as int),
            ),
            self.archetype_keys() == before.archetype_keys(),
    {
        let id = self.records()[p].id;
        assert forall|j: int| 0 <= j < MAX_THINGS - 1 implies #[trigger] self.slot_ok(j) by {
            assert(before.slot_ok(j));
        }
        assert forall|q: int| 0 <= q < self.records().len() implies #[trigger] self.record_ok(q) by {
            assert(before.record_ok(q));
        }
        assert forall|a: int| 0 <= a < self.archtypes@.items.len() implies #[trigger] self.archtype_ok(a) by {
            assert(before.archtype_ok(a));
        }
        assert forall|c: int| 0 <= c < self.chunks@.items.len() implies #[trigger] self.chunk_ok(c) by {
            assert(before.chunk_ok(c));
        }
        before.lemma_record_slot(p);
        self.lemma_keys_kept(before);
        assert forall|g: ThingId| true implies (#[trigger] self.things().contains_key(g)) == (g == id
            || before.things().contains_key(g)) && (self.things().contains_key(g) ==> self.things()[g]
            == before.things().insert(id, self.key_at(self.records()[p].archtype as int))[g]) by {
            let m = before.tv().mask();
            before.thing_table.lemma_view_wf();
            assert(before.record_ok(p));
            if self.record_index(g) == Some(p as u32) {
                let k = before.tv().index_of(g.0);
                assert(before.slot_ok(k as int));
                lemma_pack_split(g.0, m);
                lemma_pack_split(id.0, m);
                assert(g == id);
            }
        }
        assert(self.things() =~= before.things().insert(id, self.key_at(self.records()[p].archtype as int)));
    }

    /// Key of the archetype of the thing `id` names, if it names one.
    pub fn key_of(&self, id: ThingId) -> (r: Option<ArchtypeKey>)
        requires
            self.wf(),
        ensures
            r == (if self.things().contains_key(id) {
                Some(self.things()[id])
            } else {
                None
            }),
    {
        match self.thing_table.get(id.0) {
            Some(p) => {
                if (p as usize) < self.things.len() {
                    let a = self.things.get(p as usize).archtype;
                    proof {
                        assert(self.record_ok(p as int));
                    }
                    Some(self.archtypes.get(a as usize).key)
                } else {
                    None
                }
            },
            None => None,
        }
    }

    /// Moves the thing `id` names to the archetype of `key`; `false`, changing no thing, when
    /// `id` names none or a needed archetype or chunk handle is not to be had.
    #[verifier::rlimit(100)]
    fn relocate(&mut self, id: ThingId, key: &ArchtypeKey) -> (r: bool)
        requires
            old(self).wf(),
        ensures
            final(self).wf(),
            r ==> old(self).things().contains_key(id) && final(self).things() == old(self).things().insert(id, *key),
            !r ==> final(self).things() == old(self).things(),
            old(self).things().contains_key(id) && old(self).spare_archetypes() > 0 && old(self).spare_chunks() > 0
                && old(self).fits_key(*key) ==> r,
            final(self).archetype_keys() == old(self).archetype_keys() || final(self).archetype_keys()
                == old(self).archetype_keys().push(*key),
            r ==> forall|i: int| #[trigger] final(self).holds_part(id, i) ==> final(self).part_data(id, i)
                == if old(self).holds_part(id, i) {
                    old(self).part_data(id, i)
                } else {
                    Seq::new(final(self).part_width(i), |_k: int| 0u8)
                },
            r ==> forall|g: ThingId, i: int|
                #![trigger old(self).holds_part(g, i)]
                g != id && old(self).holds_part(g, i) ==> final(self).holds_part(g, i) && final(self).part_data(g, i)
                    == old(self).part_data(g, i),
            final(self).tv() == old(self).tv(),
            r ==> if old(self).things()[id] == *key {
                &&& final(self).chunk_ids() == old(self).chunk_ids()
                &&& final(self).chunk_archetypes() == old(self).chunk_archetypes()
                &&& final(self).chunk_lens() == old(self).chunk_lens()
            } else {
                let c0 = old(self).chunk_index(id);
                let a = final(self).archetype_index(id);
                let c = final(self).chunk_index(id);
                let lens = old(self).chunk_lens().update(c0, (old(self).chunk_lens()[c0] - 1) as nat);
                if exists|c2: int| #[trigger] old(self).room_for(a, c2) {
                    &&& old(self).room_for(a, c)
                    &&& forall|c2: int| #[trigger] old(self).room_for(a, c2) ==> c2 <= c
                    &&& final(self).chunk_ids() == old(self).chunk_ids()
                    &&& final(self).chunk_archetypes() == old(self).chunk_archetypes()
                    &&& final(self).chunk_lens() == lens.update(c, lens[c] + 1)
                } else {
                    &&& c == old(self).chunk_ids().len()
                    &&& final(self).chunk_ids().len() == c + 1
                    &&& final(self).chunk_ids().take(c) == old(self).chunk_ids()
                    &&& final(self).chunk_archetypes() == old(self).chunk_archetypes().push(a)
                    &&& final(self).chunk_lens() == lens.push(1)
                }
            },
    {
        let p = match self.thing_table.get(id.0) {
            Some(p) => p,
            None => return false,
        };
        if p as usize >= self.things.len() {
            return false;
        }
        proof {
            self.thing_table.lemma_view_wf();
            self.lemma_record_slot(p as int);
            let t0 = self.tv();
            lemma_pack_split(id.0, t0.mask());
            lemma_pack_split(t0.stores[t0.index_of(id.0) as int], t0.mask());
            assert(self.slot_ok(t0.index_of(id.0) as int));
            assert(self.records()[p as int].id == id);
        }
        let a = match self.find_or_add_archetype(key) {
            Some(a) => a,
            None => {
                proof {
                    self.lemma_things_same(*old(self));
                }
                return false;
            },
        };
        proof {
            self.lemma_things_same(*old(self));
        }
        if a == self.things.get(p as usize).archtype {
            proof {
                let o = *old(self);
                assert(self.record_index(id) == Some(p));
                assert(o.record_index(id) == Some(p));
                assert(o.record_ok(p as int));
                assert(self.things() =~= o.things().insert(id, *key));
                assert forall|i: int| #[trigger] self.holds_part(id, i) implies self.part_data(id, i) == o.part_data(id, i) by {
                    let a0 = o.records()[p as int].archtype as int;
                    assert(self.archtypes@.items[a0] == o.archtypes@.items[a0]);
                    assert(self.chunk_bytes() =~= o.chunk_bytes());
                }
                assert(self.chunk_ids() =~= o.chunk_ids());
                assert(self.chunk_archetypes() =~= o.chunk_archetypes());
                assert(self.chunk_lens() =~= o.chunk_lens());
                assert(self.chunk_bytes() =~= o.chunk_bytes());
                assert forall|g: ThingId, i: int|
                    #![trigger self.part_data(g, i)]
                    g != id && o.holds_part(g, i) implies self.holds_part(g, i) && self.part_data(g, i) == o.part_data(g, i) by {
                    let q = o.record_index(g)->Some_0 as int;
                    assert(o.record_ok(q));
                    let ag = o.records()[q].archtype as int;
                    assert(self.archtypes@.items[ag] == o.archtypes@.items[ag]);
                }
            }
            return true;
        }
        let ghost s1 = *self;
        proof {
            assert forall|c2: int| #[trigger] s1.room_for(a as int, c2) == old(self).room_for(a as int, c2) by {
                if 0 <= c2 < old(self).chunks@.items.len() {
                    assert(old(self).room_ok(c2));
                }
            }
        }
        let placed = self.prepare_chunk(a, Ghost(-1));
        proof {
            self.lemma_things_same(*old(self));
        }
        let c = match placed {
            Some(c) => c,
            None => return false,
        };
        proof {
            assert(self.records()[p as int].id == id);
            assert(self.occ_ok(p as int));
            assert(self.room_ok(self.records()[p as int].chunk as int));
        }
        let ghost s2 = *self;
        let old_rec = *self.things.get(p as usize);
        let dst_s = self.chunks.get(c as usize).things.len();
        self.fill_cell(
            a as usize,
            c as usize,
            dst_s,
            Some((old_rec.archtype as usize, old_rec.chunk as usize, old_rec.slot as usize)),
            Ghost(-1),
        );
        let ghost pre = *self;
        self.detach(p);
        proof {
            assert(self.key_at(a as int) == *key);
            assert(self.chunk_lens()[c as int] == self.chunks@.items[c as int].things@.len());
            assert(pre.chunk_lens()[c as int] == pre.chunks@.items[c as int].things@.len());
            let c0 = pre.records()[p as int].chunk as int;
            assert(pre.occ_ok(p as int));
            assert(pre.chunk_lens().len() == pre.chunks@.items.len());
            if c0 == c {
                assert(self.chunk_lens()[c as int] == (pre.chunk_lens()[c as int] - 1) as nat);
            } else {
                assert(self.chunk_lens()[c as int] == pre.chunk_lens()[c as int]);
            }
            assert(self.chunks@.items[c as int].things@.len() < self.archtypes@.items[a as int].per_chunk);
        }
        let ghost e = *self;
        let mut chunk = self.chunks.replace(c as usize, Chunk { id: ChunkId(0), archtype: 0, things: Vec::new(), data: Vec::new() });
        let slot = chunk.things.len() as u32;
        chunk.things.push(p);
        self.chunks.replace(c as usize, chunk);
        let ghost e2 = *self;
        proof {
            assert forall|q: int| 0 <= q < self.chunks@.items.len() implies #[trigger] self.chunk_ok(q) by {
                assert(e.chunk_ok(q));
            }
            assert forall|b: int| 0 <= b < self.archtypes@.items.len() implies #[trigger] self.archtype_ok(b) by {
                assert(e.archtype_ok(b));
            }
            assert forall|q: int| 0 <= q < self.records().len() implies #[trigger] self.record_ok(q) by {
                assert(e.record_ok(q));
            }
            assert forall|j: int| 0 <= j < MAX_THINGS - 1 implies #[trigger] self.slot_ok(j) by {
                assert(e.slot_ok(j));
            }
            self.lemma_keys_kept(e);
        }
        let mut rec = *self.things.get(p as usize);
        rec.archtype = a;
        rec.chunk = c;
        rec.slot = slot;
        self.things.replace(p as usize, rec);
        proof {
            e2.lemma_things_same(e);
            self.lemma_retag(e2, p as int);
            assert(self.things() == old(self).things().insert(id, *key));
            assert forall|x: int| 0 <= x < self.records().len() implies #[trigger] self.occ_ok(x) by {
                if x != p {
                    assert(e.occ_ok(x));
                }
            }
            assert forall|dd: int, t: int|
                0 <= dd < self.chunks@.items.len() && 0 <= t < self.chunks@.items[dd].things@.len()
                    implies #[trigger] self.cell_ok(dd, t, -1) by {
                if !(dd == c && t == slot) {
                    assert(e.cell_ok(dd, t, p as int));
                }
            }
            assert forall|dd: int| 0 <= dd < self.chunks@.items.len() implies #[trigger] self.room_ok(dd) by {
                assert(e.room_ok(dd));
            }
            // Chunk occupancy.
            {
                let oo0 = *old(self);
                let c0 = old_rec.chunk as int;
                assert(oo0.record_index(id) == Some(p));
                assert(self.record_index(id) == Some(p));
                assert(self.archetype_index(id) == a as int);
                assert(self.chunk_index(id) == c as int);
                assert(oo0.chunk_index(id) == c0);
                assert(oo0.key_at(old_rec.archtype as int) != *key) by {
                    assert(s1.key_at(old_rec.archtype as int) == oo0.key_at(old_rec.archtype as int));
                }
                assert(pre.chunk_ids() =~= s2.chunk_ids());
                assert(pre.chunk_lens() =~= s2.chunk_lens());
                assert forall|d: int| 0 <= d < self.chunks@.items.len() implies #[trigger] self.chunks@.items[d].id == s2.chunks@.items[d].id
                    && self.chunks@.items[d].archtype == s2.chunks@.items[d].archtype by {
                    assert(e.chunks@.items[d].id == pre.chunks@.items[d].id);
                }
                assert(self.chunk_ids() =~= s2.chunk_ids());
                assert(self.chunk_archetypes() =~= s2.chunk_archetypes());
                let l1 = s2.chunk_lens().update(c0, (s2.chunk_lens()[c0] - 1) as nat);
                assert(e.chunk_lens() == l1);
                assert(self.chunk_lens() =~= l1.update(c as int, l1[c as int] + 1));
                if exists|c2: int| #[trigger] s1.room_for(a as int, c2) {
                    assert(s2 == s1);
                    assert(s1.chunks@ == oo0.chunks@);
                    assert(s2.chunk_ids() =~= oo0.chunk_ids());
                    assert(s2.chunk_archetypes() =~= oo0.chunk_archetypes());
                    assert(s2.chunk_lens() =~= oo0.chunk_lens());
                    assert(oo0.room_for(a as int, c as int));
                    assert forall|c2: int| #[trigger] oo0.room_for(a as int, c2) implies c2 <= c by {
                        assert(s1.room_for(a as int, c2));
                    }
                } else {
                    assert(!exists|c2: int| #[trigger] oo0.room_for(a as int, c2)) by {
                        if exists|c2: int| #[trigger] oo0.room_for(a as int, c2) {
                            let c2 = choose|c2: int| #[trigger] oo0.room_for(a as int, c2);
                            assert(s1.room_for(a as int, c2));
                        }
                    }
                    let n0 = oo0.chunks@.items.len();
                    assert(s1.chunks@ == oo0.chunks@);
                    assert(s2.chunk_ids().take(n0 as int) =~= oo0.chunk_ids());
                    assert(s2.chunk_archetypes() =~= oo0.chunk_archetypes().push(a as int));
                    assert(s2.chunk_lens() =~= oo0.chunk_lens().push(0));
                    let ol = oo0.chunk_lens().update(c0, (oo0.chunk_lens()[c0] - 1) as nat);
                    assert(l1 =~= ol.push(0));
                    assert(self.chunk_lens() =~= ol.push(1));
                    assert(self.chunk_ids().take(n0 as int) =~= oo0.chunk_ids());
                }
            }
            // The moved thing's bytes.
            let o = *old(self);
            let a0 = old_rec.archtype as int;
            let c0 = old_rec.chunk as int;
            let s0 = old_rec.slot as int;
            assert(o.record_index(id) == Some(p));
            assert(o.record_ok(p as int));
            assert(o.occ_ok(p as int));
            assert(s2.records() == o.records());
            assert(s2.chunks@.items[c0] == o.chunks@.items[c0]);
            assert(s2.chunk_bytes()[c0] == o.chunk_bytes()[c0]);
            assert(s2.archtypes@.items[a0].offsets@ == o.archtypes@.items[a0].offsets@);
            assert(s2.archtypes@.items[a0].key == o.archtypes@.items[a0].key);
            assert(s2.occ_ok(p as int));
            assert(c0 != c);
            assert(self.record_index(id) == Some(p));
            assert(self.chunk_bytes()[c as int] == e.chunk_bytes()[c as int]);
            assert(e.chunk_bytes()[c as int] == pre.chunk_bytes()[c as int]);
            assert forall|i: int| #[trigger] self.holds_part(id, i) implies self.part_data(id, i) == if o.holds_part(id, i) {
                o.part_data(id, i)
            } else {
                Seq::new(self.part_width(i), |_k: int| 0u8)
            } by {
                self.lemma_cell_in_chunk(id, i);
                assert(self.archetype_index(id) == a);
                assert(self.cell_start(id, i) == s2.byte_start(a as int, dst_s as int, i));
                assert(s2.key_at(a as int) == *key);
                if o.holds_part(id, i) {
                    o.lemma_cell_in_chunk(id, i);
                    assert(o.cell_start(id, i) == s2.byte_start(a0, s0, i));
                    assert forall|k: int| 0 <= k < self.part_width(i) implies #[trigger] self.part_data(id, i)[k] == o.part_data(id, i)[k] by {
                        assert(pre.chunk_bytes()[c as int][s2.byte_start(a as int, dst_s as int, i) + k] == s2.src_byte(
                            Some((old_rec.archtype as usize, old_rec.chunk as usize, old_rec.slot as usize)), i, k));
                    }
                    assert(self.part_data(id, i) =~= o.part_data(id, i));
                } else {
                    assert forall|k: int| 0 <= k < self.part_width(i) implies #[trigger] self.part_data(id, i)[k] == 0u8 by {
                        assert(pre.chunk_bytes()[c as int][s2.byte_start(a as int, dst_s as int, i) + k] == s2.src_byte(
                            Some((old_rec.archtype as usize, old_rec.chunk as usize, old_rec.slot as usize)), i, k));
                    }
                    assert(self.part_data(id, i) =~= Seq::new(self.part_width(i), |_k: int| 0u8));
                }
            }
            // The other things keep their bytes.
            let n0 = o.chunk_lens()[c0];
            let ql = o.chunks@.items[c0].things@[n0 - 1];
            assert(o.room_ok(c0));
            assert(o.cell_ok(c0, n0 - 1, -1));
            assert(o.chunk_lens()[c0] == o.chunks@.items[c0].things@.len());
            assert(s2.chunk_lens()[c0] == o.chunk_lens()[c0]);
            assert(self.chunk_bytes() =~= e.chunk_bytes()) by {
                assert forall|cc: int| 0 <= cc < self.chunks@.items.len() implies self.chunks@.items[cc].data@ == e.chunks@.items[cc].data@ by {
                }
            }
            assert forall|g: ThingId, pi: int|
                #![trigger self.part_data(g, pi)]
                g != id && o.holds_part(g, pi) implies self.holds_part(g, pi) && self.part_data(g, pi) == o.part_data(g, pi) by {
                let q = o.record_index(g)->Some_0 as int;
                assert(self.record_index(g) == o.record_index(g));
                assert(o.record_ok(q));
                assert(o.occ_ok(q));
                if q == p {
                    o.thing_table.lemma_view_wf();
                    lemma_pack_split(g.0, o.tv().mask());
                    assert(o.slot_ok(o.tv().index_of(g.0) as int));
                }
                assert(q != p);
                let rq = o.records()[q];
                o.lemma_cell_in_chunk(g, pi);
                let ag = rq.archtype as int;
                assert(self.archtypes@.items[ag].offsets@ == o.archtypes@.items[ag].offsets@);
                assert(self.archtypes@.items[ag].key == o.archtypes@.items[ag].key);
                assert(self.things()[g] == o.things()[g]);
                assert(s2.records()[q] == rq);
                assert(s2.chunk_bytes()[rq.chunk as int] == o.chunk_bytes()[rq.chunk as int]);
                assert(self.records()[q] == e.records()[q]);
                // Bytes of chunk `rq.chunk` before the detach equal the original ones in the cell.
                assert(self.chunk_bytes()[rq.chunk as int].len() == CHUNK_SIZE_BYTES) by {
                    assert(self.chunk_ok(rq.chunk as int));
                }
                if rq.chunk as int == c {
                    assert(rq.archtype == a);
                    assert(o.cell_ok(c0, n0 - 1, -1));
                    assert(q != ql);
                    assert(e.records()[q] == rq);
                    assert(rq.slot < dst_s);
                    assert(self.chunk_bytes()[c as int] == pre.chunk_bytes()[c as int]);
                    assert forall|k: int| 0 <= k < o.part_width(pi) implies #[trigger] self.part_data(g, pi)[k] == o.part_data(g, pi)[k] by {
                        let jj = o.cell_start(g, pi) + k;
                        assert(!s2.in_cell_upto(a as int, dst_s as int, jj, s2.widths@.len() as int)) by {
                            if s2.in_cell_upto(a as int, dst_s as int, jj, s2.widths@.len() as int) {
                                let i2 = choose|i2: int|
                                    0 <= i2 < s2.widths@.len() && i2 < s2.widths@.len() && #[trigger] s2.archtypes@.items[a as int].key.scalar_parts.has(i2)
                                        && s2.byte_start(a as int, dst_s as int, i2) <= jj
                                        < s2.byte_start(a as int, dst_s as int, i2) + s2.widths@[i2];
                                s2.lemma_cells_disjoint(a as int, rq.slot as int, pi, dst_s as int, i2);
                            }
                        }
                        assert(pre.chunk_bytes()[c as int][jj] == s2.chunk_bytes()[c as int][jj]);
                    }
                } else if rq.chunk as int == c0 {
                    assert(pre.chunk_bytes()[rq.chunk as int] == s2.chunk_bytes()[rq.chunk as int]);
                    assert(rq.archtype == old_rec.archtype);
                    if q == ql && s0 < n0 - 1 {
                        assert(rq.slot == n0 - 1);
                        assert(e.records()[q].slot == s0);
                        o.lemma_byte_range(a0, s0, pi);
                        o.lemma_byte_range(a0, n0 - 1, pi);
                        assert forall|k: int| 0 <= k < o.part_width(pi) implies #[trigger] self.part_data(g, pi)[k] == o.part_data(g, pi)[k] by {
                            assert(e.chunk_bytes()[c0][pre.byte_start(a0, s0, pi) + k]
                                == pre.chunk_bytes()[c0][pre.byte_start(a0, n0 - 1, pi) + k]);
                        }
                    } else {
                        assert(e.records()[q] == rq);
                        if rq.slot as int == s0 {
                            assert(o.cell_ok(c0, s0, -1));
                            lemma_pack_split(g.0, o.tv().mask());
                            o.thing_table.lemma_view_wf();
                            assert(o.slot_ok(o.tv().index_of(g.0) as int));
                        }
                        assert forall|k: int| 0 <= k < o.part_width(pi) implies #[trigger] self.part_data(g, pi)[k] == o.part_data(g, pi)[k] by {
                            let jj = o.cell_start(g, pi) + k;
                            assert(!pre.in_cell_upto(a0, s0, jj, pre.widths@.len() as int)) by {
                                if pre.in_cell_upto(a0, s0, jj, pre.widths@.len() as int) {
                                    let i2 = choose|i2: int|
                                        0 <= i2 < pre.widths@.len() && i2 < pre.widths@.len() && #[trigger] pre.archtypes@.items[a0].key.scalar_parts.has(i2)
                                            && pre.byte_start(a0, s0, i2) <= jj
                                            < pre.byte_start(a0, s0, i2) + pre.widths@[i2];
                                    o.lemma_cells_disjoint(a0, rq.slot as int, pi, s0, i2);
                                }
                            }
                            assert(e.chunk_bytes()[c0][jj] == pre.chunk_bytes()[c0][jj]);
                        }
                    }
                } else {
                    assert(o.cell_ok(c0, n0 - 1, -1));
                    assert(q != ql);
                    assert(e.records()[q] == rq);
                    assert(pre.chunk_bytes()[rq.chunk as int] == s2.chunk_bytes()[rq.chunk as int]);
                    assert(e.chunk_bytes()[rq.chunk as int] == pre.chunk_bytes()[rq.chunk as int]);
                }
                assert(self.part_data(g, pi) =~= o.part_data(g, pi));
            }
        }
        true
    }

    /// Adds plain part `part` to the thing `id` names, moving it to the archetype with the new
    /// key: the parts it had keep their bytes, the new part starts out zero, and every other
    /// thing keeps its bytes. `false`, changing no thing, when `id` names none, the new key does
    /// not fit in a chunk, or a needed archetype or chunk handle is not to be had.
    pub fn add_part(&mut self, id: ThingId, part: usize) -> (r: bool)
        requires
            old(self).wf(),
            part < MAX_PART_TYPES,
        ensures
            final(self).wf(),
            r ==> old(self).things().contains_key(id),
            r ==> final(self).things().remove(id) == old(self).things().remove(id)
                && final(self).things().contains_key(id)
                && final(self).things()[id].scalar_parts.is_with(old(self).things()[id].scalar_parts, part)
                && final(self).things()[id].vector_parts == old(self).things()[id].vector_parts,
            r ==> forall|i: int| #[trigger] final(self).holds_part(id, i) ==> final(self).part_data(id, i)
                == if old(self).holds_part(id, i) {
                    old(self).part_data(id, i)
                } else {
                    Seq::new(final(self).part_width(i), |_k: int| 0u8)
                },
            r ==> forall|g: ThingId, i: int|
                #![trigger final(self).part_data(g, i)]
                g != id && old(self).holds_part(g, i) ==> final(self).holds_part(g, i) && final(self).part_data(g, i)
                    == old(self).part_data(g, i),
            !r ==> final(self).things() == old(self).things(),
            old(self).things().contains_key(id) && old(self).spare_archetypes() > 0 && old(self).spare_chunks() > 0
                && old(self).total_width() <= CHUNK_SIZE_BYTES ==> r,
            final(self).spare_things() == old(self).spare_things(),
            forall|g: ThingId| #[trigger] final(self).misses(g) == old(self).misses(g),
            r ==> if final(self).things()[id] == old(self).things()[id] {
                &&& final(self).chunk_ids() == old(self).chunk_ids()
                &&& final(self).chunk_archetypes() == old(self).chunk_archetypes()
                &&& final(self).chunk_lens() == old(self).chunk_lens()
            } else {
                let c0 = old(self).chunk_index(id);
                let a = final(self).archetype_index(id);
                let c = final(self).chunk_index(id);
                let lens = old(self).chunk_lens().update(c0, (old(self).chunk_lens()[c0] - 1) as nat);
                if exists|c2: int| #[trigger] old(self).room_for(a, c2) {
                    &&& old(self).room_for(a, c)
                    &&& forall|c2: int| #[trigger] old(self).room_for(a, c2) ==> c2 <= c
                    &&& final(self).chunk_ids() == old(self).chunk_ids()
                    &&& final(self).chunk_archetypes() == old(self).chunk_archetypes()
                    &&& final(self).chunk_lens() == lens.update(c, lens[c] + 1)
                } else {
                    &&& c == old(self).chunk_ids().len()
                    &&& final(self).chunk_ids().len() == c + 1
                    &&& final(self).chunk_ids().take(c) == old(self).chunk_ids()
                    &&& final(self).chunk_archetypes() == old(self).chunk_archetypes().push(a)
                    &&& final(self).chunk_lens() == lens.push(1)
                }
            },
    {
        let k = match self.key_of(id) {
            Some(k) => k,
            None => return false,
        };
        let key = ArchtypeKey { scalar_parts: k.scalar_parts.with(part), vector_parts: k.vector_parts };
        proof {
            if self.total_width() <= CHUNK_SIZE_BYTES {
                self.lemma_all_fit(key);
            }
        }
        let r = self.relocate(id, &key);
        proof {
            if r {
                assert(self.things().remove(id) =~= old(self).things().remove(id));
            }

        }
        r
    }

    /// Takes plain part `part` off the thing `id` names, moving it to the archetype with the new
    /// key: the parts it keeps keep their bytes, and every other thing keeps its bytes. `false`,
    /// changing no thing, when `id` names none or a needed archetype or chunk handle is not to
    /// be had.
    pub fn remove_part(&mut self, id: ThingId, part: usize) -> (r: bool)
        requires
            old(self).wf(),
            part < MAX_PART_TYPES,
        ensures
            final(self).wf(),
            r ==> old(self).things().contains_key(id),
            r ==> final(self).things().remove(id) == old(self).things().remove(id)
                && final(self).things().contains_key(id)
                && final(self).things()[id].scalar_parts.is_without(old(self).things()[id].scalar_parts, part)
                && final(self).things()[id].vector_parts == old(self).things()[id].vector_parts,
            r ==> forall|i: int| #[trigger] final(self).holds_part(id, i) ==> final(self).part_data(id, i)
                == if old(self).holds_part(id, i) {
                    old(self).part_data(id, i)
                } else {
                    Seq::new(final(self).part_width(i), |_k: int| 0u8)
                },
            r ==> forall|g: ThingId, i: int|
                #![trigger final(self).part_data(g, i)]
                g != id && old(self).holds_part(g, i) ==> final(self).holds_part(g, i) && final(self).part_data(g, i)
                    == old(self).part_data(g, i),
            !r ==> final(self).things() == old(self).things(),
            old(self).things().contains_key(id) && old(self).spare_archetypes() > 0 && old(self).spare_chunks() > 0
                && old(self).total_width() <= CHUNK_SIZE_BYTES ==> r,
            final(self).spare_things() == old(self).spare_things(),
            forall|g: ThingId| #[trigger] final(self).misses(g) == old(self).misses(g),
            r ==> if final(self).things()[id] == old(self).things()[id] {
                &&& final(self).chunk_ids() == old(self).chunk_ids()
                &&& final(self).chunk_archetypes() == old(self).chunk_archetypes()
                &&& final(self).chunk_lens() == old(self).chunk_lens()
            } else {
                let c0 = old(self).chunk_index(id);
                let a = final(self).archetype_index(id);
                let c = final(self).chunk_index(id);
                let lens = old(self).chunk_lens().update(c0, (old(self).chunk_lens()[c0] - 1) as nat);
                if exists|c2: int| #[trigger] old(self).room_for(a, c2) {
                    &&& old(self).room_for(a, c)
                    &&& forall|c2: int| #[trigger] old(self).room_for(a, c2) ==> c2 <= c
                    &&& final(self).chunk_ids() == old(self).chunk_ids()
                    &&& final(self).chunk_archetypes() == old(self).chunk_archetypes()
                    &&& final(self).chunk_lens() == lens.update(c, lens[c] + 1)
                } else {
                    &&& c == old(self).chunk_ids().len()
                    &&& final(self).chunk_ids().len() == c + 1
                    &&& final(self).chunk_ids().take(c) == old(self).chunk_ids()
                    &&& final(self).chunk_archetypes() == old(self).chunk_archetypes().push(a)
                    &&& final(self).chunk_lens() == lens.push(1)
                }
            },
    {
        let k = match self.key_of(id) {
            Some(k) => k,
            None => return false,
        };
        let key = ArchtypeKey { scalar_parts: k.scalar_parts.without(part), vector_parts: k.vector_parts };
        proof {
            if self.total_width() <= CHUNK_SIZE_BYTES {
                self.lemma_all_fit(key);
            }
        }
        let r = self.relocate(id, &key);
        proof {
            if r {
                assert(self.things().remove(id) =~= old(self).things().remove(id));
            }

        }
        r
    }

    /// Position of the archetype of the live thing `id`.
    pub closed spec fn archetype_index(&self, id: ThingId) -> int {
        self.records()[self.record_index(id)->Some_0 as int].archtype as int
    }

    /// Position of the chunk of the live thing `id`.
    pub closed spec fn chunk_index(&self, id: ThingId) -> int {
        self.records()[self.record_index(id)->Some_0 as int].chunk as int
    }

    /// Slot of the live thing `id` in its chunk.
    pub closed spec fn slot_index(&self, id: ThingId) -> int {
        self.records()[self.record_index(id)->Some_0 as int].slot as int
    }

    /// Handles of the chunks, in order of creation.
    pub closed spec fn chunk_ids(&self) -> Seq<ChunkId> {
        self.chunks@.items.map_values(|c: Chunk| c.id)
    }

    /// Number of things in each chunk, in order of creation.
    pub closed spec fn chunk_lens(&self) -> Seq<nat> {
        self.chunks@.items.map_values(|c: Chunk| c.things@.len())
    }

    /// Whether `id` names a live thing.
    pub fn contains(&self, id: ThingId) -> (r: bool)
        requires
            self.wf(),
        ensures
            r == self.things().contains_key(id),
    {
        match self.thing_table.get(id.0) {
            Some(p) => (p as usize) < self.things.len(),
            None => false,
        }
    }

    /// Handle of the archetype of the thing `id` names.
    pub fn archetype_of(&self, id: ThingId) -> (r: Option<ArchtypeId>)
        requires
            self.wf(),
        ensures
            self.things().contains_key(id) ==> 0 <= self.archetype_index(id) < self.archetype_ids().len()
                && r == Some(self.archetype_ids()[self.archetype_index(id)])
                && self.archetype_keys()[self.archetype_index(id)] == self.things()[id],
            !self.things().contains_key(id) ==> r is None,
    {
        match self.thing_table.get(id.0) {
            Some(p) => {
                if (p as usize) < self.things.len() {
                    let a = self.things.get(p as usize).archtype;
                    proof {
                        assert(self.record_ok(p as int));
                    }
                    Some(self.archtypes.get(a as usize).id)
                } else {
                    None
                }
            },
            None => None,
        }
    }

    /// Key of the archetype `id` names, if it names one.
    pub fn archetype_key(&self, id: ArchtypeId) -> (r: Option<ArchtypeKey>)
        requires
            self.wf(),
        ensures
            forall|a: int| 0 <= a < self.archetype_ids().len() && #[trigger] self.archetype_ids()[a] == id
                ==> r == Some(self.archetype_keys()[a]),
            !self.archetype_ids().contains(id) ==> r is None,
    {
        match self.archtype_table.get(id.0) {
            Some(a) => {
                if (a as usize) < self.archtypes.len() && self.archtypes.get(a as usize).id == id {
                    proof {
                        assert(self.archetype_ids()[a as int] == id);
                        assert forall|b: int| 0 <= b < self.archetype_ids().len() && #[trigger] self.archetype_ids()[b]
                            == id implies a == b by {
                            assert(self.archtype_ok(b));
                        }
                    }
                    Some(self.archtypes.get(a as usize).key)
                } else {
                    proof {
                        assert forall|b: int| 0 <= b < self.archetype_ids().len() && #[trigger] self.archetype_ids()[b]
                            == id implies false by {
                            assert(self.archtype_ok(b));
                        }
                    }
                    None
                }
            },
            None => {
                proof {
                    assert forall|b: int| 0 <= b < self.archetype_ids().len() && #[trigger] self.archetype_ids()[b]
                        == id implies false by {
                        assert(self.archtype_ok(b));
                    }
                }
                None
            },
        }
    }

    /// Handle of the chunk that holds the thing `id` names, and its slot there.
    pub fn location(&self, id: ThingId) -> (r: Option<(ChunkId, u32)>)
        requires
            self.wf(),
        ensures
            self.things().contains_key(id) ==> 0 <= self.chunk_index(id) < self.chunk_ids().len()
                && 0 <= self.slot_index(id) < self.chunk_lens()[self.chunk_index(id)]
                && r == Some((self.chunk_ids()[self.chunk_index(id)], self.slot_index(id) as u32)),
            !self.things().contains_key(id) ==> r is None,
    {
        match self.thing_table.get(id.0) {
            Some(p) => {
                if (p as usize) < self.things.len() {
                    let rec = *self.things.get(p as usize);
                    proof {
                        assert(self.record_ok(p as int));
                        assert(self.occ_ok(p as int));
                    }
                    Some((self.chunks.get(rec.chunk as usize).id, rec.slot))
                } else {
                    None
                }
            },
            None => None,
        }
    }

    /// Number of things in the chunk `id` names, if it names one.
    pub fn chunk_len(&self, id: ChunkId) -> (r: Option<usize>)
        requires
            self.wf(),
        ensures
            forall|c: int| 0 <= c < self.chunk_ids().len() && #[trigger] self.chunk_ids()[c] == id
                ==> r == Some(self.chunk_lens()[c] as usize),
            !self.chunk_ids().contains(id) ==> r is None,
    {
        match self.chunk_table.get(id.0) {
            Some(c) => {
                if (c as usize) < self.chunks.len() && self.chunks.get(c as usize).id == id {
                    proof {
                        assert(self.chunk_ids()[c as int] == id);
                        assert forall|b: int| 0 <= b < self.chunk_ids().len() && #[trigger] self.chunk_ids()[b]
                            == id implies c == b by {
                            assert(self.chunk_ok(b));
                        }
                    }
                    Some(self.chunks.get(c as usize).things.len())
                } else {
                    proof {
                        assert forall|b: int| 0 <= b < self.chunk_ids().len() && #[trigger] self.chunk_ids()[b]
                            == id implies false by {
                            assert(self.chunk_ok(b));
                        }
                    }
                    None
                }
            },
            None => {
                proof {
                    assert forall|b: int| 0 <= b < self.chunk_ids().len() && #[trigger] self.chunk_ids()[b]
                        == id implies false by {
                        assert(self.chunk_ok(b));
                    }
                }
                None
            },
        }
    }

    /// Number of archetypes.
    pub fn archetype_count(&self) -> (r: usize)
        ensures
            r == self.archetype_keys().len(),
    {
        self.archtypes.len()
    }

    /// The handle pools and the archetypes and chunks in use add up to the fixed capacities.
    pub proof fn lemma_counts(&self)
        requires
            self.wf(),
        ensures
            self.spare_archetypes() + self.archetype_keys().len() == MAX_ARCHTYPES - 1,
            self.spare_chunks() + self.chunk_ids().len() == MAX_CHUNKS - 1,
            self.spare_things() <= MAX_THINGS - 1,
    {
    }

    /// Handles a new archetype can still take.
    pub fn free_archetypes(&self) -> (r: usize)
        requires
            self.wf(),
        ensures
            r == self.spare_archetypes(),
    {
        self.archtype_table.free_count()
    }

    /// Handles a new chunk can still take.
    pub fn free_chunks(&self) -> (r: usize)
        requires
            self.wf(),
        ensures
            r == self.spare_chunks(),
    {
        self.chunk_table.free_count()
    }

    /// Whether one thing with the parts of `key` fits in a chunk.
    pub fn key_fits(&self, key: &ArchtypeKey) -> (r: bool)
        requires
            self.wf(),
        ensures
            r == self.fits_key(*key),
    {
        self.plan_layout(key).is_some()
    }

    /// Whether all the plain parts together fit in a chunk, so that every key does.
    pub fn all_parts_fit(&self) -> (r: bool)
        requires
            self.wf(),
        ensures
            r == (self.total_width() <= CHUNK_SIZE_BYTES),
    {
        let n = self.widths.len();
        let mut total: usize = 0;
        let mut i: usize = 0;
        while i < n
            invariant
                n == self.widths@.len(),
                n <= MAX_PART_TYPES,
                i <= n,
                total == Self::total_upto(self.widths@, i as int),
                total <= CHUNK_SIZE_BYTES,
            decreases n - i,
        {
            let w = self.widths[i];
            if w > CHUNK_SIZE_BYTES - total {
                proof {
                    Self::lemma_total_monotone(self.widths@, i as int + 1, n as int);
                }
                return false;
            }
            total = total + w;
            i = i + 1;
        }
        true
    }

    proof fn lemma_total_monotone(widths: Seq<usize>, i: int, j: int)
        requires
            0 <= i <= j,
        ensures
            Self::total_upto(widths, i) <= Self::total_upto(widths, j),
        decreases j - i,
    {
        if i < j {
            Self::lemma_total_monotone(widths, i, j - 1);
        }
    }

    /// Handles a new thing can still take.
    pub fn free_things(&self) -> (r: usize)
        requires
            self.wf(),
        ensures
            r == self.spare_things(),
    {
        self.thing_table.free_count()
    }

    /// Whether the chunk in position `c` is non-empty and its archetype has every plain part
    /// of `required`.
    pub closed spec fn chunk_matches(&self, required: PartBitmap, c: int) -> bool {
        let a = self.chunks@.items[c].archtype as int;
        &&& self.chunks@.items[c].things@.len() > 0
        &&& a < self.archtypes@.items.len()
        &&& forall|k: int| 0 <= k < PART_WORDS ==> (#[trigger] self.key_at(a).scalar_parts@[k] & required@[k]) == required@[k]
    }

    /// Handles of the matching chunks among the first `n`.
    pub closed spec fn matching_chunks(&self, required: PartBitmap, n: int) -> Seq<ChunkId>
        decreases n,
    {
        if n <= 0 {
            Seq::empty()
        } else if self.chunk_matches(required, n - 1) {
            self.matching_chunks(required, n - 1).push(self.chunks@.items[n - 1].id)
        } else {
            self.matching_chunks(required, n - 1)
        }
    }

    /// The non-empty chunks whose archetype has every plain part of `required`.
    pub fn query(&self, required: &PartBitmap) -> (r: Query)
        requires
            self.wf(),
        ensures
            r.chunks@ == self.matching_chunks(*required, self.chunk_ids().len() as int),
    {
        let n = self.chunks.len();
        let mut out: Vec<ChunkId> = Vec::new();
        let mut c: usize = 0;
        while c < n
            invariant
                n == self.chunks@.items.len(),
                c <= n,
                out@ == self.matching_chunks(*required, c as int),
            decreases n - c,
        {
            let chunk = self.chunks.get(c);
            let a = chunk.archtype as usize;
            let mut hit = false;
            if chunk.things.len() > 0 && a < self.archtypes.len() {
                let sp = self.archtypes.get(a).key.scalar_parts;
                hit = sp.is_superset(required);
                assert(sp == self.key_at(a as int).scalar_parts);
            }
            assert(hit == self.chunk_matches(*required, c as int));
            if hit {
                out.push(chunk.id);
            }
            assert(self.matching_chunks(*required, c + 1) == if self.chunk_matches(*required, c as int) {
                self.matching_chunks(*required, c as int).push(self.chunks@.items[c as int].id)
            } else {
                self.matching_chunks(*required, c as int)
            });
            c = c + 1;
        }
        Query { chunks: out }
    }

    /// Number of plain part slots the world was built over.
    pub closed spec fn part_slots(&self) -> nat {
        self.widths@.len()
    }

    /// Bytes of the plain part in slot `part`.
    pub closed spec fn part_width(&self, part: int) -> nat {
        self.widths@[part] as nat
    }

    /// Bytes of each chunk, in order of creation.
    pub closed spec fn chunk_bytes(&self) -> Seq<Seq<u8>> {
        self.chunks@.items.map_values(|c: Chunk| c.data@)
    }

    /// Whether `id` names a live thing that has plain part `part`.
    pub closed spec fn holds_part(&self, id: ThingId, part: int) -> bool {
        &&& self.things().contains_key(id)
        &&& 0 <= part < self.widths@.len()
        &&& self.things()[id].scalar_parts.has(part)
    }

    /// Where the bytes of part `part` of the live thing `id` start in its chunk.
    pub closed spec fn cell_start(&self, id: ThingId, part: int) -> int {
        self.archtypes@.items[self.archetype_index(id)].offsets@[part] + self.slot_index(id) * self.part_width(part)
    }

    /// Bytes of part `part` of the live thing `id`.
    pub closed spec fn part_data(&self, id: ThingId, part: int) -> Seq<u8> {
        let start = self.cell_start(id, part);
        self.chunk_bytes()[self.chunk_index(id)].subrange(start, start + self.part_width(part))
    }

    /// The bytes of a part of a live thing lie inside its chunk.
    proof fn lemma_cell_in_chunk(&self, id: ThingId, part: int)
        requires
            self.wf(),
            self.holds_part(id, part),
        ensures
            0 <= self.chunk_index(id) < self.chunks@.items.len(),
            0 <= self.cell_start(id, part),
            self.cell_start(id, part) + self.part_width(part) <= CHUNK_SIZE_BYTES,
            self.chunks@.items[self.chunk_index(id)].data@.len() == CHUNK_SIZE_BYTES,
            self.chunk_bytes()[self.chunk_index(id)] == self.chunks@.items[self.chunk_index(id)].data@,
    {
        let p = self.record_index(id)->Some_0 as int;
        assert(self.record_ok(p));
        assert(self.occ_ok(p));
        let c = self.chunk_index(id);
        let a = self.archetype_index(id);
        assert(self.room_ok(c));
        assert(self.archtype_ok(a));
        assert(self.chunk_ok(c));
        let arch = self.archtypes@.items[a];
        let s = self.slot_index(id);
        let w = self.part_width(part);
        let pc = arch.per_chunk as int;
        assert(arch.key.scalar_parts.has(part));
        assert(arch.offsets@[part] + pc * w <= CHUNK_SIZE_BYTES);
        assert(s + 1 <= pc);
        assert(s * w + w <= pc * w) by (nonlinear_arith)
            requires
                s + 1 <= pc,
                0 <= s,
                0 <= w,
        ;
        assert(0 <= s * w) by (nonlinear_arith)
            requires
                0 <= s,
                0 <= w,
        ;
    }

    /// Cells of different (slot, part) pairs in a chunk of archetype `a` do not overlap.
    proof fn lemma_cells_disjoint(&self, a: int, t1: int, i1: int, t2: int, i2: int)
        requires
            self.wf_core(),
            0 <= a < self.archtypes@.items.len(),
            0 <= i1 < self.widths@.len(),
            0 <= i2 < self.widths@.len(),
            self.archtypes@.items[a].key.scalar_parts.has(i1),
            self.archtypes@.items[a].key.scalar_parts.has(i2),
            0 <= t1 < self.archtypes@.items[a].per_chunk,
            0 <= t2 < self.archtypes@.items[a].per_chunk,
            t1 != t2 || i1 != i2,
        ensures
            ({
                let arch = self.archtypes@.items[a];
                let s1 = arch.offsets@[i1] + t1 * self.widths@[i1];
                let s2 = arch.offsets@[i2] + t2 * self.widths@[i2];
                s1 + self.widths@[i1] <= s2 || s2 + self.widths@[i2] <= s1
            }),
    {
        assert(self.archtype_ok(a));
        let arch = self.archtypes@.items[a];
        let pc = arch.per_chunk as int;
        let w1 = self.widths@[i1] as int;
        let w2 = self.widths@[i2] as int;
        if i1 == i2 {
            if t1 < t2 {
                assert(t1 * w1 + w1 <= t2 * w1) by (nonlinear_arith)
                    requires
                        t1 + 1 <= t2,
                        0 <= w1,
                ;
            } else {
                assert(t2 * w1 + w1 <= t1 * w1) by (nonlinear_arith)
                    requires
                        t2 + 1 <= t1,
                        0 <= w1,
                ;
            }
        } else {
            let (lo, hi, tl, th) = if i1 < i2 { (i1, i2, t1, t2) } else { (i2, i1, t2, t1) };
            let wl = self.widths@[lo] as int;
            let wh = self.widths@[hi] as int;
            let key = arch.key;
            let ws_lo = Self::width_sum(self.widths@, key, lo);
            Self::lemma_width_sum_monotone(self.widths@, key, lo + 1, hi);
            assert(Self::width_sum(self.widths@, key, lo + 1) == ws_lo + wl);
            let ws_hi = Self::width_sum(self.widths@, key, hi);
            assert(tl * wl + wl <= pc * wl) by (nonlinear_arith)
                requires
                    tl + 1 <= pc,
                    0 <= wl,
            ;
            assert(pc * (ws_lo + wl) <= pc * ws_hi) by (nonlinear_arith)
                requires
                    ws_lo + wl <= ws_hi,
                    0 <= pc,
            ;
            assert(pc * (ws_lo + wl) == pc * ws_lo + pc * wl) by (nonlinear_arith);
            assert(0 <= th * wh) by (nonlinear_arith)
                requires
                    0 <= th,
                    0 <= wh,
            ;
        }
    }

    /// Bytes of plain part `part` of the thing `id` names, if it names one that has the part.
    pub fn read_part(&self, id: ThingId, part: usize) -> (r: Option<Vec<u8>>)
        requires
            self.wf(),
        ensures
            self.holds_part(id, part as int) ==> r is Some && r->Some_0@ == self.part_data(id, part as int),
            !self.holds_part(id, part as int) ==> r is None,
    {
        let p = match self.thing_table.get(id.0) {
            Some(p) => p,
            None => return None,
        };
        if p as usize >= self.things.len() || part >= self.widths.len() {
            return None;
        }
        let rec = *self.things.get(p as usize);
        proof {
            assert(self.record_ok(p as int));
            assert(self.occ_ok(p as int));
        }
        let arch = self.archtypes.get(rec.archtype as usize);
        if !arch.key.scalar_parts.contains(part) {
            return None;
        }
        proof {
            assert(self.record_index(id) == Some(p));
            assert(self.archtype_ok(rec.archtype as int));
            self.lemma_cell_in_chunk(id, part as int);
        }
        let w = self.widths[part];
        proof {
            assert(0 <= rec.slot * w <= CHUNK_SIZE_BYTES) by (nonlinear_arith)
                requires
                    self.cell_start(id, part as int) == arch.offsets@[part as int] + rec.slot * w,
                    0 <= self.cell_start(id, part as int),
                    self.cell_start(id, part as int) + w <= CHUNK_SIZE_BYTES,
                    0 <= arch.offsets@[part as int],
            ;
        }
        let start = arch.offsets[part] + rec.slot as usize * w;
        let chunk = self.chunks.get(rec.chunk as usize);
        let mut out: Vec<u8> = Vec::with_capacity(w);
        let mut k: usize = 0;
        while k < w
            invariant
                k <= w,
                start + w <= CHUNK_SIZE_BYTES,
                start + w <= chunk.data@.len(),
                out@ =~= chunk.data@.subrange(start as int, start + k),
            decreases w - k,
        {
            out.push(chunk.data[start + k]);
            k = k + 1;
        }
        Some(out)
    }


    /// Writes `bytes` as plain part `part` of the thing `id` names and returns `true`; `false`,
    /// changing nothing, when `id` names no thing with that part or `bytes` is not the part's
    /// width. Only those bytes of its chunk change.
    pub fn write_part(&mut self, id: ThingId, part: usize, bytes: &[u8]) -> (r: bool)
        requires
            old(self).wf(),
        ensures
            final(self).wf(),
            r == (old(self).holds_part(id, part as int) && bytes@.len() == old(self).part_width(part as int)),
            final(self).things() == old(self).things(),
            final(self).chunk_ids() == old(self).chunk_ids(),
            final(self).chunk_lens() == old(self).chunk_lens(),
            r ==> final(self).part_data(id, part as int) == bytes@,
            r ==> forall|g: ThingId, i: int|
                #![trigger final(self).part_data(g, i)]
                old(self).holds_part(g, i) && !(g == id && i == part) ==> final(self).part_data(g, i)
                    == old(self).part_data(g, i),
            r ==> final(self).chunk_bytes() == old(self).chunk_bytes().update(
                old(self).chunk_index(id),
                Seq::new(CHUNK_SIZE_BYTES as nat, |j: int| {
                    let start = old(self).cell_start(id, part as int);
                    if start <= j < start + bytes@.len() {
                        bytes@[j - start]
                    } else {
                        old(self).chunk_bytes()[old(self).chunk_index(id)][j]
                    }
                }),
            ),
            !r ==> final(self).chunk_bytes() == old(self).chunk_bytes(),
            final(self).spare_things() == old(self).spare_things(),
            forall|g: ThingId| #[trigger] final(self).misses(g) == old(self).misses(g),
    {
        let p = match self.thing_table.get(id.0) {
            Some(p) => p,
            None => return false,
        };
        if p as usize >= self.things.len() || part >= self.widths.len() {
            return false;
        }
        let rec = *self.things.get(p as usize);
        proof {
            assert(self.record_ok(p as int));
            assert(self.occ_ok(p as int));
            assert(self.record_index(id) == Some(p));
            assert(self.archtype_ok(rec.archtype as int));
        }
        let w = self.widths[part];
        if !self.archtypes.get(rec.archtype as usize).key.scalar_parts.contains(part) || bytes.len() != w {
            return false;
        }
        let ghost o = *self;
        proof {
            self.lemma_cell_in_chunk(id, part as int);
        }
        let off = self.archtypes.get(rec.archtype as usize).offsets[part];
        proof {
            assert(0 <= rec.slot * w <= CHUNK_SIZE_BYTES) by (nonlinear_arith)
                requires
                    self.cell_start(id, part as int) == off + rec.slot * w,
                    0 <= self.cell_start(id, part as int),
                    self.cell_start(id, part as int) + w <= CHUNK_SIZE_BYTES,
                    0 <= off,
            ;
        }
        let start = off + rec.slot as usize * w;
        let c = rec.chunk as usize;
        let mut chunk = self.chunks.replace(c, Chunk { id: ChunkId(0), archtype: 0, things: Vec::new(), data: Vec::new() });
        let ghost old_data = chunk.data@;
        let mut k: usize = 0;
        while k < w
            invariant
                k <= w,
                w == bytes@.len(),
                start + w <= CHUNK_SIZE_BYTES,
                old_data.len() == CHUNK_SIZE_BYTES,
                chunk.data@.len() == CHUNK_SIZE_BYTES,
                chunk.id == o.chunks@.items[c as int].id,
                chunk.archtype == o.chunks@.items[c as int].archtype,
                chunk.things@ == o.chunks@.items[c as int].things@,
                forall|j: int| 0 <= j < CHUNK_SIZE_BYTES ==> #[trigger] chunk.data@[j] == if start <= j < start + k {
                    bytes@[j - start]
                } else {
                    old_data[j]
                },
            decreases w - k,
        {
            chunk.data.set(start + k, bytes[k]);
            k = k + 1;
        }
        self.chunks.replace(c, chunk);
        proof {
            assert(o.chunk_ok(c as int));
            self.lemma_bytes_kept(o, -1);
            let nb = Seq::new(CHUNK_SIZE_BYTES as nat, |j: int| {
                let st = o.cell_start(id, part as int);
                if st <= j < st + bytes@.len() {
                    bytes@[j - st]
                } else {
                    o.chunk_bytes()[o.chunk_index(id)][j]
                }
            });
            assert(self.chunks@.items[c as int].data@ =~= nb);
            assert(self.chunk_bytes() =~= o.chunk_bytes().update(o.chunk_index(id), nb));
            assert(self.record_index(id) == Some(p));
            assert(self.part_data(id, part as int) =~= bytes@);
            let st = o.cell_start(id, part as int);
            assert forall|g: ThingId, i: int|
                #![trigger self.part_data(g, i)]
                o.holds_part(g, i) && !(g == id && i == part) implies self.part_data(g, i) == o.part_data(g, i) by {
                o.lemma_cell_in_chunk(g, i);
                let cg = o.chunk_index(g);
                let sg = o.cell_start(g, i);
                let wg = o.part_width(i);
                assert(self.record_index(g) == o.record_index(g));
                if cg == c {
                    let pg = o.record_index(g)->Some_0 as int;
                    assert(o.record_ok(pg));
                    assert(o.occ_ok(pg));
                    assert(o.occ_ok(p as int));
                    assert(o.archetype_index(g) == rec.archtype);
                    assert(o.room_ok(c as int));
                    if o.slot_index(g) == rec.slot {
                        if g != id {
                            lemma_one_thing_per_cell(&o, g, id);
                        }
                    }
                    o.lemma_cells_disjoint(rec.archtype as int, o.slot_index(g), i, rec.slot as int, part as int);
                    assert(self.part_data(g, i) =~= o.part_data(g, i));
                } else {
                    assert(self.chunk_bytes()[cg] == o.chunk_bytes()[cg]);
                }
            }
        }
        true
    }


    /// Changing the bytes of chunks, and nothing else, keeps the invariant.
    proof fn lemma_bytes_kept(&self, before: World, skip: int)
        requires
            before.wf_core(),
            before.layout_ok(skip),
            self.thing_table == before.thing_table,
            self.archtype_table == before.archtype_table,
            self.chunk_table == before.chunk_table,
            self.things == before.things,
            self.archtypes == before.archtypes,
            self.widths@ == before.widths@,
            self.chunks.wf(),
            self.chunks@.map == before.chunks@.map,
            self.chunks@.items.len() == before.chunks@.items.len(),
            forall|c: int| 0 <= c < self.chunks@.items.len() ==> (#[trigger] self.chunks@.items[c]).id
                == before.chunks@.items[c].id && self.chunks@.items[c].archtype == before.chunks@.items[c].archtype
                && self.chunks@.items[c].things@ == before.chunks@.items[c].things@
                && self.chunks@.items[c].data@.len() == before.chunks@.items[c].data@.len(),
        ensures
            self.wf_core(),
            self.layout_ok(skip),
            self.things() == before.things(),
            self.archetype_keys() == before.archetype_keys(),
            self.chunk_ids() == before.chunk_ids(),
            self.chunk_lens() == before.chunk_lens(),
    {
        assert forall|j: int| 0 <= j < MAX_THINGS - 1 implies #[trigger] self.slot_ok(j) by {
            assert(before.slot_ok(j));
        }
        assert forall|q: int| 0 <= q < self.records().len() implies #[trigger] self.record_ok(q) by {
            assert(before.record_ok(q));
        }
        assert forall|a: int| 0 <= a < self.archtypes@.items.len() implies #[trigger] self.archtype_ok(a) by {
            assert(before.archtype_ok(a));
        }
        assert forall|c: int| 0 <= c < self.chunks@.items.len() implies #[trigger] self.chunk_ok(c) by {
            assert(before.chunk_ok(c));
        }
        self.lemma_keys_kept(before);
        assert forall|q: int| 0 <= q < self.records().len() && q != skip implies #[trigger] self.occ_ok(q) by {
            assert(before.occ_ok(q));
        }
        assert forall|c: int, t: int|
            0 <= c < self.chunks@.items.len() && 0 <= t < self.chunks@.items[c].things@.len()
                implies #[trigger] self.cell_ok(c, t, skip) by {
            assert(before.cell_ok(c, t, skip));
        }
        assert forall|c: int| 0 <= c < self.chunks@.items.len() implies #[trigger] self.room_ok(c) by {
            assert(before.room_ok(c));
        }
        assert(self.things() =~= before.things());
        assert(self.chunk_ids() =~= before.chunk_ids());
        assert(self.chunk_lens() =~= before.chunk_lens());
    }

    /// Start of the cell of plain part `part` in slot `slot` of a chunk of archetype `a`, with
    /// the cell inside the chunk.
    fn cell_at(&self, a: usize, slot: usize, part: usize) -> (r: usize)
        requires
            self.wf_core(),
            a < self.archtypes@.items.len(),
            part < self.widths@.len(),
            self.archtypes@.items[a as int].key.scalar_parts.has(part as int),
            slot < self.archtypes@.items[a as int].per_chunk,
        ensures
            r == self.archtypes@.items[a as int].offsets@[part as int] + slot * self.widths@[part as int],
            r + self.widths@[part as int] <= CHUNK_SIZE_BYTES,
    {
        proof {
            assert(self.archtype_ok(a as int));
        }
        let arch = self.archtypes.get(a);
        let w = self.widths[part];
        let off = arch.offsets[part];
        let pc = arch.per_chunk as usize;
        proof {
            assert(slot * w + w <= pc * w) by (nonlinear_arith)
                requires
                    slot + 1 <= pc,
            ;
        }
        off + slot * w
    }

    /// Start of the bytes of part `i` in slot `slot` of a chunk of archetype `a`.
    closed spec fn byte_start(&self, a: int, slot: int, i: int) -> int {
        self.archtypes@.items[a].offsets@[i] + slot * self.widths@[i]
    }

    /// Whether byte `j` lies in the bytes of one of the parts below `upto` in slot `slot` of a
    /// chunk of archetype `a`.
    closed spec fn in_cell_upto(&self, a: int, slot: int, j: int, upto: int) -> bool {
        exists|i: int|
            0 <= i < upto && i < self.widths@.len() && #[trigger] self.archtypes@.items[a].key.scalar_parts.has(i)
                && self.byte_start(a, slot, i) <= j < self.byte_start(a, slot, i) + self.widths@[i]
    }

    /// Byte `k` of part `i` of the source cell, or zero when it has no such part.
    closed spec fn src_byte(&self, src: Option<(usize, usize, usize)>, i: int, k: int) -> u8 {
        match src {
            Some(x) => if self.archtypes@.items[x.0 as int].key.scalar_parts.has(i) {
                self.chunk_bytes()[x.1 as int][self.byte_start(x.0 as int, x.2 as int, i) + k]
            } else {
                0u8
            },
            None => 0u8,
        }
    }

    proof fn lemma_byte_range(&self, a: int, slot: int, i: int)
        requires
            self.wf_core(),
            0 <= a < self.archtypes@.items.len(),
            0 <= i < self.widths@.len(),
            self.archtypes@.items[a].key.scalar_parts.has(i),
            0 <= slot < self.archtypes@.items[a].per_chunk,
        ensures
            0 <= self.byte_start(a, slot, i),
            self.byte_start(a, slot, i) + self.widths@[i] <= CHUNK_SIZE_BYTES,
    {
        assert(self.archtype_ok(a));
        let pc = self.archtypes@.items[a].per_chunk as int;
        let w = self.widths@[i] as int;
        assert(slot * w + w <= pc * w && 0 <= slot * w) by (nonlinear_arith)
            requires
                slot + 1 <= pc,
                0 <= slot,
                0 <= w,
        ;
    }

    /// Fills the cell of slot `dst_s` of chunk `dst_c`, of archetype `dst_a`, part by part:
    /// each part that the source cell (archetype, chunk, slot) also has is copied from it, the
    /// others are zeroed. Only those bytes change.
    fn fill_cell(&mut self, dst_a: usize, dst_c: usize, dst_s: usize, src: Option<(usize, usize, usize)>, Ghost(skip): Ghost<int>)
        requires
            old(self).wf_core(),
            old(self).layout_ok(skip),
            dst_a < old(self).archtypes@.items.len(),
            dst_c < old(self).chunks@.items.len(),
            dst_s < old(self).archtypes@.items[dst_a as int].per_chunk,
            match src {
                Some(x) => x.0 < old(self).archtypes@.items.len() && x.1 < old(self).chunks@.items.len()
                    && x.2 < old(self).archtypes@.items[x.0 as int].per_chunk
                    && (x.1 == dst_c ==> x.0 == dst_a && x.2 != dst_s),
                None => true,
            },
        ensures
            final(self).wf_core(),
            final(self).layout_ok(skip),
            final(self).thing_table == old(self).thing_table,
            final(self).archtype_table == old(self).archtype_table,
            final(self).chunk_table == old(self).chunk_table,
            final(self).things == old(self).things,
            final(self).archtypes == old(self).archtypes,
            final(self).widths@ == old(self).widths@,
            final(self).chunks@.items.len() == old(self).chunks@.items.len(),
            forall|c: int| 0 <= c < final(self).chunks@.items.len() ==> (#[trigger] final(self).chunks@.items[c]).id
                == old(self).chunks@.items[c].id && final(self).chunks@.items[c].archtype == old(self).chunks@.items[c].archtype
                && final(self).chunks@.items[c].things@ == old(self).chunks@.items[c].things@,
            final(self).things() == old(self).things(),
            final(self).archetype_keys() == old(self).archetype_keys(),
            final(self).chunk_ids() == old(self).chunk_ids(),
            final(self).chunk_lens() == old(self).chunk_lens(),
            forall|c: int| 0 <= c < old(self).chunks@.items.len() && c != dst_c ==> #[trigger] final(self).chunk_bytes()[c]
                == old(self).chunk_bytes()[c],
            final(self).chunk_bytes()[dst_c as int].len() == CHUNK_SIZE_BYTES,
            forall|j: int| 0 <= j < CHUNK_SIZE_BYTES && !old(self).in_cell_upto(dst_a as int, dst_s as int, j, old(self).widths@.len() as int)
                ==> #[trigger] final(self).chunk_bytes()[dst_c as int][j] == old(self).chunk_bytes()[dst_c as int][j],
            forall|i: int, k: int|
                0 <= i < old(self).widths@.len() && old(self).archtypes@.items[dst_a as int].key.scalar_parts.has(i)
                    && 0 <= k < old(self).widths@[i] ==> #[trigger] final(self).chunk_bytes()[dst_c as int][old(self).byte_start(dst_a as int, dst_s as int, i) + k]
                    == old(self).src_byte(src, i, k),
    {
        let ghost o = *self;
        proof {
            assert(o.chunk_ok(dst_c as int));
        }
        let n = self.widths.len();
        let mut i: usize = 0;
        while i < n
            invariant
                n == self.widths@.len(),
                i <= n,
                self.wf_core(),
                self.layout_ok(skip),
                o.wf_core(),
                self.thing_table == o.thing_table,
                self.archtype_table == o.archtype_table,
                self.chunk_table == o.chunk_table,
                self.things == o.things,
                self.archtypes == o.archtypes,
                self.widths@ == o.widths@,
                self.chunks@.items.len() == o.chunks@.items.len(),
                forall|c: int| 0 <= c < self.chunks@.items.len() ==> (#[trigger] self.chunks@.items[c]).id
                    == o.chunks@.items[c].id && self.chunks@.items[c].archtype == o.chunks@.items[c].archtype
                    && self.chunks@.items[c].things@ == o.chunks@.items[c].things@,
                self.things() == o.things(),
                self.archetype_keys() == o.archetype_keys(),
                self.chunk_ids() == o.chunk_ids(),
                self.chunk_lens() == o.chunk_lens(),
                dst_a < self.archtypes@.items.len(),
                dst_c < self.chunks@.items.len(),
                dst_s < self.archtypes@.items[dst_a as int].per_chunk,
                match src {
                    Some(x) => x.0 < self.archtypes@.items.len() && x.1 < self.chunks@.items.len()
                        && x.2 < self.archtypes@.items[x.0 as int].per_chunk
                        && (x.1 == dst_c ==> x.0 == dst_a && x.2 != dst_s),
                    None => true,
                },
                forall|c: int| 0 <= c < o.chunks@.items.len() && c != dst_c ==> #[trigger] self.chunk_bytes()[c]
                    == o.chunk_bytes()[c],
                self.chunk_bytes()[dst_c as int].len() == CHUNK_SIZE_BYTES,
                forall|j: int| 0 <= j < CHUNK_SIZE_BYTES && !o.in_cell_upto(dst_a as int, dst_s as int, j, i as int)
                    ==> #[trigger] self.chunk_bytes()[dst_c as int][j] == o.chunk_bytes()[dst_c as int][j],
                forall|i2: int, k: int|
                    0 <= i2 < i && o.archtypes@.items[dst_a as int].key.scalar_parts.has(i2)
                        && 0 <= k < o.widths@[i2] ==> #[trigger] self.chunk_bytes()[dst_c as int][o.byte_start(dst_a as int, dst_s as int, i2) + k]
                        == o.src_byte(src, i2, k),
            decreases n - i,
        {
            let ghost before = *self;
            if self.archtypes.get(dst_a).key.scalar_parts.contains(i) {
                let w = self.widths[i];
                let dst_start = self.cell_at(dst_a, dst_s, i);
                let mut bytes: Vec<u8> = Vec::with_capacity(w);
                let mut copied = false;
                match src {
                    Some((src_a, src_c, src_s)) => {
                        if self.archtypes.get(src_a).key.scalar_parts.contains(i) {
                            let src_start = self.cell_at(src_a, src_s, i);
                            let chunk = self.chunks.get(src_c);
                            proof {
                                assert(self.chunk_ok(src_c as int));
                                assert(self.chunk_bytes()[src_c as int] == chunk.data@);
                                if src_c == dst_c {
                                    assert forall|k: int| 0 <= k < w implies !#[trigger] o.in_cell_upto(dst_a as int, dst_s as int, src_start + k, i as int) by {
                                        if o.in_cell_upto(dst_a as int, dst_s as int, src_start + k, i as int) {
                                            let i2 = choose|i2: int|
                                                0 <= i2 < i && i2 < o.widths@.len() && #[trigger] o.archtypes@.items[dst_a as int].key.scalar_parts.has(i2)
                                                    && o.byte_start(dst_a as int, dst_s as int, i2) <= src_start + k
                                                    < o.byte_start(dst_a as int, dst_s as int, i2) + o.widths@[i2];
                                            o.lemma_cells_disjoint(dst_a as int, src_s as int, i as int, dst_s as int, i2);
                                        }
                                    }
                                }
                            }
                            let mut k: usize = 0;
                            while k < w
                                invariant
                                    k <= w,
                                    src_start + w <= CHUNK_SIZE_BYTES,
                                    chunk.data@.len() == CHUNK_SIZE_BYTES,
                                    bytes@.len() == k,
                                    forall|k2: int| 0 <= k2 < k ==> #[trigger] bytes@[k2] == chunk.data@[src_start + k2],
                                decreases w - k,
                            {
                                bytes.push(chunk.data[src_start + k]);
                                k = k + 1;
                            }
                            copied = true;
                            proof {
                                assert forall|k2: int| 0 <= k2 < w implies #[trigger] bytes@[k2] == o.src_byte(src, i as int, k2) by {
                                    assert(src_start == o.byte_start(src_a as int, src_s as int, i as int));
                                    if src_c != dst_c {
                                        assert(self.chunk_bytes()[src_c as int] == o.chunk_bytes()[src_c as int]);
                                    } else {
                                        assert(!o.in_cell_upto(dst_a as int, dst_s as int, src_start + k2, i as int));
                                    }
                                }
                            }
                        }
                    },
                    None => {},
                }
                if !copied {
                    let mut k: usize = 0;
                    while k < w
                        invariant
                            k <= w,
                            bytes@.len() == k,
                            forall|k2: int| 0 <= k2 < k ==> #[trigger] bytes@[k2] == 0u8,
                        decreases w - k,
                    {
                        bytes.push(0u8);
                        k = k + 1;
                    }
                }
                proof {
                    assert forall|k2: int| 0 <= k2 < w implies #[trigger] bytes@[k2] == o.src_byte(src, i as int, k2) by {
                    }
                }
                let ghost mid = *self;
                proof {
                    assert(mid.chunk_ok(dst_c as int));
                }
                let mut chunk = self.chunks.replace(dst_c, Chunk { id: ChunkId(0), archtype: 0, things: Vec::new(), data: Vec::new() });
                let ghost prev = chunk.data@;
                let mut k: usize = 0;
                while k < w
                    invariant
                        k <= w,
                        bytes@.len() == w,
                        dst_start + w <= CHUNK_SIZE_BYTES,
                        prev.len() == CHUNK_SIZE_BYTES,
                        chunk.data@.len() == CHUNK_SIZE_BYTES,
                        chunk.id == mid.chunks@.items[dst_c as int].id,
                        chunk.archtype == mid.chunks@.items[dst_c as int].archtype,
                        chunk.things@ == mid.chunks@.items[dst_c as int].things@,
                        forall|j: int| 0 <= j < CHUNK_SIZE_BYTES ==> #[trigger] chunk.data@[j] == if dst_start <= j < dst_start + k {
                            bytes@[j - dst_start]
                        } else {
                            prev[j]
                        },
                    decreases w - k,
                {
                    chunk.data.set(dst_start + k, bytes[k]);
                    k = k + 1;
                }
                self.chunks.replace(dst_c, chunk);
                proof {
                    self.lemma_bytes_kept(mid, skip);
                    assert(self.chunk_bytes()[dst_c as int] == self.chunks@.items[dst_c as int].data@);
                    assert(mid.chunk_bytes()[dst_c as int] == prev);
                    assert forall|c: int| 0 <= c < o.chunks@.items.len() && c != dst_c implies #[trigger] self.chunk_bytes()[c]
                        == o.chunk_bytes()[c] by {
                        assert(self.chunk_bytes()[c] == mid.chunk_bytes()[c]);
                    }
                    assert(dst_start == o.byte_start(dst_a as int, dst_s as int, i as int));
                    assert forall|j: int| 0 <= j < CHUNK_SIZE_BYTES && !o.in_cell_upto(dst_a as int, dst_s as int, j, i + 1)
                        implies #[trigger] self.chunk_bytes()[dst_c as int][j] == o.chunk_bytes()[dst_c as int][j] by {
                        if dst_start <= j < dst_start + w {
                            assert(o.archtypes@.items[dst_a as int].key.scalar_parts.has(i as int));
                            assert(o.in_cell_upto(dst_a as int, dst_s as int, j, i + 1));
                        }
                        if o.in_cell_upto(dst_a as int, dst_s as int, j, i as int) {
                            let i2 = choose|i2: int|
                                0 <= i2 < i && i2 < o.widths@.len() && #[trigger] o.archtypes@.items[dst_a as int].key.scalar_parts.has(i2)
                                    && o.byte_start(dst_a as int, dst_s as int, i2) <= j
                                    < o.byte_start(dst_a as int, dst_s as int, i2) + o.widths@[i2];
                            assert(o.in_cell_upto(dst_a as int, dst_s as int, j, i + 1));
                        }
                    }
                    assert forall|i2: int, k2: int|
                        0 <= i2 < i + 1 && o.archtypes@.items[dst_a as int].key.scalar_parts.has(i2)
                            && 0 <= k2 < o.widths@[i2] implies #[trigger] self.chunk_bytes()[dst_c as int][o.byte_start(dst_a as int, dst_s as int, i2) + k2]
                            == o.src_byte(src, i2, k2) by {
                        let x = o.byte_start(dst_a as int, dst_s as int, i2) + k2;
                        o.lemma_byte_range(dst_a as int, dst_s as int, i2);
                        if i2 < i {
                            o.lemma_cells_disjoint(dst_a as int, dst_s as int, i2, dst_s as int, i as int);
                            assert(x < dst_start || x >= dst_start + w);
                            assert(self.chunk_bytes()[dst_c as int][x] == prev[x]);
                            assert(mid.chunk_bytes()[dst_c as int][x] == o.src_byte(src, i2, k2));
                        } else {
                            assert(i2 == i);
                            assert(self.chunk_bytes()[dst_c as int][x] == bytes@[k2]);
                        }
                    }
                }
            } else {
                proof {
                    assert forall|j: int| 0 <= j < CHUNK_SIZE_BYTES && !o.in_cell_upto(dst_a as int, dst_s as int, j, i + 1)
                        implies #[trigger] self.chunk_bytes()[dst_c as int][j] == o.chunk_bytes()[dst_c as int][j] by {
                        if o.in_cell_upto(dst_a as int, dst_s as int, j, i as int) {
                            let i2 = choose|i2: int|
                                0 <= i2 < i && i2 < o.widths@.len() && #[trigger] o.archtypes@.items[dst_a as int].key.scalar_parts.has(i2)
                                    && o.byte_start(dst_a as int, dst_s as int, i2) <= j
                                    < o.byte_start(dst_a as int, dst_s as int, i2) + o.widths@[i2];
                            assert(o.in_cell_upto(dst_a as int, dst_s as int, j, i + 1));
                        }
                    }
                }
            }
            i = i + 1;
        }
    }

}

/// Things with the same parts share one archetype.
pub proof fn lemma_same_key_same_archetype(w: &World, x: ThingId, y: ThingId)
    requires
        w.wf(),
        w.things().contains_key(x),
        w.things().contains_key(y),
        w.things()[x] == w.things()[y],
    ensures
        w.archetype_index(x) == w.archetype_index(y),
{
    assert(w.record_ok(w.record_index(x)->Some_0 as int));
    assert(w.record_ok(w.record_index(y)->Some_0 as int));
}

/// Chunks are dense: every occupied cell holds exactly the live thing whose location names it.
pub proof fn lemma_cells_hold_live_things(w: &World, c: int, s: int)
    requires
        w.wf(),
        0 <= c < w.chunk_ids().len(),
        0 <= s < w.chunk_lens()[c],
    ensures
        exists|id: ThingId|
            #[trigger] w.things().contains_key(id) && w.chunk_index(id) == c && w.slot_index(id) == s,
{
    assert(w.cell_ok(c, s, -1));
    let q = w.chunks@.items[c].things@[s];
    assert(w.record_ok(q as int));
    let id = w.records()[q as int].id;
    assert(w.record_index(id) == Some(q));
    assert(w.things().contains_key(id));
}

/// A thing is in exactly one cell: two live things never share a chunk slot.
pub proof fn lemma_one_thing_per_cell(w: &World, x: ThingId, y: ThingId)
    requires
        w.wf(),
        w.things().contains_key(x),
        w.things().contains_key(y),
        x != y,
    ensures
        w.chunk_index(x) != w.chunk_index(y) || w.slot_index(x) != w.slot_index(y),
{
    let px = w.record_index(x)->Some_0 as int;
    let py = w.record_index(y)->Some_0 as int;
    assert(w.occ_ok(px));
    assert(w.occ_ok(py));
    w.thing_table.lemma_view_wf();
    let m = w.tv().mask();
    lemma_pack_split(x.0, m);
    lemma_pack_split(y.0, m);
    assert(w.slot_ok(w.tv().index_of(x.0) as int));
    assert(w.slot_ok(w.tv().index_of(y.0) as int));
}

} // verus!

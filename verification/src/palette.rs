//! Paletted volumetric container: a three-dimensional volume of block-state
//! or biome ids stored as bit-packed palette indices, with lazy promotion
//! of the palette as new values arrive.

use vstd::prelude::*;
use crate::bits::BitStorage;
use crate::bits::mask64;
use crate::bits::lemma_mask64_absorb;
use crate::bits::lemma_mask64_step;
use crate::bits::lemma_mask64_mono;
use crate::bits::lemma_mask64_u32;
use crate::error::ReadError;

verus! {

/// What the container stores; this fixes its dimensions and the bit-width
/// thresholds for palette selection.
#[derive(Clone, Copy, Debug, PartialEq, Eq, Structural)]
pub enum PalettedContainerType {
    Biomes,
    BlockStates,
}

/// The shape of a palette, as selected from the bit width.
#[derive(Clone, Copy, Debug, PartialEq, Eq, Structural)]
pub enum PaletteType {
    SingleValue,
    Linear,
    Hashmap,
    Global,
}

/// The lookup from compact storage ids to domain values.
#[derive(Clone, Debug)]
pub enum Palette {
    /// The whole container holds this one value.
    SingleValue(u32),
    /// Small dense lookup: the id is the position in the list.
    Linear(Vec<u32>),
    /// Larger lookup with the same positional indexing.
    Hashmap(Vec<u32>),
    /// Identity mapping: the stored bits are the value.
    Global,
}

impl PalettedContainerType {
    /// Bits per cell coordinate axis.
    pub open spec fn size_bits_spec(&self) -> nat {
        match self {
            PalettedContainerType::BlockStates => 4,
            PalettedContainerType::Biomes => 2,
        }
    }

    /// Cells along one axis.
    pub open spec fn dim_spec(&self) -> nat {
        match self {
            PalettedContainerType::BlockStates => 16,
            PalettedContainerType::Biomes => 4,
        }
    }

    /// Total number of cells.
    pub open spec fn size_spec(&self) -> nat {
        match self {
            PalettedContainerType::BlockStates => 4096,
            PalettedContainerType::Biomes => 64,
        }
    }

    /// The bit width at which the palette becomes the identity mapping.
    pub open spec fn global_bits_spec(&self) -> nat {
        match self {
            PalettedContainerType::BlockStates => 9,
            PalettedContainerType::Biomes => 4,
        }
    }

    pub fn size_bits(&self) -> (r: usize)
        ensures
            r as nat == self.size_bits_spec(),
    {
        match self {
            PalettedContainerType::BlockStates => 4,
            PalettedContainerType::Biomes => 2,
        }
    }

    pub fn size(&self) -> (r: usize)
        ensures
            r as nat == self.size_spec(),
    {
        match self {
            PalettedContainerType::BlockStates => 4096,
            PalettedContainerType::Biomes => 64,
        }
    }
}

/// Which palette shape a given bit width selects for a container type.
pub open spec fn palette_type_spec(bits: nat, ct: PalettedContainerType) -> PaletteType {
    match ct {
        PalettedContainerType::BlockStates => if bits == 0 {
            PaletteType::SingleValue
        } else if bits <= 4 {
            PaletteType::Linear
        } else if bits <= 8 {
            PaletteType::Hashmap
        } else {
            PaletteType::Global
        },
        PalettedContainerType::Biomes => if bits == 0 {
            PaletteType::SingleValue
        } else if bits <= 3 {
            PaletteType::Linear
        } else {
            PaletteType::Global
        },
    }
}

impl PaletteType {
    pub fn from_bits_and_type(bits_per_entry: u8, container_type: &PalettedContainerType) -> (r:
        PaletteType)
        ensures
            r == palette_type_spec(bits_per_entry as nat, *container_type),
    {
        match container_type {
            PalettedContainerType::BlockStates => {
                if bits_per_entry == 0 {
                    PaletteType::SingleValue
                } else if bits_per_entry <= 4 {
                    PaletteType::Linear
                } else if bits_per_entry <= 8 {
                    PaletteType::Hashmap
                } else {
                    PaletteType::Global
                }
            },
            PalettedContainerType::Biomes => {
                if bits_per_entry == 0 {
                    PaletteType::SingleValue
                } else if bits_per_entry <= 3 {
                    PaletteType::Linear
                } else {
                    PaletteType::Global
                }
            },
        }
    }

    /// The fresh, empty palette of this shape.
    pub fn into_empty_palette(&self) -> (r: Palette)
        ensures
            r.type_spec() == *self,
            r.entries_spec() == (if *self == PaletteType::SingleValue {
                seq![0u32]
            } else {
                Seq::<u32>::empty()
            }),
    {
        let r = match self {
            PaletteType::SingleValue => Palette::SingleValue(0),
            PaletteType::Linear => Palette::Linear(Vec::new()),
            PaletteType::Hashmap => Palette::Hashmap(Vec::new()),
            PaletteType::Global => Palette::Global,
        };
        proof {
            if *self == PaletteType::SingleValue {
                assert(r.entries_spec() =~= seq![0u32]);
            } else {
                assert(r.entries_spec() =~= Seq::<u32>::empty());
            }
        }
        r
    }
}

impl Palette {
    /// The shape of this palette.
    pub open spec fn type_spec(&self) -> PaletteType {
        match self {
            Palette::SingleValue(_) => PaletteType::SingleValue,
            Palette::Linear(_) => PaletteType::Linear,
            Palette::Hashmap(_) => PaletteType::Hashmap,
            Palette::Global => PaletteType::Global,
        }
    }

    /// The palette's entry list: one entry for the single value, the list
    /// itself for the indexed shapes, nothing for the identity mapping.
    pub open spec fn entries_spec(&self) -> Seq<u32> {
        match self {
            Palette::SingleValue(v) => seq![*v],
            Palette::Linear(l) => l@,
            Palette::Hashmap(l) => l@,
            Palette::Global => Seq::empty(),
        }
    }

    /// Whether `id` addresses a value in this palette.
    pub open spec fn id_ok(&self, id: nat) -> bool {
        match self {
            Palette::SingleValue(_) => true,
            Palette::Linear(l) => id < l@.len(),
            Palette::Hashmap(l) => id < l@.len(),
            Palette::Global => id <= u32::MAX as nat,
        }
    }

    /// The domain value an id maps to.
    pub open spec fn value_spec(&self, id: nat) -> u32 {
        match self {
            Palette::SingleValue(v) => *v,
            Palette::Linear(l) => if id < l@.len() {
                l@[id as int]
            } else {
                0u32
            },
            Palette::Hashmap(l) => if id < l@.len() {
                l@[id as int]
            } else {
                0u32
            },
            Palette::Global => id as u32,
        }
    }

    /// The shape of this palette, as a value.
    pub fn type_of(&self) -> (r: PaletteType)
        ensures
            r == self.type_spec(),
    {
        match self {
            Palette::SingleValue(_) => PaletteType::SingleValue,
            Palette::Linear(_) => PaletteType::Linear,
            Palette::Hashmap(_) => PaletteType::Hashmap,
            Palette::Global => PaletteType::Global,
        }
    }

    /// Map a storage id back to its domain value.
    pub fn value_for(&self, id: usize) -> (r: u32)
        requires
            self.id_ok(id as nat),
        ensures
            r == self.value_spec(id as nat),
    {
        match self {
            Palette::SingleValue(v) => *v,
            Palette::Linear(l) => l[id],
            Palette::Hashmap(l) => l[id],
            Palette::Global => id as u32,
        }
    }
}

/// Position of `value` in `list`, if present.
fn find_in(list: &Vec<u32>, value: u32) -> (r: Option<usize>)
    ensures
        (match r {
            Some(i) => i < list@.len() && list@[i as int] == value,
            None => forall|k: int| 0 <= k < list@.len() ==> list@[k] != value,
        }),
{
    let mut i: usize = 0;
    while i < list.len()
        invariant
            i <= list@.len(),
            forall|k: int| 0 <= k < i ==> list@[k] != value,
        decreases list@.len() - i as nat,
    {
        if list[i] == value {
            return Some(i);
        }
        i = i + 1;
    }
    None
}

} // verus!

verus! {

use vstd::set_lib::lemma_len_subset;

/// The three-dimensional paletted volume: bit-packed palette indices plus
/// the palette that maps them to domain values.
#[derive(Clone, Debug)]
pub struct PalettedContainer {
    pub bits_per_entry: u8,
    pub palette: Palette,
    /// Compacted list of indices pointing to entries of the palette.
    pub storage: BitStorage,
    pub container_type: PalettedContainerType,
}

/// Linear index of cell `(x, y, z)`.
pub open spec fn index_spec(ct: PalettedContainerType, x: nat, y: nat, z: nat) -> nat {
    (y * ct.dim_spec() + z) * ct.dim_spec() + x
}

proof fn lemma_bv_index4(x: usize, y: usize, z: usize)
    by (bit_vector)
    requires
        x < 16,
        y < 16,
        z < 16,
    ensures
        ((((y << 4usize) | z) << 4usize) | x) == y * 256 + z * 16 + x,
{
}

proof fn lemma_bv_index2(x: usize, y: usize, z: usize)
    by (bit_vector)
    requires
        x < 4,
        y < 4,
        z < 4,
    ensures
        ((((y << 2usize) | z) << 2usize) | x) == y * 16 + z * 4 + x,
{
}

impl PalettedContainer {
    /// The domain value of every cell, in linear index order.
    pub open spec fn contents(&self) -> Seq<u32> {
        Seq::new(
            self.container_type.size_spec(),
            |i: int| self.palette.value_spec(self.storage@[i] as nat),
        )
    }

    /// Well-formedness of an indexed palette: entries are distinct, the
    /// list fits the cell width, and every stored id points into it.
    pub open spec fn indexed_wf(&self, l: Seq<u32>) -> bool {
        &&& l.no_duplicates()
        &&& l.len() <= mask64(self.bits_per_entry as nat) as nat + 1
        &&& forall|i: int|
            0 <= i < self.storage@.len() ==> (#[trigger] self.storage@[i] as nat) < l.len()
    }

    /// The container's invariant: storage geometry matches the container
    /// type, and the palette variant is the one its bit width selects.
    pub open spec fn wf(&self) -> bool {
        &&& self.storage.wf()
        &&& self.storage.size_spec() == self.container_type.size_spec()
        &&& self.storage.bits_spec() == self.bits_per_entry as nat
        &&& self.palette.type_spec() == palette_type_spec(
            self.bits_per_entry as nat,
            self.container_type,
        )
        &&& match self.palette {
            Palette::SingleValue(_) => true,
            Palette::Linear(l) => self.indexed_wf(l@),
            Palette::Hashmap(l) => self.indexed_wf(l@),
            Palette::Global => self.bits_per_entry <= 32,
        }
    }

    /// All palette entries fit the width of the widest palette the
    /// container can grow into, so promotion never truncates a value.
    pub open spec fn values_fit(&self) -> bool {
        match self.palette {
            Palette::Global => true,
            _ => forall|k: int|
                0 <= k < self.palette.entries_spec().len() ==> (
                #[trigger] self.palette.entries_spec()[k] as u64) <= mask64(
                    self.container_type.global_bits_spec(),
                ),
        }
    }

    /// Values a write may carry: they must survive promotion up to the
    /// identity palette (or fit the current cells if already there).
    pub open spec fn value_ok(&self, value: u32) -> bool {
        match self.palette {
            Palette::Global => value as u64 <= mask64(self.bits_per_entry as nat),
            _ => value as u64 <= mask64(self.container_type.global_bits_spec()),
        }
    }

    /// A fresh container: one value, zero, everywhere.
    pub fn new(container_type: &PalettedContainerType) -> (r: Result<PalettedContainer, String>)
        ensures
            r is Ok,
            r matches Ok(c) ==> {
                &&& c.wf()
                &&& c.values_fit()
                &&& c.bits_per_entry == 0
                &&& c.container_type == *container_type
                &&& c.palette == Palette::SingleValue(0u32)
                &&& c.contents() == Seq::new(container_type.size_spec(), |i: int| 0u32)
            },
    {
        let palette = Palette::SingleValue(0);
        let size = container_type.size();
        let storage = match BitStorage::new(0, size, Some(Vec::new())) {
            Ok(s) => s,
            Err(e) => {
                return Err(e);
            },
        };
        let c = PalettedContainer {
            bits_per_entry: 0,
            palette,
            storage,
            container_type: *container_type,
        };
        proof {
            assert(c.contents() =~= Seq::new(container_type.size_spec(), |i: int| 0u32));
        }
        Ok(c)
    }

    /// Linear index of the cell at `(x, y, z)`.
    pub fn get_index(&self, x: usize, y: usize, z: usize) -> (r: usize)
        requires
            (x as nat) < self.container_type.dim_spec(),
            (y as nat) < self.container_type.dim_spec(),
            (z as nat) < self.container_type.dim_spec(),
        ensures
            r as nat == index_spec(self.container_type, x as nat, y as nat, z as nat),
            (r as nat) < self.container_type.size_spec(),
    {
        let size_bits = self.container_type.size_bits();
        let r = (((y << size_bits) | z) << size_bits) | x;
        proof {
            match self.container_type {
                PalettedContainerType::BlockStates => {
                    lemma_bv_index4(x, y, z);
                },
                PalettedContainerType::Biomes => {
                    lemma_bv_index2(x, y, z);
                },
            }
        }
        r
    }

    /// The value stored at `(x, y, z)`.
    pub fn get(&self, x: usize, y: usize, z: usize) -> (r: u32)
        requires
            self.wf(),
            (x as nat) < self.container_type.dim_spec(),
            (y as nat) < self.container_type.dim_spec(),
            (z as nat) < self.container_type.dim_spec(),
        ensures
            r == self.contents()[index_spec(self.container_type, x as nat, y as nat, z as nat) as int],
    {
        let index = self.get_index(x, y, z);
        let cell: u64 = self.storage.get(index);
        proof {
            assert(self.bits_per_entry <= 32);
            lemma_mask64_u32(self.bits_per_entry as nat);
            assert(cell <= u32::MAX as u64);
        }
        self.palette.value_for(cell as usize)
    }
}

} // verus!

verus! {

/// How a write evolves an indexed palette: a present value changes
/// nothing; a missing value is appended while there is room, and otherwise
/// the container grows one bit wider.
pub open spec fn indexed_evolution(
    pre: PalettedContainer,
    post: PalettedContainer,
    entries: Seq<u32>,
    value: u32,
) -> bool {
    if entries.contains(value) {
        post.palette == pre.palette && post.bits_per_entry == pre.bits_per_entry
    } else if entries.len() <= mask64(pre.bits_per_entry as nat) as nat {
        post.palette.entries_spec() == entries.push(value) && post.bits_per_entry
            == pre.bits_per_entry
    } else {
        post.bits_per_entry == pre.bits_per_entry + 1
    }
}

/// How a write of `value` may change the palette: the width never shrinks;
/// a representable value changes nothing; a single-value miss moves to
/// width one; an indexed palette follows `indexed_evolution`; the identity
/// palette never changes.
pub open spec fn palette_evolution(
    pre: PalettedContainer,
    post: PalettedContainer,
    value: u32,
) -> bool {
    &&& post.bits_per_entry >= pre.bits_per_entry
    &&& match pre.palette {
        Palette::SingleValue(v) => if v == value {
            post.palette == pre.palette && post.bits_per_entry == pre.bits_per_entry
        } else {
            post.bits_per_entry == 1
        },
        Palette::Linear(l) => indexed_evolution(pre, post, l@, value),
        Palette::Hashmap(l) => indexed_evolution(pre, post, l@, value),
        Palette::Global => post.palette == pre.palette && post.bits_per_entry
            == pre.bits_per_entry,
    }
}

/// How `id_for` evolves an indexed palette: a present value keeps
/// everything unchanged and returns its position; a missing value is
/// appended while there is room, and otherwise the container is rebuilt
/// one bit wider.
pub open spec fn id_for_indexed_post(
    pre: PalettedContainer,
    post: PalettedContainer,
    entries: Seq<u32>,
    value: u32,
    r: nat,
) -> bool {
    if entries.contains(value) {
        &&& post.palette == pre.palette
        &&& post.storage == pre.storage
        &&& post.bits_per_entry == pre.bits_per_entry
        &&& r < entries.len() && entries[r as int] == value
    } else if entries.len() <= mask64(pre.bits_per_entry as nat) as nat {
        &&& post.palette.entries_spec() == entries.push(value)
        &&& post.storage == pre.storage
        &&& post.bits_per_entry == pre.bits_per_entry
        &&& r == entries.len()
    } else {
        post.bits_per_entry == pre.bits_per_entry + 1
    }
}

/// What `id_for` decided to do after inspecting the palette.
enum IdPlan {
    /// The value already has this id.
    Use(usize),
    /// Append the value to the indexed palette.
    Push,
    /// Rebuild the container at this bit width, then map the value.
    Grow(u8),
}

/// Insert `value` into a non-single-value palette that has room (or
/// already contains it), returning its id.
fn palette_insert(pal: &mut Palette, bits: u8, value: u32) -> (r: usize)
    requires
        old(pal).type_spec() != PaletteType::SingleValue,
        1 <= bits <= 32,
        old(pal).entries_spec().no_duplicates(),
        old(pal).type_spec() != PaletteType::Global ==> old(pal).entries_spec().len() <= mask64(
            bits as nat,
        ) as nat,
        old(pal).type_spec() == PaletteType::Global ==> value as u64 <= mask64(bits as nat),
    ensures
        final(pal).type_spec() == old(pal).type_spec(),
        final(pal).entries_spec().no_duplicates(),
        final(pal).entries_spec() == old(pal).entries_spec() || final(pal).entries_spec() == old(
            pal,
        ).entries_spec().push(value),
        final(pal).entries_spec() == old(pal).entries_spec().push(value) ==> !old(
            pal,
        ).entries_spec().contains(value),
        final(pal).id_ok(r as nat),
        final(pal).value_spec(r as nat) == value,
        r as u64 <= mask64(bits as nat),
        forall|id: int|
            0 <= id < old(pal).entries_spec().len() ==> #[trigger] final(pal).value_spec(
                id as nat,
            ) == old(pal).value_spec(id as nat),
{
    proof {
        lemma_mask64_u32(bits as nat);
    }
    match pal {
        Palette::Linear(list) => {
            match find_in(list, value) {
                Some(i) => i,
                None => {
                    list.push(value);
                    list.len() - 1
                },
            }
        },
        Palette::Hashmap(list) => {
            match find_in(list, value) {
                Some(i) => i,
                None => {
                    list.push(value);
                    list.len() - 1
                },
            }
        },
        Palette::Global => value as usize,
        Palette::SingleValue(_) => vstd::pervasive::unreached(),
    }
}

} // verus!

verus! {

impl PalettedContainer {
    /// Rebuild the container at a wider cell width, re-mapping every cell
    /// through a fresh palette, then map `value` in the new palette. The
    /// copy runs to completion before the new state is installed.
    #[verifier::loop_isolation(false)]
    fn on_resize(&mut self, bits_per_entry: u8, value: u32) -> (r: usize)
        requires
            old(self).wf(),
            old(self).values_fit(),
            old(self).palette.type_spec() != PaletteType::Global,
            value as u64 <= mask64(old(self).container_type.global_bits_spec()),
            old(self).bits_per_entry < bits_per_entry,
            bits_per_entry as nat <= old(self).container_type.global_bits_spec(),
        ensures
            final(self).wf(),
            final(self).values_fit(),
            final(self).container_type == old(self).container_type,
            final(self).bits_per_entry == bits_per_entry,
            final(self).contents() == old(self).contents(),
            final(self).palette.id_ok(r as nat),
            final(self).palette.value_spec(r as nat) == value,
            r as u64 <= mask64(bits_per_entry as nat),
        decreases 0nat,
    {
        broadcast use vstd::seq_lib::seq_to_set_is_finite;

        let ct = self.container_type;
        let size = ct.size();
        let ghost gb = ct.global_bits_spec();
        let ghost obits = self.bits_per_entry as nat;
        let ghost nbits = bits_per_entry as nat;
        let ghost old_entries = self.palette.entries_spec();
        proof {
            // the old entry list is duplicate-free and fits the old width
            match &self.palette {
                Palette::SingleValue(_) => {
                    assert(old_entries.no_duplicates());
                    assert(old_entries.len() == 1);
                },
                Palette::Linear(_) => {},
                Palette::Hashmap(_) => {},
                Palette::Global => {},
            }
            assert(old_entries.len() <= mask64(obits) as nat + 1);
            lemma_mask64_step(obits, nbits);
            old_entries.unique_seq_to_set();
            lemma_mask64_u32(nbits);
            lemma_mask64_mono(nbits, gb);
        }
        let new_type = PaletteType::from_bits_and_type(bits_per_entry, &ct);
        let mut new_palette = new_type.into_empty_palette();
        let mut new_storage = match BitStorage::new(bits_per_entry as usize, size, None) {
            Ok(s) => s,
            Err(_) => vstd::pervasive::unreached(),
        };
        proof {
            // when the new palette is the identity, its width is the global width
            if new_type == PaletteType::Global {
                assert(nbits == gb);
            }
        }
        let mut i: usize = 0;
        while i < size
            invariant
                i <= size,
                size as nat == ct.size_spec(),
                self == old(self),
                ct == old(self).container_type,
                gb == ct.global_bits_spec(),
                obits == old(self).bits_per_entry as nat,
                nbits == bits_per_entry as nat,
                1 <= nbits <= gb <= 32,
                obits < nbits,
                old_entries == old(self).palette.entries_spec(),
                old_entries.no_duplicates(),
                old_entries.len() <= mask64(obits) as nat + 1,
                mask64(obits) as nat + 1 <= mask64(nbits) as nat,
                old_entries.len() == old_entries.to_set().len(),
                new_type == palette_type_spec(nbits, ct),
                new_type != PaletteType::SingleValue,
                new_type == PaletteType::Global ==> nbits == gb,
                new_storage.wf(),
                new_storage.bits_spec() == nbits,
                new_storage.size_spec() == size as nat,
                new_palette.type_spec() == new_type,
                new_palette.entries_spec().no_duplicates(),
                forall|k: int|
                    0 <= k < new_palette.entries_spec().len() ==> old_entries.contains(
                        #[trigger] new_palette.entries_spec()[k],
                    ),
                forall|k: int|
                    0 <= k < new_palette.entries_spec().len() ==> (
                    #[trigger] new_palette.entries_spec()[k] as u64) <= mask64(gb),
                new_palette.entries_spec().len() <= old_entries.len(),
                forall|j: int|
                    0 <= j < i ==> #[trigger] new_palette.value_spec(new_storage@[j] as nat)
                        == old(self).contents()[j],
                forall|j: int| 0 <= j < i ==> new_palette.id_ok(#[trigger] new_storage@[j] as nat),
            decreases size - i,
        {
            let cell: u64 = self.storage.get(i);
            proof {
                lemma_mask64_u32(obits);
                assert(self.palette.id_ok(cell as nat));
            }
            let v: u32 = self.palette.value_for(cell as usize);
            proof {
                // the copied value is one of the old palette's entries
                match &self.palette {
                    Palette::SingleValue(w) => {
                        assert(old_entries[0] == w);
                        assert(old_entries.contains(v));
                    },
                    Palette::Linear(l) => {
                        assert(old_entries[cell as int] == v);
                        assert(old_entries.contains(v));
                    },
                    Palette::Hashmap(l) => {
                        assert(old_entries[cell as int] == v);
                        assert(old_entries.contains(v));
                    },
                    Palette::Global => {},
                }
                assert(v as u64 <= mask64(gb));
            }
            let ghost pre_entries = new_palette.entries_spec();
            let ghost pre_pal = new_palette;
            let id = palette_insert(&mut new_palette, bits_per_entry, v);
            proof {
                let entries = new_palette.entries_spec();
                if entries == pre_entries.push(v) {
                    // a fresh value was appended: distinct entries drawn
                    // from the old set keep the count below the old count
                    assert forall|e: u32| entries.to_set().contains(e) implies
                        old_entries.to_set().contains(e) by {
                        assert(entries.contains(e));
                        let k = choose|k: int| 0 <= k < entries.len() && entries[k] == e;
                        assert(old_entries.contains(entries[k]));
                    }
                    assert(entries.to_set().subset_of(old_entries.to_set()));
                    entries.unique_seq_to_set();
                    lemma_len_subset(entries.to_set(), old_entries.to_set());
                }
            }
            let ghost pre_storage = new_storage@;
            new_storage.set(i, id as u64);
            proof {
                lemma_mask64_absorb(id as u64, nbits);
                assert(new_storage@[i as int] == id as u64);
                assert(new_palette.value_spec(id as nat) == v);
                assert(old(self).contents()[i as int] == old(self).palette.value_spec(
                    old(self).storage@[i as int] as nat,
                ));
                assert forall|j: int| 0 <= j < i + 1 implies #[trigger] new_palette.value_spec(
                    new_storage@[j] as nat,
                ) == old(self).contents()[j] by {
                    if j < i {
                        assert(new_storage@[j] == pre_storage[j]);
                        assert(pre_pal.value_spec(pre_storage[j] as nat) == old(
                            self,
                        ).contents()[j]);
                        if new_palette is Global {
                            assert(new_palette.value_spec(pre_storage[j] as nat) == pre_storage[j]
                                as u32);
                            assert(pre_pal.value_spec(pre_storage[j] as nat) == pre_storage[j]
                                as u32);
                        } else {
                            assert((pre_storage[j] as nat) < pre_entries.len());
                            let idj: int = pre_storage[j] as int;
                            assert(new_palette.value_spec(idj as nat) == pre_pal.value_spec(
                                idj as nat,
                            ));
                            assert(idj as nat == pre_storage[j] as nat);
                        }
                    }
                }
                assert forall|j: int| 0 <= j < i + 1 implies new_palette.id_ok(
                    #[trigger] new_storage@[j] as nat,
                ) by {
                    if j < i {
                        assert(new_storage@[j] == pre_storage[j]);
                        assert(new_palette.entries_spec().len() >= pre_entries.len());
                    }
                }
            }
            i = i + 1;
        }
        let ghost pre_entries = new_palette.entries_spec();
        let ghost pre_pal = new_palette;
        let tid = palette_insert(&mut new_palette, bits_per_entry, value);
        proof {
            assert forall|j: int| 0 <= j < size implies #[trigger] new_palette.value_spec(
                new_storage@[j] as nat,
            ) == old(self).contents()[j] by {
                assert(pre_pal.value_spec(new_storage@[j] as nat) == old(self).contents()[j]);
                if new_palette is Global {
                    assert(new_palette.value_spec(new_storage@[j] as nat) == new_storage@[j]
                        as u32);
                    assert(pre_pal.value_spec(new_storage@[j] as nat) == new_storage@[j] as u32);
                } else {
                    assert((new_storage@[j] as nat) < pre_entries.len());
                    let idj: int = new_storage@[j] as int;
                    assert(new_palette.value_spec(idj as nat) == pre_pal.value_spec(idj as nat));
                    assert(idj as nat == new_storage@[j] as nat);
                }
            }
            assert forall|j: int| 0 <= j < size implies new_palette.id_ok(
                #[trigger] new_storage@[j] as nat,
            ) by {
                assert(new_palette.entries_spec().len() >= pre_entries.len());
            }
        }
        self.bits_per_entry = bits_per_entry;
        self.palette = new_palette;
        self.storage = new_storage;
        proof {
            assert(self.contents() =~= old(self).contents());
            match &self.palette {
                Palette::Linear(l) => {
                    assert(self.indexed_wf(l@));
                },
                Palette::Hashmap(l) => {
                    assert(self.indexed_wf(l@));
                },
                Palette::SingleValue(_) => {},
                Palette::Global => {},
            }
        }
        tid
    }
}

} // verus!

verus! {

impl PalettedContainer {
    /// The id that `value` maps to, registering it in the palette if it is
    /// new; the palette is promoted to a wider form when it is full.
    pub fn id_for(&mut self, value: u32) -> (r: usize)
        requires
            old(self).wf(),
            old(self).values_fit(),
            old(self).value_ok(value),
        ensures
            final(self).wf(),
            final(self).values_fit(),
            final(self).container_type == old(self).container_type,
            final(self).contents() == old(self).contents(),
            final(self).palette.id_ok(r as nat),
            final(self).palette.value_spec(r as nat) == value,
            r as u64 <= mask64(final(self).bits_per_entry as nat),
            palette_evolution(*old(self), *final(self), value),
            final(self).bits_per_entry >= old(self).bits_per_entry,
            (match old(self).palette {
                Palette::SingleValue(v) => if v == value {
                    final(self).palette == old(self).palette && final(self).storage == old(
                        self,
                    ).storage && final(self).bits_per_entry == old(self).bits_per_entry && r == 0
                } else {
                    final(self).bits_per_entry == 1
                },
                Palette::Linear(l) => id_for_indexed_post(
                    *old(self),
                    *final(self),
                    l@,
                    value,
                    r as nat,
                ),
                Palette::Hashmap(l) => id_for_indexed_post(
                    *old(self),
                    *final(self),
                    l@,
                    value,
                    r as nat,
                ),
                Palette::Global => final(self).palette == old(self).palette && final(self).storage
                    == old(self).storage && final(self).bits_per_entry == old(self).bits_per_entry
                    && r as nat == value as nat,
            }),
    {
        proof {
            if !(self.palette is Global) {
                assert((self.bits_per_entry as nat)
                    < self.container_type.global_bits_spec());
            }
        }
        let mask: u64 = if self.bits_per_entry == 0 {
            0
        } else {
            u64::MAX >> (64 - self.bits_per_entry as u64)
        };
        proof {
            assert(mask == mask64(self.bits_per_entry as nat));
        }
        let plan = match &self.palette {
            Palette::SingleValue(v) => {
                if *v == value {
                    IdPlan::Use(0)
                } else {
                    IdPlan::Grow(1)
                }
            },
            Palette::Linear(list) => {
                match find_in(list, value) {
                    Some(i) => IdPlan::Use(i),
                    None => {
                        if (list.len() as u64) <= mask {
                            IdPlan::Push
                        } else {
                            IdPlan::Grow(self.bits_per_entry + 1)
                        }
                    },
                }
            },
            Palette::Hashmap(list) => {
                match find_in(list, value) {
                    Some(i) => IdPlan::Use(i),
                    None => {
                        if (list.len() as u64) <= mask {
                            IdPlan::Push
                        } else {
                            IdPlan::Grow(self.bits_per_entry + 1)
                        }
                    },
                }
            },
            Palette::Global => IdPlan::Use(value as usize),
        };
        match plan {
            IdPlan::Use(i) => {
                proof {
                    if self.palette is Global {
                        assert(self.palette.value_spec(i as nat) == value);
                    }
                }
                i
            },
            IdPlan::Push => {
                let ghost pre = *self;
                let r = match &mut self.palette {
                    Palette::Linear(list) => {
                        list.push(value);
                        list.len() - 1
                    },
                    Palette::Hashmap(list) => {
                        list.push(value);
                        list.len() - 1
                    },
                    _ => vstd::pervasive::unreached(),
                };
                proof {
                    assert(self.contents() =~= pre.contents());
                    match &self.palette {
                        Palette::Linear(l) => {
                            assert(self.indexed_wf(l@));
                        },
                        Palette::Hashmap(l) => {
                            assert(self.indexed_wf(l@));
                        },
                        _ => {},
                    }
                    let gb = self.container_type.global_bits_spec();
                    assert forall|k: int|
                        0 <= k < self.palette.entries_spec().len() implies (
                    #[trigger] self.palette.entries_spec()[k] as u64) <= mask64(gb) by {
                        if k < pre.palette.entries_spec().len() {
                            assert(pre.palette.entries_spec()[k]
                                == self.palette.entries_spec()[k]);
                        } else {
                            assert(self.palette.entries_spec()[k] == value);
                        }
                    }
                }
                r
            },
            IdPlan::Grow(bits) => self.on_resize(bits, value),
        }
    }

    /// Write `value` at `(x, y, z)`; every other cell keeps its value.
    pub fn set(&mut self, x: usize, y: usize, z: usize, value: u32)
        requires
            old(self).wf(),
            old(self).values_fit(),
            old(self).value_ok(value),
            (x as nat) < old(self).container_type.dim_spec(),
            (y as nat) < old(self).container_type.dim_spec(),
            (z as nat) < old(self).container_type.dim_spec(),
        ensures
            final(self).wf(),
            final(self).values_fit(),
            final(self).container_type == old(self).container_type,
            final(self).contents() == old(self).contents().update(
                index_spec(old(self).container_type, x as nat, y as nat, z as nat) as int,
                value,
            ),
            palette_evolution(*old(self), *final(self), value),
    {
        let paletted_value = self.id_for(value);
        let ghost mid = *self;
        let index = self.get_index(x, y, z);
        self.storage.set(index, paletted_value as u64);
        proof {
            lemma_mask64_absorb(paletted_value as u64, mid.bits_per_entry as nat);
            assert(self.contents() =~= mid.contents().update(index as int, value));
            match &self.palette {
                Palette::Linear(l) => {
                    assert(self.indexed_wf(l@));
                },
                Palette::Hashmap(l) => {
                    assert(self.indexed_wf(l@));
                },
                _ => {},
            }
        }
    }

    /// Write `value` at `(x, y, z)` and return the palette id that the cell
    /// held just before the write, under the (possibly promoted) palette.
    pub fn get_and_set(&mut self, x: usize, y: usize, z: usize, value: u32) -> (r: u32)
        requires
            old(self).wf(),
            old(self).values_fit(),
            old(self).value_ok(value),
            (x as nat) < old(self).container_type.dim_spec(),
            (y as nat) < old(self).container_type.dim_spec(),
            (z as nat) < old(self).container_type.dim_spec(),
        ensures
            final(self).wf(),
            final(self).values_fit(),
            final(self).container_type == old(self).container_type,
            final(self).contents() == old(self).contents().update(
                index_spec(old(self).container_type, x as nat, y as nat, z as nat) as int,
                value,
            ),
            final(self).palette.value_spec(r as nat) == old(self).contents()[index_spec(
                old(self).container_type,
                x as nat,
                y as nat,
                z as nat,
            ) as int],
            palette_evolution(*old(self), *final(self), value),
    {
        let paletted_value = self.id_for(value);
        let ghost mid = *self;
        let index = self.get_index(x, y, z);
        let old_id: u64 = self.storage.get_and_set(index, paletted_value as u64);
        proof {
            lemma_mask64_absorb(paletted_value as u64, mid.bits_per_entry as nat);
            assert(mid.bits_per_entry <= 32);
            lemma_mask64_u32(mid.bits_per_entry as nat);
            assert(old_id <= u32::MAX as u64);
            assert(mid.contents()[index as int] == mid.palette.value_spec(old_id as nat));
            assert(self.contents() =~= mid.contents().update(index as int, value));
            match &self.palette {
                Palette::Linear(l) => {
                    assert(self.indexed_wf(l@));
                },
                Palette::Hashmap(l) => {
                    assert(self.indexed_wf(l@));
                },
                _ => {},
            }
        }
        old_id as u32
    }
}

} // verus!

verus! {

use crate::wire::varint_bytes;
use crate::wire::varint_parse;
use crate::wire::u32s_wire;
use crate::wire::u32s_parse;
use crate::wire::u64s_wire;
use crate::wire::u64s_parse;
use crate::wire::VarRead;
use crate::wire::read_varint_u32;
use crate::wire::write_varint_u32;
use crate::wire::read_u32s;
use crate::wire::write_u32s;
use crate::wire::read_u64s;
use crate::wire::write_u64s;
use crate::bits::words_for;
use crate::bits::cell_value;

/// Parse the entry list of a palette of the given shape: one varint for a
/// single value, a varint-prefixed varint list for the indexed shapes,
/// nothing for the identity mapping.
pub open spec fn palette_entries_parse(pt: PaletteType, s: Seq<u8>) -> Option<(Seq<u32>, nat)> {
    match pt {
        PaletteType::SingleValue => match varint_parse(s, 5) {
            Some(p) => if p.0 <= u32::MAX as nat {
                Some((seq![p.0 as u32], p.1))
            } else {
                None
            },
            None => None,
        },
        PaletteType::Linear => u32s_parse(s),
        PaletteType::Hashmap => u32s_parse(s),
        PaletteType::Global => Some((Seq::empty(), 0)),
    }
}

impl Palette {
    /// Byte image of the palette on the wire.
    pub open spec fn wire_spec(&self) -> Seq<u8> {
        match self {
            Palette::SingleValue(v) => varint_bytes(*v as nat),
            Palette::Linear(l) => u32s_wire(l@),
            Palette::Hashmap(l) => u32s_wire(l@),
            Palette::Global => Seq::empty(),
        }
    }

    /// Serialize the palette.
    pub fn write_into(&self, buf: &mut Vec<u8>)
        requires
            self.entries_spec().len() <= u32::MAX as nat,
        ensures
            final(buf)@ == old(buf)@ + self.wire_spec(),
    {
        match self {
            Palette::SingleValue(value) => {
                write_varint_u32(buf, *value);
            },
            Palette::Linear(values) => {
                write_u32s(buf, values);
            },
            Palette::Hashmap(values) => {
                write_u32s(buf, values);
            },
            Palette::Global => {
                assert(buf@ =~= old(buf)@ + self.wire_spec());
            },
        }
    }
}

/// Parsing a written palette yields its entries and consumes its image.
pub proof fn lemma_palette_round_trip(p: Palette, rest: Seq<u8>)
    requires
        p.entries_spec().len() <= u32::MAX as nat,
    ensures
        palette_entries_parse(p.type_spec(), p.wire_spec() + rest) == Some(
            (p.entries_spec(), p.wire_spec().len()),
        ),
{
    vstd::arithmetic::power2::lemma2_to64();
    vstd::arithmetic::power2::lemma2_to64_rest();
    match p {
        Palette::SingleValue(v) => {
            crate::wire::lemma_varint_bytes_len(v as nat, 5);
            crate::wire::lemma_varint_round_trip(v as nat, rest, 5);
            assert(p.entries_spec() =~= seq![v]);
        },
        Palette::Linear(l) => {
            crate::wire::lemma_u32s_round_trip(l@, rest);
        },
        Palette::Hashmap(l) => {
            crate::wire::lemma_u32s_round_trip(l@, rest);
        },
        Palette::Global => {
            assert(p.wire_spec() + rest =~= rest);
        },
    }
}

impl PaletteType {
    /// Read a palette of this shape from `buf` at `pos`.
    pub fn read(&self, buf: &Vec<u8>, pos: usize) -> (r: Result<(Palette, usize), ReadError>)
        requires
            pos <= buf.len(),
        ensures
            (match palette_entries_parse(*self, buf@.skip(pos as int)) {
                Some(p) => r matches Ok(t) && t.0.type_spec() == *self && t.0.entries_spec()
                    == p.0 && t.1 as nat == pos as nat + p.1 && t.1 <= buf.len(),
                None => r is Err,
            }),
    {
        proof {
            crate::wire::lemma_varint_parse_consumed(buf@.skip(pos as int), 5);
        }
        match self {
            PaletteType::SingleValue => {
                match read_varint_u32(buf, pos) {
                    VarRead::Val { value, len } => {
                        let p = Palette::SingleValue(value);
                        proof {
                            assert(p.entries_spec() =~= seq![value]);
                        }
                        Ok((p, pos + len))
                    },
                    VarRead::Incomplete => Err(ReadError::Decode),
                    VarRead::Malformed => Err(ReadError::MalformedVarInt),
                }
            },
            PaletteType::Linear => {
                match read_u32s(buf, pos) {
                    Ok((v, np)) => Ok((Palette::Linear(v), np)),
                    Err(e) => Err(e),
                }
            },
            PaletteType::Hashmap => {
                match read_u32s(buf, pos) {
                    Ok((v, np)) => Ok((Palette::Hashmap(v), np)),
                    Err(e) => Err(e),
                }
            },
            PaletteType::Global => {
                let p = Palette::Global;
                proof {
                    assert(p.entries_spec() =~= Seq::<u32>::empty());
                }
                Ok((p, pos))
            },
        }
    }
}

} // verus!

verus! {

/// Parse the head of a container image: the cell width byte, the palette
/// for the shape that width selects, then the storage words.
pub open spec fn container_parse(ct: PalettedContainerType, s: Seq<u8>) -> Option<
    (u8, Seq<u32>, Seq<u64>, nat),
> {
    if s.len() == 0 {
        None
    } else {
        let bpe = s[0];
        match palette_entries_parse(palette_type_spec(bpe as nat, ct), s.skip(1)) {
            Some(p) => match u64s_parse(s.skip(1 + p.1 as int)) {
                Some(q) => Some((bpe, p.0, q.0, 1 + p.1 + q.1)),
                None => None,
            },
            None => None,
        }
    }
}

/// An indexed palette read off the wire is usable when its entries are
/// distinct, it fits its cell width, and every cell points into it.
pub open spec fn indexed_data_ok(
    ct: PalettedContainerType,
    bpe: u8,
    entries: Seq<u32>,
    words: Seq<u64>,
) -> bool {
    &&& entries.no_duplicates()
    &&& entries.len() <= mask64(bpe as nat) as nat + 1
    &&& forall|i: int|
        0 <= i < ct.size_spec() ==> (#[trigger] cell_value(words, bpe as nat, i as nat) as nat)
            < entries.len()
}

/// Wire data that yields a well-formed container.
pub open spec fn container_data_ok(
    ct: PalettedContainerType,
    bpe: u8,
    entries: Seq<u32>,
    words: Seq<u64>,
) -> bool {
    &&& bpe <= 64
    &&& words.len() == words_for(ct.size_spec(), bpe as nat)
    &&& match palette_type_spec(bpe as nat, ct) {
        PaletteType::SingleValue => true,
        PaletteType::Linear => indexed_data_ok(ct, bpe, entries, words),
        PaletteType::Hashmap => indexed_data_ok(ct, bpe, entries, words),
        PaletteType::Global => bpe <= 32,
    }
}

/// Check the indexed-palette conditions over actual storage.
fn indexed_check(l: &Vec<u32>, bits: u8, storage: &BitStorage) -> (r: bool)
    requires
        storage.wf(),
        bits <= 64,
    ensures
        r <==> (l@.no_duplicates() && l@.len() <= mask64(bits as nat) as nat + 1 && (forall|
            i: int,
        |
            0 <= i < storage@.len() ==> (#[trigger] storage@[i] as nat) < l@.len())),
{
    let mut i: usize = 0;
    while i < l.len()
        invariant
            i <= l@.len(),
            forall|a: int, b: int| 0 <= a < i && a < b < l@.len() ==> l@[a] != l@[b],
        decreases l@.len() - i as nat,
    {
        let mut j: usize = i + 1;
        while j < l.len()
            invariant
                i < j <= l@.len(),
                i < l@.len(),
                forall|a: int, b: int| 0 <= a < i && a < b < l@.len() ==> l@[a] != l@[b],
                forall|b: int| i < b < j ==> l@[i as int] != l@[b],
            decreases l@.len() - j as nat,
        {
            if l[i] == l[j] {
                assert(!l@.no_duplicates());
                return false;
            }
            j = j + 1;
        }
        i = i + 1;
    }
    proof {
        assert forall|a: int, b: int|
            0 <= a < l@.len() && 0 <= b < l@.len() && a != b implies l@[a] != l@[b] by {
            if a < b {
            } else {
            }
        }
        assert(l@.no_duplicates());
    }
    let mask: u64 = if bits == 0 {
        0
    } else {
        u64::MAX >> (64 - bits as u64)
    };
    proof {
        assert(mask == mask64(bits as nat));
        crate::bits::lemma_mask64_u32(32);
        lemma_mask64_mono(bits as nat, 64);
    }
    if mask < u64::MAX && (l.len() as u64) > mask + 1 {
        return false;
    }
    let size = storage.size();
    let mut k: usize = 0;
    while k < size
        invariant
            k <= size,
            size as nat == storage.size_spec(),
            storage.wf(),
            forall|i: int| 0 <= i < k ==> (#[trigger] storage@[i] as nat) < l@.len(),
        decreases size - k,
    {
        let cell: u64 = storage.get(k);
        if l.len() as u64 <= cell {
            return false;
        }
        k = k + 1;
    }
    true
}

impl PalettedContainer {
    /// Byte image of the container on the wire: the width byte, the
    /// palette, then the storage words.
    pub open spec fn wire_spec(&self) -> Seq<u8> {
        seq![self.bits_per_entry] + self.palette.wire_spec() + u64s_wire(self.storage.data@)
    }

    /// Read a container of the given type from `buf` at `pos`. Wire data
    /// whose palette or storage would break the container's invariant is
    /// rejected as a decode error.
    pub fn read_with_type(buf: &Vec<u8>, pos: usize, container_type: &PalettedContainerType)
        -> (r: Result<(PalettedContainer, usize), ReadError>)
        requires
            pos <= buf.len(),
        ensures
            (match container_parse(*container_type, buf@.skip(pos as int)) {
                Some(p) => if container_data_ok(*container_type, p.0, p.1, p.2) {
                    r matches Ok(t) && t.0.wf() && t.0.bits_per_entry == p.0
                        && t.0.palette.entries_spec() == p.1 && t.0.storage.data@ == p.2
                        && t.0.container_type == *container_type && t.1 as nat == pos as nat + p.3
                } else {
                    r is Err
                },
                None => r is Err,
            }),
    {
        if pos == buf.len() {
            return Err(ReadError::Decode);
        }
        let bits_per_entry: u8 = buf[pos];
        proof {
            assert(buf@.skip(pos as int)[0] == bits_per_entry);
            assert(buf@.skip(pos as int).skip(1) =~= buf@.skip(pos as int + 1));
        }
        let palette_type = PaletteType::from_bits_and_type(bits_per_entry, container_type);
        let (palette, p2) = match palette_type.read(buf, pos + 1) {
            Ok(t) => t,
            Err(e) => {
                return Err(e);
            },
        };
        proof {
            let s = buf@.skip(pos as int);
            match palette_entries_parse(palette_type, s.skip(1)) {
                Some(p) => {
                    assert(s.skip(1 + p.1 as int) =~= buf@.skip(p2 as int));
                },
                None => {
                    assert(false);
                },
            }
        }
        let (data, p3) = match read_u64s(buf, p2) {
            Ok(t) => t,
            Err(e) => {
                return Err(e);
            },
        };
        let size = container_type.size();
        let storage = match BitStorage::new(bits_per_entry as usize, size, Some(data)) {
            Ok(s) => s,
            Err(_) => {
                return Err(ReadError::Decode);
            },
        };
        proof {
            assert forall|i: int| 0 <= i < container_type.size_spec() implies (
            #[trigger] cell_value(storage.data@, bits_per_entry as nat, i as nat)) == storage@[i]
                by {
                assert(storage@[i] == cell_value(storage.data@, storage.bits_spec(), i as nat));
            }
        }
        let ok: bool = match &palette {
            Palette::SingleValue(_) => true,
            Palette::Linear(l) => indexed_check(l, bits_per_entry, &storage),
            Palette::Hashmap(l) => indexed_check(l, bits_per_entry, &storage),
            Palette::Global => bits_per_entry <= 32,
        };
        if !ok {
            return Err(ReadError::Decode);
        }
        let c = PalettedContainer {
            bits_per_entry,
            palette,
            storage,
            container_type: *container_type,
        };
        Ok((c, p3))
    }

    /// Serialize the container.
    pub fn write_into(&self, buf: &mut Vec<u8>)
        requires
            self.wf(),
        ensures
            final(buf)@ == old(buf)@ + self.wire_spec(),
    {
        proof {
            lemma_container_bounds(self);
        }
        buf.push(self.bits_per_entry);
        self.palette.write_into(buf);
        write_u64s(buf, &self.storage.data);
        assert(buf@ =~= old(buf)@ + self.wire_spec());
    }
}

/// Size bounds a well-formed container puts on its palette and storage.
pub proof fn lemma_container_bounds(c: &PalettedContainer)
    requires
        c.wf(),
    ensures
        c.palette.entries_spec().len() <= 256,
        c.storage.data@.len() <= c.container_type.size_spec(),
{
    assert(mask64(8) == 255) by (bit_vector);
    match c.palette {
        Palette::SingleValue(_) => {},
        Palette::Linear(_) => {
            lemma_mask64_mono(c.bits_per_entry as nat, 8);
        },
        Palette::Hashmap(_) => {
            lemma_mask64_mono(c.bits_per_entry as nat, 8);
        },
        Palette::Global => {},
    }
    if c.bits_per_entry == 0 {
    } else {
        crate::bits::lemma_words_le_size(c.container_type.size_spec(), c.bits_per_entry as nat);
    }
}

/// Container round trip: parsing a written container yields its parts, and
/// they satisfy the conditions under which reading rebuilds it.
#[verifier::rlimit(50)]
pub proof fn lemma_container_round_trip(c: &PalettedContainer, rest: Seq<u8>)
    requires
        c.wf(),
    ensures
        container_parse(c.container_type, c.wire_spec() + rest) == Some(
            (
                c.bits_per_entry,
                c.palette.entries_spec(),
                c.storage.data@,
                c.wire_spec().len() as nat,
            ),
        ),
        container_data_ok(
            c.container_type,
            c.bits_per_entry,
            c.palette.entries_spec(),
            c.storage.data@,
        ),
{
    lemma_container_bounds(c);
    let s = c.wire_spec() + rest;
    assert(s[0] == c.bits_per_entry);
    assert(s.skip(1) =~= c.palette.wire_spec() + (u64s_wire(c.storage.data@) + rest));
    lemma_palette_round_trip(c.palette, u64s_wire(c.storage.data@) + rest);
    match palette_entries_parse(c.palette.type_spec(), s.skip(1)) {
        Some(p) => {
            assert(s.skip(1 + p.1 as int) =~= u64s_wire(c.storage.data@) + rest);
            crate::wire::lemma_u64s_round_trip(c.storage.data@, rest);
        },
        None => {
            assert(false);
        },
    }
    assert forall|i: int| 0 <= i < c.container_type.size_spec() implies (
    #[trigger] cell_value(c.storage.data@, c.bits_per_entry as nat, i as nat)) == c.storage@[i]
        by {
        assert(c.storage@[i] == cell_value(c.storage.data@, c.storage.bits_spec(), i as nat));
    }
    match &c.palette {
        Palette::Linear(l) => {
            assert(indexed_data_ok(
                c.container_type,
                c.bits_per_entry,
                c.palette.entries_spec(),
                c.storage.data@,
            ));
        },
        Palette::Hashmap(l) => {
            assert(indexed_data_ok(
                c.container_type,
                c.bits_per_entry,
                c.palette.entries_spec(),
                c.storage.data@,
            ));
        },
        _ => {},
    }
}

/// The palette's shape is always the one its bit width selects: the type
/// invariant of the container, stated on its own.
pub proof fn lemma_palette_type_invariant(c: &PalettedContainer)
    requires
        c.wf(),
    ensures
        c.palette.type_spec() == palette_type_spec(c.bits_per_entry as nat, c.container_type),
{
}

} // verus!

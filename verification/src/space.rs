//! The engine's picture of the process address space: the mapped regions it
//! may patch, each carrying the bytes of one mapped file image.  Patching
//! writes a GOT slot inside a region; the byte-level semantics here are what
//! the hook committer and the backup invalidator are verified against.

use crate::bytes::{le64, store_le64, write_le64, lemma_store_le64_read};
use crate::PAGE_SIZE;
use vstd::prelude::*;

verus! {

/// One mapped region of the target library, page-aligned and carrying the
/// image bytes starting at file offset `offset`.
pub struct Region {
    /// Virtual address where the region begins.
    pub start: usize,
    /// Protection flags of the region.
    pub perms: u8,
    /// Whether the mapping is private.
    pub is_private: bool,
    /// Byte offset into the backing file.
    pub offset: usize,
    /// Device of the backing file.
    pub dev: u64,
    /// Inode of the backing file.
    pub inode: u64,
    /// The region's contents.
    pub bytes: Vec<u8>,
}

/// The mathematical value of a region.
pub ghost struct RegionModel {
    pub start: int,
    pub perms: u8,
    pub is_private: bool,
    pub offset: int,
    pub dev: u64,
    pub inode: u64,
    pub bytes: Seq<u8>,
}

impl View for Region {
    type V = RegionModel;

    open spec fn view(&self) -> RegionModel {
        RegionModel {
            start: self.start as int,
            perms: self.perms,
            is_private: self.is_private,
            offset: self.offset as int,
            dev: self.dev,
            inode: self.inode,
            bytes: self.bytes@,
        }
    }
}

/// The regions the engine may read and patch.
pub struct AddressSpace {
    pub regions: Vec<Region>,
}

impl View for AddressSpace {
    type V = Seq<RegionModel>;

    open spec fn view(&self) -> Seq<RegionModel> {
        self.regions@.map_values(|r: Region| r@)
    }
}

/// A region the engine can work on: page-aligned, a whole number of pages,
/// and within the address width.
pub open spec fn region_wf(r: RegionModel) -> bool {
    &&& 0 <= r.start
    &&& r.start % (PAGE_SIZE as int) == 0
    &&& r.bytes.len() as int % (PAGE_SIZE as int) == 0
    &&& r.start + r.bytes.len() <= usize::MAX
}

pub open spec fn space_wf(s: Seq<RegionModel>) -> bool {
    forall|i: int| 0 <= i < s.len() ==> region_wf(#[trigger] s[i])
}

impl AddressSpace {
    /// An empty address space.
    pub fn new() -> (r: AddressSpace)
        ensures
            r@ == Seq::<RegionModel>::empty(),
            space_wf(r@),
    {
        let r = AddressSpace { regions: Vec::new() };
        proof {
            assert(r@ =~= Seq::<RegionModel>::empty());
        }
        r
    }

    /// Appends a region after checking that the engine can work on it:
    /// page-aligned start, a whole number of pages, within the address
    /// width.  Returns whether the region was accepted.
    pub fn add_region(&mut self, rg: Region) -> (ok: bool)
        requires
            space_wf(old(self)@),
        ensures
            space_wf(final(self)@),
            ok ==> final(self)@ == old(self)@.push(rg@) && region_wf(rg@),
            !ok ==> final(self)@ == old(self)@,
    {
        let len = rg.bytes.len();
        if rg.start % crate::PAGE_SIZE == 0 && len % crate::PAGE_SIZE == 0 && rg.start
            <= usize::MAX - len {
            let ghost before = self@;
            let ghost rgm = rg@;
            self.regions.push(rg);
            proof {
                assert(self@ =~= before.push(rgm));
            }
            true
        } else {
            false
        }
    }
}

/// Whether region `r` holds the whole word at address `a`.
pub open spec fn region_has_word(r: RegionModel, a: int) -> bool {
    r.start <= a && a + 8 <= r.start + r.bytes.len()
}

/// The first region at index `k` or later holding the word at address `a`.
pub open spec fn word_region_from(s: Seq<RegionModel>, a: int, k: int) -> Option<int>
    decreases s.len() - k,
{
    if k < 0 || k >= s.len() {
        None
    } else if region_has_word(s[k], a) {
        Some(k)
    } else {
        word_region_from(s, a, k + 1)
    }
}

/// A found word region is in range and holds the word.
pub proof fn lemma_word_region_from_bounds(s: Seq<RegionModel>, a: int, k: int)
    requires
        0 <= k,
        word_region_from(s, a, k) is Some,
    ensures
        k <= word_region_from(s, a, k).unwrap() < s.len(),
        region_has_word(s[word_region_from(s, a, k).unwrap()], a),
    decreases s.len() - k,
{
    if k < s.len() && !region_has_word(s[k], a) {
        lemma_word_region_from_bounds(s, a, k + 1);
    }
}

/// The 64-bit word the process reads at address `a`.
pub open spec fn word_at(s: Seq<RegionModel>, a: int) -> Option<nat> {
    match word_region_from(s, a, 0) {
        Some(i) => Some(le64(s[i].bytes, a - s[i].start)),
        None => None,
    }
}

/// Whether a region belongs to the library identified by `dev`/`inode` and
/// is mapped at file offset `off`.
pub open spec fn region_matches(r: RegionModel, dev: u64, inode: u64, off: int) -> bool {
    r.dev == dev && r.inode == inode && r.offset == off
}

/// The first region at index `k` or later of the library identified by
/// `dev`/`inode` that is mapped at file offset `off`.
pub open spec fn target_from(s: Seq<RegionModel>, dev: u64, inode: u64, off: int, k: int) -> Option<
    int,
>
    decreases s.len() - k,
{
    if k < 0 || k >= s.len() {
        None
    } else if region_matches(s[k], dev, inode, off) {
        Some(k)
    } else {
        target_from(s, dev, inode, off, k + 1)
    }
}

/// The region exposing the ELF header of the image the caller asked about.
pub open spec fn target_index(s: Seq<RegionModel>, dev: u64, inode: u64, off: int) -> Option<int> {
    target_from(s, dev, inode, off, 0)
}

/// A found target index is in range and matches; absence means no region
/// matches.
pub proof fn lemma_target_from(s: Seq<RegionModel>, dev: u64, inode: u64, off: int, k: int)
    requires
        0 <= k,
    ensures
        match target_from(s, dev, inode, off, k) {
            Some(i) => k <= i < s.len() && region_matches(s[i], dev, inode, off),
            None => forall|j: int|
                k <= j < s.len() ==> !region_matches(#[trigger] s[j], dev, inode, off),
        },
    decreases s.len() - k,
{
    if k < s.len() && !region_matches(s[k], dev, inode, off) {
        lemma_target_from(s, dev, inode, off, k + 1);
    }
}

/// Finds the region exposing the target library's image.
pub fn find_target(space: &AddressSpace, dev: u64, inode: u64, off: usize) -> (r: Option<usize>)
    ensures
        match r {
            Some(i) => target_index(space@, dev, inode, off as int) == Some(i as int),
            None => target_index(space@, dev, inode, off as int) is None,
        },
{
    let n = space.regions.len();
    let mut i: usize = 0;
    while i < n
        invariant
            n == space.regions@.len(),
            0 <= i <= n,
            target_index(space@, dev, inode, off as int) == target_from(
                space@,
                dev,
                inode,
                off as int,
                i as int,
            ),
        decreases n - i,
    {
        let rg = &space.regions[i];
        if rg.dev == dev && rg.inode == inode && rg.offset == off {
            return Some(i);
        }
        i += 1;
    }
    None
}

/// `b` after the little-endian value `v` is stored at each of the first `k`
/// slot offsets, in order.
pub open spec fn patch_bytes(b: Seq<u8>, slots: Seq<usize>, k: int, v: u64) -> Seq<u8>
    decreases k,
{
    if k <= 0 {
        b
    } else {
        store_le64(patch_bytes(b, slots, k - 1, v), slots[k - 1] as int, v)
    }
}

/// Every slot lies within a buffer of length `len`.
pub open spec fn slots_in(slots: Seq<usize>, len: int) -> bool {
    forall|k: int| 0 <= k < slots.len() ==> #[trigger] slots[k] + 8 <= len
}

/// No two slots overlap.
pub open spec fn no_overlap(slots: Seq<usize>) -> bool {
    forall|i: int, j: int|
        0 <= i < slots.len() && 0 <= j < slots.len() && i != j ==> #[trigger] slots[i] + 8
            <= #[trigger] slots[j] || slots[j] + 8 <= slots[i]
}

/// Patching never changes the buffer's length.
pub proof fn lemma_patch_bytes_len(b: Seq<u8>, slots: Seq<usize>, k: int, v: u64)
    ensures
        patch_bytes(b, slots, k, v).len() == b.len(),
    decreases k,
{
    if k > 0 {
        lemma_patch_bytes_len(b, slots, k - 1, v);
    }
}

/// A byte no slot covers is left alone by patching.
pub proof fn lemma_patch_bytes_outside(b: Seq<u8>, slots: Seq<usize>, k: int, v: u64, p: int)
    requires
        0 <= p < b.len(),
        forall|i: int| 0 <= i < k ==> !(#[trigger] slots[i] <= p < slots[i] + 8),
    ensures
        patch_bytes(b, slots, k, v)[p] == b[p],
    decreases k,
{
    if k > 0 {
        lemma_patch_bytes_outside(b, slots, k - 1, v, p);
        lemma_patch_bytes_len(b, slots, k - 1, v);
    }
}

/// After patching, each slot that no later slot overlaps reads back `v`.
pub proof fn lemma_patch_bytes_word(b: Seq<u8>, slots: Seq<usize>, k: int, v: u64, i: int)
    requires
        0 <= i < k <= slots.len(),
        slots_in(slots, b.len() as int),
        no_overlap(slots),
    ensures
        le64(patch_bytes(b, slots, k, v), slots[i] as int) == v as nat,
    decreases k,
{
    lemma_patch_bytes_len(b, slots, k - 1, v);
    if i == k - 1 {
        lemma_store_le64_read(patch_bytes(b, slots, k - 1, v), slots[i] as int, v);
    } else {
        lemma_patch_bytes_word(b, slots, k - 1, v, i);
    }
}

/// Writes `v` into each slot of `bytes`, producing the patched buffer.
pub fn patch_region_bytes(bytes: &mut Vec<u8>, slots: &Vec<usize>, v: u64)
    requires
        slots_in(slots@, old(bytes)@.len() as int),
    ensures
        final(bytes)@ == patch_bytes(old(bytes)@, slots@, slots@.len() as int, v),
{
    let n = slots.len();
    let mut k: usize = 0;
    while k < n
        invariant
            n == slots@.len(),
            slots_in(slots@, old(bytes)@.len() as int),
            0 <= k <= n,
            bytes@ == patch_bytes(old(bytes)@, slots@, k as int, v),
        decreases n - k,
    {
        proof {
            lemma_patch_bytes_len(old(bytes)@, slots@, k as int, v);
        }
        write_le64(bytes, slots[k], v);
        k += 1;
    }
}

} // verus!

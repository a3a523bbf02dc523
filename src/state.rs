use vstd::prelude::*;

verus! {

/// State of a guest memory region saved to file/buffer.
#[derive(Debug, Clone, Copy, PartialEq, Eq, Structural)]
pub struct GuestMemoryRegionState {
    /// Base address.
    pub base_address: u64,
    /// Region size.
    pub size: usize,
    /// Offset in file/buffer where the region is saved.
    pub offset: u64,
}

/// Guest memory state: the regions in the order in which they were found.
#[derive(Debug, Clone)]
pub struct GuestMemoryState {
    /// List of regions.
    pub regions: Vec<GuestMemoryRegionState>,
}

impl PartialEq for GuestMemoryState {
    fn eq(&self, other: &GuestMemoryState) -> (r: bool) {
        if self.regions.len() != other.regions.len() {
            return false;
        }
        let mut i: usize = 0;
        while i < self.regions.len()
            invariant
                i <= self.regions@.len(),
                self.regions@.len() == other.regions@.len(),
                forall|j: int| 0 <= j < i ==> self.regions@[j] == other.regions@[j],
            decreases self.regions@.len() - i,
        {
            if self.regions[i] != other.regions[i] {
                return false;
            }
            i = i + 1;
        }
        assert(self.regions@ =~= other.regions@);
        true
    }
}

impl vstd::std_specs::cmp::PartialEqSpecImpl for GuestMemoryState {
    open spec fn obeys_eq_spec() -> bool {
        true
    }

    open spec fn eq_spec(&self, other: &GuestMemoryState) -> bool {
        self.regions@ == other.regions@
    }
}

impl Default for GuestMemoryState {
    fn default() -> (r: GuestMemoryState)
        ensures
            r.regions@.len() == 0,
    {
        GuestMemoryState { regions: Vec::new() }
    }
}

/// One region of guest memory: its guest-physical base address and the
/// bytes that back it.
#[derive(Debug, Clone)]
pub struct GuestRegion {
    /// Guest-physical base address.
    pub base_address: u64,
    /// Contents of the region; its length is the region's size.
    pub data: Vec<u8>,
}

/// A guest memory collection: its regions in iteration order.
#[derive(Debug, Clone)]
pub struct GuestMemory {
    pub regions: Vec<GuestRegion>,
}

/// Sum of the sizes of regions `0..i`.
pub open spec fn prefix_size(rs: Seq<GuestRegion>, i: int) -> nat
    decreases i,
{
    if i <= 0 || i > rs.len() {
        0
    } else {
        prefix_size(rs, i - 1) + rs[i - 1].data@.len()
    }
}

/// Sum of the sizes of all regions: the length of a full dump.
pub open spec fn total_size(rs: Seq<GuestRegion>) -> nat {
    prefix_size(rs, rs.len() as int)
}

/// The bytes of regions `0..i`, one after the other.
pub open spec fn prefix_image(rs: Seq<GuestRegion>, i: int) -> Seq<u8>
    decreases i,
{
    if i <= 0 || i > rs.len() {
        Seq::empty()
    } else {
        prefix_image(rs, i - 1) + rs[i - 1].data@
    }
}

/// The full dump of a memory collection: every region's bytes, in order,
/// with no gaps.
pub open spec fn image(rs: Seq<GuestRegion>) -> Seq<u8> {
    prefix_image(rs, rs.len() as int)
}

/// The description of region `i` of a collection.
pub open spec fn region_state_of(rs: Seq<GuestRegion>, i: int) -> GuestMemoryRegionState {
    GuestMemoryRegionState {
        base_address: rs[i].base_address,
        size: rs[i].data@.len() as usize,
        offset: prefix_size(rs, i) as u64,
    }
}

pub proof fn lemma_prefix_size_monotone(rs: Seq<GuestRegion>, i: int, j: int)
    requires
        0 <= i <= j <= rs.len(),
    ensures
        prefix_size(rs, i) <= prefix_size(rs, j),
    decreases j - i,
{
    if i < j {
        lemma_prefix_size_monotone(rs, i, j - 1);
    }
}

pub proof fn lemma_prefix_image_len(rs: Seq<GuestRegion>, i: int)
    requires
        0 <= i <= rs.len(),
    ensures
        prefix_image(rs, i).len() == prefix_size(rs, i),
    decreases i,
{
    if i > 0 {
        lemma_prefix_image_len(rs, i - 1);
    }
}

/// Byte `o` of region `i` stands in the full dump at the region's stream
/// offset plus `o`.
pub proof fn lemma_image_index(rs: Seq<GuestRegion>, i: int, j: int, o: int)
    requires
        0 <= i < j <= rs.len(),
        0 <= o < rs[i].data@.len(),
    ensures
        prefix_size(rs, i) + o < prefix_size(rs, j),
        prefix_image(rs, j)[prefix_size(rs, i) + o] == rs[i].data@[o],
    decreases j - i,
{
    lemma_prefix_image_len(rs, i);
    lemma_prefix_image_len(rs, j);
    if j == i + 1 {
    } else {
        lemma_image_index(rs, i, j - 1, o);
        lemma_prefix_image_len(rs, j - 1);
    }
}

impl GuestMemory {
    /// Describes the collection: one entry per region, in iteration order,
    /// each with the region's base address and size and, as its stream
    /// offset, the sum of the sizes of the regions before it.
    pub fn describe(&self) -> (r: GuestMemoryState)
        requires
            total_size(self.regions@) <= u64::MAX,
        ensures
            r.regions@.len() == self.regions@.len(),
            forall|i: int|
                0 <= i < self.regions@.len() ==> #[trigger] r.regions@[i] == region_state_of(
                    self.regions@,
                    i,
                ),
    {
        let mut regions: Vec<GuestMemoryRegionState> = Vec::new();
        let mut offset: u64 = 0;
        let mut i: usize = 0;
        while i < self.regions.len()
            invariant
                i <= self.regions@.len(),
                total_size(self.regions@) <= u64::MAX,
                offset == prefix_size(self.regions@, i as int),
                regions@.len() == i,
                forall|k: int| 0 <= k < i ==> #[trigger] regions@[k] == region_state_of(self.regions@, k),
            decreases self.regions@.len() - i,
        {
            let region = &self.regions[i];
            let size: usize = region.data.len();
            proof {
                lemma_prefix_size_monotone(self.regions@, i as int + 1, self.regions@.len() as int);
            }
            regions.push(GuestMemoryRegionState { base_address: region.base_address, size, offset });
            offset = offset + size as u64;
            i = i + 1;
        }
        GuestMemoryState { regions }
    }
}

} // verus!

use vstd::prelude::*;
use crate::error::Error;
use crate::state::{GuestMemory, GuestMemoryRegionState, GuestMemoryState, GuestRegion};

verus! {

/// A fixed-address file mapping laid over the base layer: `len` bytes at
/// byte `region_offset` of the region, backed by the layer's file from byte
/// `file_offset` on.
#[derive(Debug, Clone, Copy, PartialEq, Eq, Structural)]
pub struct LayerMapping {
    pub region_offset: usize,
    pub len: usize,
    pub file_offset: u64,
}

/// The layers of a restored region: the base layer spans `size` bytes at
/// guest address `base_address`; the overlay mappings and then the
/// working-set mappings are laid over it, in order.
#[derive(Debug, Clone)]
pub struct RestorePlan {
    pub base_address: u64,
    pub size: usize,
    pub overlay: Vec<LayerMapping>,
    pub working_set: Vec<LayerMapping>,
}

/// A memory state that can be restored: exactly one region, stored at
/// stream offset zero.
pub open spec fn state_restorable(state: GuestMemoryState) -> bool {
    state.regions@.len() == 1 && state.regions@[0].offset == 0
}

/// `len` pages from page `off` on lie inside a region of `size` bytes.
pub open spec fn range_fits(off: i64, len: i64, page_size: nat, size: nat) -> bool {
    off >= 0 && len >= 0 && off * page_size + len * page_size <= size
}

/// Every overlay range lies inside the region.
pub open spec fn overlay_fits(ov: Seq<(i64, i64)>, page_size: nat, size: nat) -> bool {
    forall|k: int| 0 <= k < ov.len() ==> range_fits(#[trigger] ov[k].0, ov[k].1, page_size, size)
}

/// Every working-set entry holds a page offset and a page count, and the
/// range lies inside the region.
pub open spec fn working_set_fits(ws: Seq<Vec<i64>>, page_size: nat, size: nat) -> bool {
    forall|k: int|
        0 <= k < ws.len() ==> #[trigger] ws[k]@.len() >= 2 && range_fits(
            ws[k]@[0],
            ws[k]@[1],
            page_size,
            size,
        )
}

/// Byte offset in the working-set file of entry `k`: the byte lengths of
/// the entries before it, laid out one after the other.
pub open spec fn ws_file_offset(ws: Seq<Vec<i64>>, k: int, page_size: nat) -> int
    decreases k,
{
    if k <= 0 || k > ws.len() {
        0
    } else {
        ws_file_offset(ws, k - 1, page_size) + ws[k - 1]@[1] * page_size
    }
}

/// The overlay mappings: each range is backed by the overlay file at the
/// same byte offset as it has in the region.
pub open spec fn overlay_mappings(ov: Seq<(i64, i64)>, page_size: nat) -> Seq<LayerMapping> {
    Seq::new(
        ov.len(),
        |k: int|
            LayerMapping {
                region_offset: (ov[k].0 * page_size) as usize,
                len: (ov[k].1 * page_size) as usize,
                file_offset: (ov[k].0 * page_size) as u64,
            },
    )
}

/// The working-set mappings: each range is backed by the working-set file
/// at the running offset of its entry.
pub open spec fn working_set_mappings(ws: Seq<Vec<i64>>, page_size: nat) -> Seq<LayerMapping> {
    Seq::new(
        ws.len(),
        |k: int|
            LayerMapping {
                region_offset: (ws[k]@[0] * page_size) as usize,
                len: (ws[k]@[1] * page_size) as usize,
                file_offset: ws_file_offset(ws, k, page_size) as u64,
            },
    )
}

/// Splits a page range into its byte offset and byte length, where it lies
/// inside a region of `size` bytes.
fn page_range(off: i64, len: i64, page_size: usize, size: usize) -> (r: Option<(usize, usize)>)
    ensures
        r is Some <==> range_fits(off, len, page_size as nat, size as nat),
        r matches Some((o, l)) ==> o == off * page_size && l == len * page_size,
{
    if off < 0 || len < 0 {
        return None;
    }
    let ps: u128 = page_size as u128;
    let a: u128 = off as u128;
    let b: u128 = len as u128;
    assert(a * ps < 0x8000_0000_0000_0000_0000_0000_0000_0000u128) by (nonlinear_arith)
        requires
            a < 0x8000_0000_0000_0000u128,
            ps < 0x1_0000_0000_0000_0000u128,
    ;
    assert(b * ps < 0x8000_0000_0000_0000_0000_0000_0000_0000u128) by (nonlinear_arith)
        requires
            b < 0x8000_0000_0000_0000u128,
            ps < 0x1_0000_0000_0000_0000u128,
    ;
    let o: u128 = a * ps;
    let l: u128 = b * ps;
    if o + l > size as u128 {
        return None;
    }
    Some((o as usize, l as usize))
}

/// Plans the layers of a restore: checks that `state` can be restored and
/// that each overlay range (page offset, page count) and each working-set
/// entry `[page offset, page count]` lies inside the region, and turns them
/// into byte mappings. Overlay ranges are backed by the overlay file at
/// their own offset; working-set ranges by the working-set file at a running
/// offset, in the order given.
///
/// Fails with `InvalidState` unless the state holds exactly one region at
/// stream offset zero, and else with `OverlayRegions` where a range does not
/// fit or the working-set file offsets pass `u64::MAX`.
pub fn restore_plan(
    state: &GuestMemoryState,
    overlay_regions: &Vec<(i64, i64)>,
    ws_regions: &Vec<Vec<i64>>,
    page_size: usize,
) -> (r: Result<RestorePlan, Error>)
    ensures
        !state_restorable(*state) <==> r == Err::<RestorePlan, Error>(Error::InvalidState),
        state_restorable(*state) ==> ({
            let size = state.regions@[0].size as nat;
            let ok = overlay_fits(overlay_regions@, page_size as nat, size) && working_set_fits(
                ws_regions@,
                page_size as nat,
                size,
            ) && ws_file_offset(ws_regions@, ws_regions@.len() as int, page_size as nat)
                <= u64::MAX;
            &&& !ok <==> r == Err::<RestorePlan, Error>(Error::OverlayRegions)
            &&& ok ==> r is Ok
        }),
        r matches Ok(plan) ==> {
            &&& plan.base_address == state.regions@[0].base_address
            &&& plan.size == state.regions@[0].size
            &&& plan.overlay@ == overlay_mappings(overlay_regions@, page_size as nat)
            &&& plan.working_set@ == working_set_mappings(ws_regions@, page_size as nat)
        },
{
    if state.regions.len() != 1 {
        return Err(Error::InvalidState);
    }
    let region: GuestMemoryRegionState = state.regions[0];
    if region.offset != 0 {
        return Err(Error::InvalidState);
    }
    let size = region.size;

    let mut overlay: Vec<LayerMapping> = Vec::new();
    let mut k: usize = 0;
    while k < overlay_regions.len()
        invariant
            state_restorable(*state),
            size == state.regions@[0].size,
            k <= overlay_regions@.len(),
            overlay@.len() == k,
            forall|j: int|
                0 <= j < k ==> range_fits(
                    #[trigger] overlay_regions@[j].0,
                    overlay_regions@[j].1,
                    page_size as nat,
                    size as nat,
                ),
            forall|j: int|
                0 <= j < k ==> #[trigger] overlay@[j] == overlay_mappings(
                    overlay_regions@,
                    page_size as nat,
                )[j],
        decreases overlay_regions@.len() - k,
    {
        let (off, len) = overlay_regions[k];
        match page_range(off, len, page_size, size) {
            Some((o, l)) => {
                overlay.push(LayerMapping { region_offset: o, len: l, file_offset: o as u64 });
            },
            None => {
                return Err(Error::OverlayRegions);
            },
        }
        k = k + 1;
    }
    assert(overlay@ =~= overlay_mappings(overlay_regions@, page_size as nat));

    let mut working_set: Vec<LayerMapping> = Vec::new();
    let mut file_off: u64 = 0;
    let mut k: usize = 0;
    while k < ws_regions.len()
        invariant
            state_restorable(*state),
            size == state.regions@[0].size,
            k <= ws_regions@.len(),
            working_set@.len() == k,
            file_off == ws_file_offset(ws_regions@, k as int, page_size as nat),
            overlay_fits(overlay_regions@, page_size as nat, size as nat),
            forall|j: int|
                0 <= j < k ==> #[trigger] ws_regions@[j]@.len() >= 2 && range_fits(
                    ws_regions@[j]@[0],
                    ws_regions@[j]@[1],
                    page_size as nat,
                    size as nat,
                ),
            forall|j: int|
                0 <= j < k ==> #[trigger] working_set@[j] == working_set_mappings(
                    ws_regions@,
                    page_size as nat,
                )[j],
        decreases ws_regions@.len() - k,
    {
        let entry = &ws_regions[k];
        if entry.len() < 2 {
            return Err(Error::OverlayRegions);
        }
        match page_range(entry[0], entry[1], page_size, size) {
            Some((o, l)) => {
                working_set.push(LayerMapping { region_offset: o, len: l, file_offset: file_off });
                if l as u64 > u64::MAX - file_off {
                    proof {
                        if working_set_fits(ws_regions@, page_size as nat, size as nat) {
                            lemma_ws_file_offset_monotone(
                                ws_regions@,
                                k as int + 1,
                                ws_regions@.len() as int,
                                page_size as nat,
                            );
                        }
                    }
                    return Err(Error::OverlayRegions);
                }
                file_off = file_off + l as u64;
            },
            None => {
                return Err(Error::OverlayRegions);
            },
        }
        k = k + 1;
    }
    assert(working_set@ =~= working_set_mappings(ws_regions@, page_size as nat));
    Ok(RestorePlan { base_address: region.base_address, size, overlay, working_set })
}

proof fn lemma_ws_file_offset_monotone(ws: Seq<Vec<i64>>, i: int, j: int, page_size: nat)
    requires
        0 <= i <= j <= ws.len(),
        forall|k: int| 0 <= k < ws.len() ==> #[trigger] ws[k]@.len() >= 2 && ws[k]@[1] >= 0,
    ensures
        ws_file_offset(ws, i, page_size) <= ws_file_offset(ws, j, page_size),
    decreases j - i,
{
    if i < j {
        lemma_ws_file_offset_monotone(ws, i, j - 1, page_size);
        assert(ws[j - 1]@.len() >= 2);
        let c = ws[j - 1]@[1] as int;
        assert(c * page_size >= 0) by (nonlinear_arith)
            requires
                c >= 0,
        ;
    }
}

/// `img` with mapping `m` laid over it: the mapped bytes come from `file`.
pub open spec fn apply_mapping(img: Seq<u8>, m: LayerMapping, file: Seq<u8>) -> Seq<u8> {
    Seq::new(
        img.len(),
        |x: int|
            if m.region_offset <= x < m.region_offset + m.len {
                file[m.file_offset + (x - m.region_offset)]
            } else {
                img[x]
            },
    )
}

/// `img` with the mappings `ms` laid over it, one after the other.
pub open spec fn apply_mappings(img: Seq<u8>, ms: Seq<LayerMapping>, file: Seq<u8>) -> Seq<u8>
    decreases ms.len(),
{
    if ms.len() == 0 {
        img
    } else {
        apply_mapping(apply_mappings(img, ms.drop_last(), file), ms.last(), file)
    }
}

/// Every mapping lies inside a backing file of `file_len` bytes.
pub open spec fn mappings_fit(ms: Seq<LayerMapping>, file_len: nat) -> bool {
    forall|k: int| 0 <= k < ms.len() ==> #[trigger] ms[k].file_offset + ms[k].len <= file_len
}

/// Every mapping lies inside a region of `size` bytes.
pub open spec fn mappings_inside(ms: Seq<LayerMapping>, size: nat) -> bool {
    forall|k: int| 0 <= k < ms.len() ==> #[trigger] ms[k].region_offset + ms[k].len <= size
}

/// The ranges of a layer whose backing file is `file`: none where there is
/// no file.
pub open spec fn layer_ranges<T>(file: Seq<u8>, ranges: Seq<T>) -> Seq<T> {
    if file.len() == 0 {
        Seq::empty()
    } else {
        ranges
    }
}

/// The base layer: zeros where there is no memory file, else the file's
/// first `size` bytes.
pub open spec fn base_layer(size: nat, mem_file: Seq<u8>) -> Seq<u8> {
    if mem_file.len() == 0 {
        Seq::new(size, |x: int| 0u8)
    } else {
        mem_file.subrange(0, size as int)
    }
}

/// The contents of a restored region of `size` bytes: the base layer, with
/// the overlay mappings and then the working-set mappings laid over it.
pub open spec fn restored_bytes(
    size: nat,
    mem_file: Seq<u8>,
    overlay: Seq<LayerMapping>,
    overlay_file: Seq<u8>,
    working_set: Seq<LayerMapping>,
    ws_file: Seq<u8>,
) -> Seq<u8> {
    apply_mappings(
        apply_mappings(base_layer(size, mem_file), overlay, overlay_file),
        working_set,
        ws_file,
    )
}

/// Lays the mappings `ms` over `img`, in order, each backed by `file`.
/// Fails with `OverlayRegions`, leaving `img` as it was, where a mapping
/// reaches past the end of `file`.
pub fn apply_layer(img: &mut Vec<u8>, ms: &Vec<LayerMapping>, file: &Vec<u8>) -> (r: Result<(), Error>)
    requires
        mappings_inside(ms@, old(img)@.len()),
    ensures
        r is Ok <==> mappings_fit(ms@, file@.len()),
        final(img)@.len() == old(img)@.len(),
        r is Ok ==> final(img)@ == apply_mappings(old(img)@, ms@, file@),
        r is Err ==> r == Err::<(), Error>(Error::OverlayRegions) && final(img)@ == old(img)@,
{
    let mut k: usize = 0;
    while k < ms.len()
        invariant
            k <= ms@.len(),
            forall|j: int| 0 <= j < k ==> #[trigger] ms@[j].file_offset + ms@[j].len <= file@.len(),
        decreases ms@.len() - k,
    {
        let m = ms[k];
        let flen = file.len() as u64;
        if m.file_offset > flen || m.len as u64 > flen - m.file_offset {
            return Err(Error::OverlayRegions);
        }
        k = k + 1;
    }
    let ghost orig = img@;
    let mut k: usize = 0;
    while k < ms.len()
        invariant
            k <= ms@.len(),
            mappings_fit(ms@, file@.len()),
            mappings_inside(ms@, orig.len()),
            img@.len() == orig.len(),
            img@ == apply_mappings(orig, ms@.take(k as int), file@),
        decreases ms@.len() - k,
    {
        let m = ms[k];
        assert(m.region_offset + m.len <= img@.len());
        assert(m.file_offset + m.len <= file@.len());
        let ghost prev = img@;
        let flen: usize = file.len();
        let ilen: usize = img.len();
        assert(m.file_offset <= flen && m.region_offset + m.len <= ilen);
        let fo: usize = m.file_offset as usize;
        let mut b: usize = 0;
        while b < m.len
            invariant
                b <= m.len,
                m.region_offset + m.len <= img@.len(),
                fo + m.len <= file@.len(),
                fo == m.file_offset,
                ilen == img@.len(),
                flen == file@.len(),
                img@.len() == prev.len(),
                forall|x: int|
                    0 <= x < img@.len() ==> #[trigger] img@[x] == if m.region_offset <= x
                        < m.region_offset + b {
                        file@[fo + (x - m.region_offset)]
                    } else {
                        prev[x]
                    },
            decreases m.len - b,
        {
            img[m.region_offset + b] = file[fo + b];
            b = b + 1;
        }
        assert(img@ =~= apply_mapping(prev, m, file@));
        assert(ms@.take(k as int + 1).drop_last() =~= ms@.take(k as int));
        k = k + 1;
    }
    assert(ms@.take(ms@.len() as int) =~= ms@);
    Ok(())
}

impl GuestMemory {
    /// Restores a collection from `state` and up to three backing layers.
    /// The base layer is `mem_file`, or zeros where it is empty. Where
    /// `overlay_file` is not empty, each overlay range (page offset, page
    /// count) is laid over the base with the file's bytes at the same
    /// offset. Where `ws_file` is not empty, each working-set entry
    /// `[page offset, page count]` is then laid over the result with the
    /// file's bytes at a running offset, in the order given.
    ///
    /// Fails with `InvalidState` unless the state holds exactly one region at
    /// stream offset zero; else with `FileHandle` where `mem_file` is shorter
    /// than the region; else with `OverlayRegions` where a range does not lie
    /// inside the region, reaches past the end of its file, or the
    /// working-set file offsets pass `u64::MAX`.
    pub fn restore(
        state: &GuestMemoryState,
        mem_file: &Vec<u8>,
        overlay_file: &Vec<u8>,
        overlay_regions: &Vec<(i64, i64)>,
        ws_file: &Vec<u8>,
        ws_regions: &Vec<Vec<i64>>,
        page_size: usize,
    ) -> (r: Result<GuestMemory, Error>)
        ensures
            !state_restorable(*state) <==> r == Err::<GuestMemory, Error>(Error::InvalidState),
            state_restorable(*state) ==> ({
                let size = state.regions@[0].size as nat;
                let ps = page_size as nat;
                let ov = layer_ranges(overlay_file@, overlay_regions@);
                let ws = layer_ranges(ws_file@, ws_regions@);
                let base_ok = mem_file@.len() == 0 || mem_file@.len() >= size;
                let layers_ok = overlay_fits(ov, ps, size) && working_set_fits(ws, ps, size)
                    && ws_file_offset(ws, ws.len() as int, ps) <= u64::MAX && mappings_fit(
                    overlay_mappings(ov, ps),
                    overlay_file@.len(),
                ) && mappings_fit(working_set_mappings(ws, ps), ws_file@.len());
                &&& !base_ok <==> r == Err::<GuestMemory, Error>(Error::FileHandle)
                &&& base_ok && !layers_ok <==> r == Err::<GuestMemory, Error>(Error::OverlayRegions)
                &&& base_ok && layers_ok <==> r is Ok
            }),
            r matches Ok(mem) ==> {
                &&& mem.regions@.len() == 1
                &&& mem.regions@[0].base_address == state.regions@[0].base_address
                &&& mem.regions@[0].data@ == restored_bytes(
                    state.regions@[0].size as nat,
                    mem_file@,
                    overlay_mappings(layer_ranges(overlay_file@, overlay_regions@), page_size as nat),
                    overlay_file@,
                    working_set_mappings(layer_ranges(ws_file@, ws_regions@), page_size as nat),
                    ws_file@,
                )
            },
    {
        if state.regions.len() != 1 || state.regions[0].offset != 0 {
            return Err(Error::InvalidState);
        }
        let size: usize = state.regions[0].size;
        if mem_file.len() != 0 && mem_file.len() < size {
            return Err(Error::FileHandle);
        }
        let no_overlay: Vec<(i64, i64)> = Vec::new();
        let no_ws: Vec<Vec<i64>> = Vec::new();
        let ov = if overlay_file.len() == 0 {
            &no_overlay
        } else {
            overlay_regions
        };
        let ws = if ws_file.len() == 0 {
            &no_ws
        } else {
            ws_regions
        };
        assert(ov@ == layer_ranges(overlay_file@, overlay_regions@));
        assert(ws@ == layer_ranges(ws_file@, ws_regions@));
        let plan = match restore_plan(state, ov, ws, page_size) {
            Ok(plan) => plan,
            Err(e) => {
                return Err(e);
            },
        };

        let mut data: Vec<u8> = Vec::new();
        let mut x: usize = 0;
        while x < size
            invariant
                x <= size,
                mem_file@.len() == 0 || mem_file@.len() >= size,
                data@ == base_layer(size as nat, mem_file@).subrange(0, x as int),
            decreases size - x,
        {
            if mem_file.len() == 0 {
                data.push(0u8);
            } else {
                data.push(mem_file[x]);
            }
            assert(base_layer(size as nat, mem_file@).subrange(0, x as int + 1)
                =~= base_layer(size as nat, mem_file@).subrange(0, x as int).push(data@.last()));
            x = x + 1;
        }
        assert(data@ =~= base_layer(size as nat, mem_file@));
        proof {
            lemma_mappings_inside_overlay(ov@, page_size as nat, size as nat);
            lemma_mappings_inside_working_set(ws@, page_size as nat, size as nat);
        }
        match apply_layer(&mut data, &plan.overlay, overlay_file) {
            Ok(()) => {},
            Err(e) => {
                return Err(e);
            },
        }
        match apply_layer(&mut data, &plan.working_set, ws_file) {
            Ok(()) => {},
            Err(e) => {
                return Err(e);
            },
        }
        let mut regions: Vec<GuestRegion> = Vec::new();
        regions.push(GuestRegion { base_address: plan.base_address, data });
        Ok(GuestMemory { regions })
    }
}

proof fn lemma_mappings_inside_overlay(ov: Seq<(i64, i64)>, page_size: nat, size: nat)
    requires
        overlay_fits(ov, page_size, size),
        size <= usize::MAX,
    ensures
        mappings_inside(overlay_mappings(ov, page_size), size),
{
    assert forall|k: int| 0 <= k < ov.len() implies #[trigger] overlay_mappings(ov, page_size)[k].region_offset
        + overlay_mappings(ov, page_size)[k].len <= size by {
        lemma_range_casts(ov[k].0, ov[k].1, page_size, size);
    }
}

proof fn lemma_mappings_inside_working_set(ws: Seq<Vec<i64>>, page_size: nat, size: nat)
    requires
        working_set_fits(ws, page_size, size),
        size <= usize::MAX,
    ensures
        mappings_inside(working_set_mappings(ws, page_size), size),
{
    assert forall|k: int| 0 <= k < ws.len() implies #[trigger] working_set_mappings(ws, page_size)[k].region_offset
        + working_set_mappings(ws, page_size)[k].len <= size by {
        assert(ws[k]@.len() >= 2);
        lemma_range_casts(ws[k]@[0], ws[k]@[1], page_size, size);
    }
}

proof fn lemma_range_casts(off: i64, len: i64, page_size: nat, size: nat)
    requires
        range_fits(off, len, page_size, size),
        size <= usize::MAX,
    ensures
        (off * page_size) as usize + (len * page_size) as usize <= size,
{
    assert(off * page_size >= 0 && len * page_size >= 0) by (nonlinear_arith)
        requires
            off >= 0,
            len >= 0,
    ;
}

} // verus!

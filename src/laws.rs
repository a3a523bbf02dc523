use vstd::prelude::*;
use crate::dump::{has_bitmaps, is_dirty_dump, padded, page_is_dirty, stream_pos};
use crate::restore::{layer_ranges, overlay_mappings, restored_bytes, working_set_mappings, base_layer};
use crate::state::{GuestRegion, image, lemma_image_index, lemma_prefix_image_len, prefix_image, prefix_size, region_state_of, total_size};

verus! {

/// Every position of a full dump holds a byte of exactly one region:
/// position `x` below the sizes of the first `j` regions is byte `o` of some
/// region `i < j`.
pub proof fn lemma_stream_pos_cover(rs: Seq<GuestRegion>, j: int, x: int)
    requires
        0 <= j <= rs.len(),
        0 <= x < prefix_size(rs, j),
    ensures
        exists|i: int, o: int|
            0 <= i < j && 0 <= o < rs[i].data@.len() && #[trigger] stream_pos(rs, i, o) == x,
    decreases j,
{
    if x < prefix_size(rs, j - 1) {
        lemma_stream_pos_cover(rs, j - 1, x);
        let (i, o) = choose|i: int, o: int|
            0 <= i < j - 1 && 0 <= o < rs[i].data@.len() && #[trigger] stream_pos(rs, i, o) == x;
        assert(stream_pos(rs, i, o) == x);
    } else {
        let o = x - prefix_size(rs, j - 1);
        assert(stream_pos(rs, j - 1, o) == x);
    }
}

/// A dirty dump whose bitmaps mark no page dirty leaves a stream that already
/// holds a full dump unchanged: restoring from it gives what restoring from
/// the stream before did.
pub proof fn lemma_clean_dirty_dump_keeps_stream(
    rs: Seq<GuestRegion>,
    bitmap: Map<usize, Vec<u64>>,
    page_size: nat,
    before: Seq<u8>,
    after: Seq<u8>,
)
    requires
        has_bitmaps(rs, bitmap),
        forall|i: usize, p: int| (i as int) < rs.len() ==> !#[trigger] page_is_dirty(bitmap[i]@, p),
        before.len() >= total_size(rs),
        is_dirty_dump(rs, bitmap, page_size, before, after),
    ensures
        after == before,
{
    assert(padded(before, total_size(rs)) == before);
    assert forall|x: int| 0 <= x < before.len() implies after[x] == before[x] by {
        if x < total_size(rs) {
            lemma_stream_pos_cover(rs, rs.len() as int, x);
            let (i, o) = choose|i: int, o: int|
                0 <= i < rs.len() && 0 <= o < rs[i].data@.len() && #[trigger] stream_pos(rs, i, o)
                    == x;
            assert(!page_is_dirty(bitmap[i as usize]@, o / page_size as int));
        }
    }
    assert(after =~= before);
}

/// A dirty dump written over the full dump of the same memory leaves the
/// stream unchanged, whatever pages the bitmaps mark.
pub proof fn lemma_dirty_dump_over_own_full_dump(
    rs: Seq<GuestRegion>,
    bitmap: Map<usize, Vec<u64>>,
    page_size: nat,
    after: Seq<u8>,
)
    requires
        is_dirty_dump(rs, bitmap, page_size, image(rs), after),
    ensures
        after == image(rs),
{
    lemma_prefix_image_len(rs, rs.len() as int);
    assert(padded(image(rs), total_size(rs)) == image(rs));
    assert forall|x: int| 0 <= x < image(rs).len() implies after[x] == image(rs)[x] by {
        lemma_stream_pos_cover(rs, rs.len() as int, x);
        let (i, o) = choose|i: int, o: int|
            0 <= i < rs.len() && 0 <= o < rs[i].data@.len() && #[trigger] stream_pos(rs, i, o)
                == x;
        lemma_image_index(rs, i, rs.len() as int, o);
    }
    assert(after =~= image(rs));
}

/// Restoring a one-region collection from its own full dump, as `describe`
/// states it, with no overlay file and no working-set file, gives the
/// region's bytes back.
pub proof fn lemma_restore_of_full_dump(
    rs: Seq<GuestRegion>,
    overlay_regions: Seq<(i64, i64)>,
    ws_regions: Seq<Vec<i64>>,
    page_size: nat,
)
    requires
        rs.len() == 1,
        rs[0].data@.len() <= usize::MAX,
    ensures
        region_state_of(rs, 0).offset == 0,
        region_state_of(rs, 0).size == rs[0].data@.len(),
        image(rs).len() == rs[0].data@.len(),
        restored_bytes(
            region_state_of(rs, 0).size as nat,
            image(rs),
            overlay_mappings(layer_ranges(Seq::empty(), overlay_regions), page_size),
            Seq::empty(),
            working_set_mappings(layer_ranges(Seq::empty(), ws_regions), page_size),
            Seq::empty(),
        ) == rs[0].data@,
{
    let data = rs[0].data@;
    assert(image(rs) == prefix_image(rs, 0) + data);
    assert(image(rs) =~= data);
    assert(base_layer(data.len(), data) =~= data);
    assert(overlay_mappings(layer_ranges(Seq::<u8>::empty(), overlay_regions), page_size) =~= Seq::empty());
    assert(working_set_mappings(layer_ranges(Seq::<u8>::empty(), ws_regions), page_size) =~= Seq::empty());
}

} // verus!

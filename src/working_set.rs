use vstd::prelude::*;
use crate::error::Error;
use crate::restore::{range_fits, working_set_fits};

verus! {

/// Byte offsets, within the region, of the pages of the working-set entries
/// `[page offset, page count]`: one per page, entry by entry, in ascending
/// order within an entry.
pub open spec fn touch_offsets(ws: Seq<Vec<i64>>, page_size: nat) -> Seq<usize>
    decreases ws.len(),
{
    if ws.len() == 0 {
        Seq::empty()
    } else {
        touch_offsets(ws.drop_last(), page_size) + Seq::new(
            ws.last()@[1] as nat,
            |p: int| ((ws.last()@[0] + p) * page_size) as usize,
        )
    }
}

/// The pages to touch to bring the working set of a region of `size` bytes
/// into residence: the byte offset of each page of each entry, in order.
/// Fails with `FileHandle` where an entry lacks a page offset or a page
/// count, or does not lie inside the region.
pub fn working_set_pages(ws_regions: &Vec<Vec<i64>>, page_size: usize, size: usize) -> (r: Result<
    Vec<usize>,
    Error,
>)
    ensures
        r is Ok <==> working_set_fits(ws_regions@, page_size as nat, size as nat),
        r is Err ==> r == Err::<Vec<usize>, Error>(Error::FileHandle),
        r matches Ok(pages) ==> pages@ == touch_offsets(ws_regions@, page_size as nat),
{
    let mut k: usize = 0;
    while k < ws_regions.len()
        invariant
            k <= ws_regions@.len(),
            forall|j: int|
                0 <= j < k ==> #[trigger] ws_regions@[j]@.len() >= 2 && range_fits(
                    ws_regions@[j]@[0],
                    ws_regions@[j]@[1],
                    page_size as nat,
                    size as nat,
                ),
        decreases ws_regions@.len() - k,
    {
        let entry = &ws_regions[k];
        if entry.len() < 2 || entry[0] < 0 || entry[1] < 0 {
            return Err(Error::FileHandle);
        }
        let off: u128 = entry[0] as u128;
        let cnt: u128 = entry[1] as u128;
        let ps: u128 = page_size as u128;
        assert(off * ps < 0x8000_0000_0000_0000_0000_0000_0000_0000u128) by (nonlinear_arith)
            requires
                off < 0x8000_0000_0000_0000u128,
                ps < 0x1_0000_0000_0000_0000u128,
        ;
        assert(cnt * ps < 0x8000_0000_0000_0000_0000_0000_0000_0000u128) by (nonlinear_arith)
            requires
                cnt < 0x8000_0000_0000_0000u128,
                ps < 0x1_0000_0000_0000_0000u128,
        ;
        if off * ps + cnt * ps > size as u128 {
            return Err(Error::FileHandle);
        }
        k = k + 1;
    }

    let mut pages: Vec<usize> = Vec::new();
    let mut k: usize = 0;
    while k < ws_regions.len()
        invariant
            k <= ws_regions@.len(),
            working_set_fits(ws_regions@, page_size as nat, size as nat),
            pages@ == touch_offsets(ws_regions@.take(k as int), page_size as nat),
        decreases ws_regions@.len() - k,
    {
        let entry = &ws_regions[k];
        assert(ws_regions@[k as int]@.len() >= 2);
        let off: i64 = entry[0];
        let cnt: i64 = entry[1];
        let ghost before = pages@;
        let ghost f = |p: int| ((off + p) * page_size) as usize;
        assert(off * page_size >= 0 && cnt * page_size >= 0 && off * page_size < 0x8000_0000_0000_0000_0000_0000_0000_0000u128) by (nonlinear_arith)
            requires
                off >= 0,
                cnt >= 0,
                off < 0x8000_0000_0000_0000u128,
                page_size < 0x1_0000_0000_0000_0000u128,
        ;
        assert(range_fits(off, cnt, page_size as nat, size as nat));
        let start: u128 = off as u128 * page_size as u128;
        let mut pos: usize = start as usize;
        let mut p: i64 = 0;
        while p < cnt
            invariant
                0 <= p <= cnt,
                off >= 0,
                off * page_size + cnt * page_size <= size,
                pos == off * page_size + p * page_size,
                pages@ == before + Seq::new(p as nat, f),
                f == (|p: int| ((off + p) * page_size) as usize),
            decreases cnt - p,
        {
            assert(pos == (off + p) * page_size) by (nonlinear_arith)
                requires
                    pos == off * page_size + p * page_size,
            ;
            assert(pos + page_size <= size) by (nonlinear_arith)
                requires
                    pos == off * page_size + p * page_size,
                    p + 1 <= cnt,
                    off * page_size + cnt * page_size <= size,
                    page_size >= 0,
            ;
            pages.push(pos);
            assert(Seq::new(p as nat + 1, f) =~= Seq::new(p as nat, f).push(pos));
            pos = pos + page_size;
            assert(pos == off * page_size + (p + 1) * page_size) by (nonlinear_arith)
                requires
                    pos == off * page_size + p * page_size + page_size,
            ;
            p = p + 1;
        }
        assert(ws_regions@.take(k as int + 1).drop_last() =~= ws_regions@.take(k as int));
        assert(ws_regions@.take(k as int + 1).last() == ws_regions@[k as int]);
        k = k + 1;
    }
    assert(ws_regions@.take(ws_regions@.len() as int) =~= ws_regions@);
    Ok(pages)
}

} // verus!

use vstd::prelude::*;
use std::collections::HashMap;
use vstd::arithmetic::div_mod::{lemma_fundamental_div_mod, lemma_mod_pos_bound};
use crate::error::Error;
use crate::state::{
    GuestMemory, GuestRegion, image, prefix_image, prefix_size, total_size,
    lemma_prefix_size_monotone,
};

verus! {

/// A run of consecutive pages: `count` pages starting at page `start`.
#[derive(Debug, Clone, Copy, PartialEq, Eq, Structural)]
pub struct PageRun {
    pub start: usize,
    pub count: usize,
}

/// Page `p` is marked dirty in `words`: bit `p % 64` of word `p / 64`.
pub open spec fn page_is_dirty(words: Seq<u64>, p: int) -> bool {
    0 <= p && p / 64 < words.len() && (words[p / 64] >> ((p % 64) as u64)) & 1u64 == 1u64
}

/// Page `p` lies in run `r`.
pub open spec fn in_run(r: PageRun, p: int) -> bool {
    r.start <= p < r.start + r.count
}

/// Page `p` lies in one of `runs`.
pub open spec fn covered(runs: Seq<PageRun>, p: int) -> bool {
    exists|k: int| 0 <= k < runs.len() && in_run(#[trigger] runs[k], p)
}

/// `runs` are the maximal runs of the dirty pages of `words` below `limit`:
/// each is non-empty, they come in ascending order with at least one clean
/// page between two of them, and they cover exactly those dirty pages.
pub open spec fn are_dirty_runs(runs: Seq<PageRun>, words: Seq<u64>, limit: int) -> bool {
    &&& forall|k: int| 0 <= k < runs.len() ==> #[trigger] runs[k].count > 0
    &&& forall|k: int| 0 <= k < runs.len() ==> #[trigger] runs[k].start + runs[k].count <= limit
    &&& forall|k: int| 0 <= k < runs.len() - 1 ==> #[trigger] runs[k].start + runs[k].count < runs[k + 1].start
    &&& forall|p: int| 0 <= p < limit ==> (#[trigger] page_is_dirty(words, p) <==> covered(runs, p))
}

/// Finds the maximal runs of consecutive dirty pages among the pages below
/// `limit`, in ascending order. Bits past the end of `words` count as clean.
pub fn dirty_page_runs(words: &Vec<u64>, limit: usize) -> (runs: Vec<PageRun>)
    ensures
        are_dirty_runs(runs@, words@, limit as int),
{
    let mut runs: Vec<PageRun> = Vec::new();
    let mut start: usize = 0;
    let mut count: usize = 0;
    let mut p: usize = 0;
    while p < limit && p / 64 < words.len()
        invariant
            p <= limit,
            count > 0 ==> start + count == p,
            count > 0 ==> forall|q: int| start <= q < p ==> page_is_dirty(words@, q),
            forall|k: int| 0 <= k < runs@.len() ==> #[trigger] runs@[k].count > 0,
            forall|k: int| 0 <= k < runs@.len() ==> #[trigger] runs@[k].start + runs@[k].count < p,
            forall|k: int| 0 <= k < runs@.len() - 1 ==> #[trigger] runs@[k].start + runs@[k].count < runs@[k + 1].start,
            count > 0 && runs@.len() > 0 ==> runs@.last().start + runs@.last().count < start,
            forall|q: int| 0 <= q < p ==> (#[trigger] page_is_dirty(words@, q) <==> (covered(runs@, q) || (count > 0 && start <= q))),
        decreases limit - p,
    {
        let word: u64 = words[p / 64];
        let bit: u64 = (p % 64) as u64;
        let dirty = (word >> bit) & 1u64 == 1u64;
        assert(dirty == page_is_dirty(words@, p as int));
        if dirty {
            if count == 0 {
                start = p;
            }
            count = count + 1;
        } else if count > 0 {
            let ghost old_runs = runs@;
            runs.push(PageRun { start, count });
            proof {
                assert forall|q: int| 0 <= q < p + 1 implies (#[trigger] page_is_dirty(words@, q) <==> covered(runs@, q)) by {
                    if covered(old_runs, q) {
                        let k = choose|k: int| 0 <= k < old_runs.len() && in_run(#[trigger] old_runs[k], q);
                        assert(runs@[k] == old_runs[k]);
                    }
                    if start <= q < p {
                        assert(in_run(runs@[old_runs.len() as int], q));
                    }
                    if covered(runs@, q) {
                        let k = choose|k: int| 0 <= k < runs@.len() && in_run(#[trigger] runs@[k], q);
                        if k < old_runs.len() {
                            assert(old_runs[k] == runs@[k]);
                        }
                    }
                }
            }
            count = 0;
        }
        p = p + 1;
    }
    if count > 0 {
        let ghost old_runs = runs@;
        runs.push(PageRun { start, count });
        proof {
            assert forall|q: int| 0 <= q < p implies (#[trigger] page_is_dirty(words@, q) <==> covered(runs@, q)) by {
                if covered(old_runs, q) {
                    let k = choose|k: int| 0 <= k < old_runs.len() && in_run(#[trigger] old_runs[k], q);
                    assert(runs@[k] == old_runs[k]);
                }
                if start <= q < p {
                    assert(in_run(runs@[old_runs.len() as int], q));
                }
                if covered(runs@, q) {
                    let k = choose|k: int| 0 <= k < runs@.len() && in_run(#[trigger] runs@[k], q);
                    if k < old_runs.len() {
                        assert(old_runs[k] == runs@[k]);
                    }
                }
            }
        }
    }
    proof {
        assert forall|q: int| p <= q < limit implies !(#[trigger] page_is_dirty(words@, q)) && !covered(runs@, q) by {
            assert(q / 64 >= p / 64) by (nonlinear_arith) requires q >= p, p >= 0;
            if covered(runs@, q) {
                let k = choose|k: int| 0 <= k < runs@.len() && in_run(#[trigger] runs@[k], q);
            }
        }
    }
    runs
}

/// Position of byte `o` of region `i` in a dump stream.
pub open spec fn stream_pos(rs: Seq<GuestRegion>, i: int, o: int) -> int {
    prefix_size(rs, i) + o
}

/// `s` extended with zeros to length `n`, as a hole in a sparse file reads.
pub open spec fn padded(s: Seq<u8>, n: nat) -> Seq<u8> {
    if s.len() >= n {
        s
    } else {
        s + Seq::new((n - s.len()) as nat, |k: int| 0u8)
    }
}

/// `after` is the stream `before` once a dirty dump of `rs` has been written
/// over it: the stream is at least as long as a full dump, byte `o` of region
/// `i` is the region's byte where its page is dirty in the region's bitmap,
/// and every other byte is left as it was (zero where `before` was shorter).
pub open spec fn is_dirty_dump(
    rs: Seq<GuestRegion>,
    bitmap: Map<usize, Vec<u64>>,
    page_size: nat,
    before: Seq<u8>,
    after: Seq<u8>,
) -> bool {
    let base = padded(before, total_size(rs));
    &&& after.len() == base.len()
    &&& forall|i: int, o: int|
        0 <= i < rs.len() && 0 <= o < rs[i].data@.len() ==> after[#[trigger] stream_pos(rs, i, o)]
            == if page_is_dirty(bitmap[i as usize]@, o / page_size as int) {
            rs[i].data@[o]
        } else {
            base[stream_pos(rs, i, o)]
        }
    &&& forall|x: int| total_size(rs) <= x < after.len() ==> after[x] == base[x]
}

/// Every region of `rs` has a bitmap in `bitmap`, under its index.
pub open spec fn has_bitmaps(rs: Seq<GuestRegion>, bitmap: Map<usize, Vec<u64>>) -> bool {
    forall|i: usize| (i as int) < rs.len() ==> #[trigger] bitmap.contains_key(i)
}

proof fn lemma_page_bounds(o: int, ps: int, s: int)
    requires
        0 <= o,
        0 < ps,
        0 <= s,
    ensures
        s * ps <= o <==> s <= o / ps,
{
    lemma_fundamental_div_mod(o, ps);
    lemma_mod_pos_bound(o, ps);
    let q = o / ps;
    let r = o % ps;
    if s <= q {
        assert(s * ps <= o) by (nonlinear_arith)
            requires
                s <= q,
                ps > 0,
                o == ps * q + r,
                r >= 0,
        ;
    } else {
        assert(s * ps > o) by (nonlinear_arith)
            requires
                s >= q + 1,
                ps > 0,
                o == ps * q + r,
                r < ps,
        ;
    }
}

proof fn lemma_page_count(size: int, ps: int, npages: int, s: int)
    requires
        0 <= size,
        0 < ps,
        0 <= s,
        npages == size / ps + if size % ps != 0 {
            1int
        } else {
            0int
        },
    ensures
        s < npages ==> s * ps < size,
        s >= npages ==> s * ps >= size,
{
    lemma_fundamental_div_mod(size, ps);
    lemma_mod_pos_bound(size, ps);
    let q = size / ps;
    let r = size % ps;
    if r == 0 {
        assert(s < q ==> s * ps < size) by (nonlinear_arith)
            requires
                ps > 0,
                size == ps * q + r,
                r == 0,
        ;
        assert(s >= q ==> s * ps >= size) by (nonlinear_arith)
            requires
                ps > 0,
                size == ps * q + r,
                r == 0,
        ;
    } else {
        assert(s <= q ==> s * ps < size) by (nonlinear_arith)
            requires
                ps > 0,
                size == ps * q + r,
                r > 0,
        ;
        assert(s >= q + 1 ==> s * ps >= size) by (nonlinear_arith)
            requires
                ps > 0,
                size == ps * q + r,
                r < ps,
        ;
    }
}

proof fn lemma_covered_take_step(runs: Seq<PageRun>, k: int, p: int)
    requires
        0 <= k < runs.len(),
    ensures
        covered(runs.take(k + 1), p) <==> (covered(runs.take(k), p) || in_run(runs[k], p)),
{
    if covered(runs.take(k + 1), p) {
        let j = choose|j: int| 0 <= j < k + 1 && in_run(#[trigger] runs.take(k + 1)[j], p);
        if j < k {
            assert(runs.take(k)[j] == runs[j]);
        }
    }
    if covered(runs.take(k), p) {
        let j = choose|j: int| 0 <= j < k && in_run(#[trigger] runs.take(k)[j], p);
        assert(runs.take(k + 1)[j] == runs[j]);
    }
    if in_run(runs[k], p) {
        assert(runs.take(k + 1)[k] == runs[k]);
    }
}

impl GuestMemory {
    /// Dumps all contents of the collection to `writer`: every region's
    /// bytes, in collection order, appended with no gaps.
    pub fn dump(&self, writer: &mut Vec<u8>)
        ensures
            final(writer)@ == old(writer)@ + image(self.regions@),
    {
        let mut i: usize = 0;
        while i < self.regions.len()
            invariant
                i <= self.regions@.len(),
                writer@ == old(writer)@ + prefix_image(self.regions@, i as int),
            decreases self.regions@.len() - i,
        {
            let data = &self.regions[i].data;
            let ghost before = writer@;
            let mut j: usize = 0;
            while j < data.len()
                invariant
                    j <= data@.len(),
                    data@ == self.regions@[i as int].data@,
                    writer@ == before + data@.subrange(0, j as int),
                decreases data@.len() - j,
            {
                writer.push(data[j]);
                assert(data@.subrange(0, j as int + 1) == data@.subrange(0, j as int).push(data@[j as int]));
                j = j + 1;
            }
            assert(data@.subrange(0, data@.len() as int) == data@);
            assert(prefix_image(self.regions@, i as int + 1) == prefix_image(self.regions@, i as int) + data@);
            i = i + 1;
        }
    }

    /// Dumps the pages marked dirty in `dirty_bitmap` to `writer`, a stream
    /// laid out as a full dump. Slot `i` of the bitmap holds region `i`'s
    /// bits, one per page of `page_size` bytes. Each maximal run of dirty
    /// pages is written at the region's stream offset plus the run's byte
    /// offset; clean pages are skipped and keep what the stream held. A
    /// stream shorter than a full dump is first extended with zeros. The
    /// last page of a region may be partial: only the region's own bytes are
    /// written.
    ///
    /// Fails with `WriteMemory`, before writing anything, when a region has
    /// no bitmap.
    pub fn dump_dirty(
        &self,
        writer: &mut Vec<u8>,
        dirty_bitmap: &HashMap<usize, Vec<u64>>,
        page_size: usize,
    ) -> (r: Result<(), Error>)
        requires
            page_size > 0,
            total_size(self.regions@) <= usize::MAX,
        ensures
            r is Err <==> !has_bitmaps(self.regions@, dirty_bitmap@),
            r is Err ==> r == Err::<(), Error>(Error::WriteMemory) && final(writer)@ == old(writer)@,
            r is Ok ==> is_dirty_dump(
                self.regions@,
                dirty_bitmap@,
                page_size as nat,
                old(writer)@,
                final(writer)@,
            ),
    {
        broadcast use vstd::std_specs::hash::group_hash_axioms;

        let ghost rs = self.regions@;
        let n: usize = self.regions.len();
        let mut i: usize = 0;
        let mut total: usize = 0;
        while i < n
            invariant
                i <= n,
                n == rs.len(),
                rs == self.regions@,
                total == prefix_size(rs, i as int),
                total_size(rs) <= usize::MAX,
                forall|j: usize| j < i ==> #[trigger] dirty_bitmap@.contains_key(j),
                writer@ == old(writer)@,
            decreases n - i,
        {
            if dirty_bitmap.get(&i).is_none() {
                return Err(Error::WriteMemory);
            }
            proof {
                lemma_prefix_size_monotone(rs, i as int + 1, n as int);
            }
            total = total + self.regions[i].data.len();
            i = i + 1;
        }

        let ghost before = writer@;
        while writer.len() < total
            invariant
                writer@.len() >= before.len(),
                writer@.len() <= total || writer@.len() == before.len(),
                forall|x: int| 0 <= x < before.len() ==> writer@[x] == before[x],
                forall|x: int| before.len() <= x < writer@.len() ==> writer@[x] == 0u8,
            decreases total - writer@.len(),
        {
            writer.push(0u8);
        }
        assert(writer@ =~= padded(before, total_size(rs)));

        let ghost base = writer@;
        let mut i: usize = 0;
        let mut offset: usize = 0;
        while i < n
            invariant
                i <= n,
                n == rs.len(),
                rs == self.regions@,
                page_size > 0,
                offset == prefix_size(rs, i as int),
                total == total_size(rs),
                total <= usize::MAX,
                base == padded(before, total_size(rs)),
                writer@.len() == base.len(),
                base.len() >= total,
                has_bitmaps(rs, dirty_bitmap@),
                forall|j: int, o: int|
                    0 <= j < i && 0 <= o < rs[j].data@.len() ==> writer@[#[trigger] stream_pos(rs, j, o)]
                        == if page_is_dirty(dirty_bitmap@[j as usize]@, o / page_size as int) {
                        rs[j].data@[o]
                    } else {
                        base[stream_pos(rs, j, o)]
                    },
                forall|x: int| offset <= x < writer@.len() ==> writer@[x] == base[x],
            decreases n - i,
        {
            let data = &self.regions[i].data;
            let size: usize = data.len();
            let words = match dirty_bitmap.get(&i) {
                Some(w) => w,
                None => {
                    return Err(Error::WriteMemory);
                },
            };
            proof {
                lemma_prefix_size_monotone(rs, i as int + 1, n as int);
            }
            proof {
                let sz = size as int;
                let ps = page_size as int;
                lemma_fundamental_div_mod(sz, ps);
                lemma_mod_pos_bound(sz, ps);
                assert(sz % ps != 0 ==> sz / ps < usize::MAX) by (nonlinear_arith)
                    requires
                        ps > 0,
                        sz == ps * (sz / ps) + sz % ps,
                        sz / ps >= 0,
                        sz % ps >= 0,
                        sz <= usize::MAX,
                ;
            }
            let npages: usize = if size % page_size != 0 {
                size / page_size + 1
            } else {
                size / page_size
            };
            let runs = dirty_page_runs(words, npages);
            let ghost saved = writer@;
            let mut k: usize = 0;
            while k < runs.len()
                invariant
                    k <= runs@.len(),
                    are_dirty_runs(runs@, words@, npages as int),
                    page_size > 0,
                    data@ == rs[i as int].data@,
                    size == data@.len(),
                    offset == prefix_size(rs, i as int),
                    offset + size <= total,
                    npages == size as int / page_size as int + if size as int % page_size as int != 0 {
                        1int
                    } else {
                        0int
                    },
                    writer@.len() == saved.len(),
                    saved.len() >= total,
                    forall|x: int|
                        0 <= x < writer@.len() && !(offset <= x < offset + size) ==> writer@[x]
                            == saved[x],
                    forall|o: int|
                        0 <= o < size ==> writer@[#[trigger] stream_pos(rs, i as int, o)] == if covered(
                            runs@.take(k as int),
                            o / page_size as int,
                        ) {
                            data@[o]
                        } else {
                            saved[stream_pos(rs, i as int, o)]
                        },
                decreases runs@.len() - k,
            {
                let run = runs[k];
                assert(run.count > 0 && run.start + run.count <= npages);
                proof {
                    lemma_page_count(size as int, page_size as int, npages as int, run.start as int);
                    lemma_page_count(
                        size as int,
                        page_size as int,
                        npages as int,
                        run.start + run.count,
                    );
                }
                let lo: usize = run.start * page_size;
                let end_page: usize = run.start + run.count;
                let hi: usize = if end_page >= npages {
                    size
                } else {
                    end_page * page_size
                };
                assert(lo <= hi) by (nonlinear_arith)
                    requires
                        lo == run.start * page_size,
                        hi == size || hi == end_page * page_size,
                        lo < size,
                        run.start <= end_page,
                ;
                let mut b: usize = lo;
                while b < hi
                    invariant
                        lo <= b <= hi,
                        hi <= size,
                        size == data@.len(),
                        offset + size <= total,
                        writer@.len() == saved.len(),
                        saved.len() >= total,
                        offset == prefix_size(rs, i as int),
                        forall|x: int|
                            0 <= x < writer@.len() && !(offset <= x < offset + size) ==> writer@[x]
                                == saved[x],
                        forall|o: int|
                            0 <= o < size ==> writer@[#[trigger] stream_pos(rs, i as int, o)] == if covered(
                                runs@.take(k as int),
                                o / page_size as int,
                            ) || (lo <= o < b) {
                                data@[o]
                            } else {
                                saved[stream_pos(rs, i as int, o)]
                            },
                    decreases hi - b,
                {
                    writer[offset + b] = data[b];
                    b = b + 1;
                }
                proof {
                    assert forall|o: int| 0 <= o < size implies #[trigger] stream_pos(rs, i as int, o) == offset + o && ((lo <= o < hi) <==> in_run(
                        run,
                        o / page_size as int,
                    )) && (covered(runs@.take(k as int + 1), o / page_size as int) <==> (covered(
                        runs@.take(k as int),
                        o / page_size as int,
                    ) || in_run(run, o / page_size as int))) by {
                        lemma_page_bounds(o, page_size as int, run.start as int);
                        lemma_page_bounds(o, page_size as int, end_page as int);
                        lemma_page_bounds(o, page_size as int, npages as int);
                        lemma_page_count(size as int, page_size as int, npages as int, npages as int);
                        lemma_covered_take_step(runs@, k as int, o / page_size as int);
                    }
                }
                k = k + 1;
            }
            proof {
                assert(runs@.take(runs@.len() as int) =~= runs@);
                assert forall|o: int| 0 <= o < size implies #[trigger] stream_pos(rs, i as int, o) == offset + o && (o / page_size as int) < npages by {
                    lemma_page_bounds(o, page_size as int, npages as int);
                    lemma_page_count(size as int, page_size as int, npages as int, npages as int);
                }
                assert forall|j: int, o: int|
                    0 <= j < i && 0 <= o < rs[j].data@.len() implies stream_pos(rs, j, o) < offset by {
                    lemma_prefix_size_monotone(rs, j + 1, i as int);
                }
            }
            offset = offset + size;
            i = i + 1;
        }
        Ok(())
    }
}

} // verus!

use std::collections::HashMap;

use memory_snapshot::dump::{dirty_page_runs, PageRun};
use memory_snapshot::error::Error;
use memory_snapshot::page::host_page_size;
use memory_snapshot::restore::{restore_plan, LayerMapping};
use memory_snapshot::state::{GuestMemory, GuestMemoryRegionState, GuestMemoryState, GuestRegion};
use memory_snapshot::working_set::working_set_pages;

fn page_size() -> usize {
    host_page_size().unwrap()
}

fn memory(regions: &[(u64, Vec<u8>)]) -> GuestMemory {
    GuestMemory {
        regions: regions
            .iter()
            .map(|(base_address, data)| GuestRegion { base_address: *base_address, data: data.clone() })
            .collect(),
    }
}

fn one_region_state(size: usize) -> GuestMemoryState {
    GuestMemoryState { regions: vec![GuestMemoryRegionState { base_address: 0, size, offset: 0 }] }
}

fn restore_plain(state: &GuestMemoryState, mem_file: &Vec<u8>) -> Result<GuestMemory, Error> {
    GuestMemory::restore(state, mem_file, &Vec::new(), &Vec::new(), &Vec::new(), &Vec::new(), page_size())
}

#[test]
fn host_page_size_is_positive() {
    assert!(page_size() > 0);
}

#[test]
fn test_describe_state() {
    let page_size = page_size();

    // Two regions of one page each, with a one page gap between them.
    let guest_memory = memory(&[(0, vec![0u8; page_size]), (page_size as u64 * 2, vec![0u8; page_size])]);
    let expected_memory_state = GuestMemoryState {
        regions: vec![
            GuestMemoryRegionState { base_address: 0, size: page_size, offset: 0 },
            GuestMemoryRegionState { base_address: page_size as u64 * 2, size: page_size, offset: page_size as u64 },
        ],
    };
    let actual_memory_state = guest_memory.describe();
    assert_eq!(expected_memory_state, actual_memory_state);

    // Two regions of three pages each, with a one page gap between them.
    let guest_memory =
        memory(&[(0, vec![0u8; page_size * 3]), (page_size as u64 * 4, vec![0u8; page_size * 3])]);
    let expected_memory_state = GuestMemoryState {
        regions: vec![
            GuestMemoryRegionState { base_address: 0, size: page_size * 3, offset: 0 },
            GuestMemoryRegionState {
                base_address: page_size as u64 * 4,
                size: page_size * 3,
                offset: page_size as u64 * 3,
            },
        ],
    };
    let actual_memory_state = guest_memory.describe();
    assert_eq!(expected_memory_state, actual_memory_state);
}

#[test]
fn describe_gives_prefix_sums_of_sizes() {
    let guest_memory = memory(&[(0, vec![0u8; 5]), (100, vec![0u8; 7]), (200, vec![0u8; 3])]);
    let state = guest_memory.describe();
    let offsets: Vec<u64> = state.regions.iter().map(|r| r.offset).collect();
    let sizes: Vec<usize> = state.regions.iter().map(|r| r.size).collect();
    let bases: Vec<u64> = state.regions.iter().map(|r| r.base_address).collect();
    assert_eq!(offsets, vec![0, 5, 12]);
    assert_eq!(sizes, vec![5, 7, 3]);
    assert_eq!(bases, vec![0, 100, 200]);
    assert_eq!(GuestMemory { regions: Vec::new() }.describe(), GuestMemoryState::default());
}

#[test]
fn test_restore_memory() {
    let page_size = page_size();

    // Two regions of two pages each, with a one page gap between them.
    let first_region = vec![1u8; page_size * 2];
    let second_region = vec![2u8; page_size * 2];
    let guest_memory =
        memory(&[(0, first_region.clone()), (page_size as u64 * 3, second_region.clone())]);
    let memory_state = guest_memory.describe();

    // Only one region can be restored at a time.
    assert_eq!(restore_plain(&memory_state, &Vec::new()).unwrap_err(), Error::InvalidState);

    // Case 1: dump the full memory.
    {
        let mut memory_file = Vec::new();
        guest_memory.dump(&mut memory_file);
        assert_eq!(memory_file.len(), page_size * 4);

        let restored = restore_plain(&one_region_state(page_size * 2), &memory_file[..page_size * 2].to_vec()).unwrap();
        assert_eq!(first_region, restored.regions[0].data);
        let restored = restore_plain(&one_region_state(page_size * 2), &memory_file[page_size * 2..].to_vec()).unwrap();
        assert_eq!(second_region, restored.regions[0].data);
    }

    // Case 2: dump only the dirty pages.
    {
        // First region pages: [dirty, clean]
        // Second region pages: [clean, dirty]
        let mut dirty_bitmap: HashMap<usize, Vec<u64>> = HashMap::new();
        dirty_bitmap.insert(0, vec![0b01; 1]);
        dirty_bitmap.insert(1, vec![0b10; 1]);

        let mut file = Vec::new();
        guest_memory.dump_dirty(&mut file, &dirty_bitmap, page_size).unwrap();

        let zeros = vec![0u8; page_size];
        let ones = vec![1u8; page_size];
        let twos = vec![2u8; page_size];
        let expected_first_region = [ones.as_slice(), zeros.as_slice()].concat();
        let expected_second_region = [zeros.as_slice(), twos.as_slice()].concat();

        let restored = restore_plain(&one_region_state(page_size * 2), &file[..page_size * 2].to_vec()).unwrap();
        assert_eq!(expected_first_region, restored.regions[0].data);
        let restored = restore_plain(&one_region_state(page_size * 2), &file[page_size * 2..].to_vec()).unwrap();
        assert_eq!(expected_second_region, restored.regions[0].data);
    }
}

#[test]
fn two_one_page_regions_full_dump_round_trip() {
    let ps = page_size();
    let guest_memory = memory(&[(0, vec![1u8; ps]), (ps as u64 * 2, vec![2u8; ps])]);
    let state = guest_memory.describe();
    assert_eq!(state.regions[0].offset, 0);
    assert_eq!(state.regions[1].offset, ps as u64);
    let mut stream = Vec::new();
    guest_memory.dump(&mut stream);
    let r0 = restore_plain(&one_region_state(ps), &stream[..ps].to_vec()).unwrap();
    let r1 = restore_plain(&one_region_state(ps), &stream[ps..].to_vec()).unwrap();
    assert!(r0.regions[0].data.iter().all(|b| *b == 1));
    assert!(r1.regions[0].data.iter().all(|b| *b == 2));
}

#[test]
fn single_region_round_trip() {
    let data: Vec<u8> = (0..3000u32).map(|i| (i % 251) as u8).collect();
    let guest_memory = memory(&[(0x1000, data.clone())]);
    let state = guest_memory.describe();
    let mut stream = Vec::new();
    guest_memory.dump(&mut stream);
    let restored = restore_plain(&state, &stream).unwrap();
    assert_eq!(restored.regions.len(), 1);
    assert_eq!(restored.regions[0].base_address, 0x1000);
    assert_eq!(restored.regions[0].data, data);
}

#[test]
fn dump_appends_to_writer() {
    let guest_memory = memory(&[(0, vec![7u8, 8]), (10, vec![9u8])]);
    let mut stream = vec![1u8];
    guest_memory.dump(&mut stream);
    assert_eq!(stream, vec![1u8, 7, 8, 9]);
}

#[test]
fn clean_dirty_dump_leaves_full_dump_unchanged() {
    let guest_memory = memory(&[(0, vec![3u8; 8]), (100, vec![4u8; 4])]);
    let mut full = Vec::new();
    guest_memory.dump(&mut full);
    let mut stream = full.clone();
    let mut bitmap: HashMap<usize, Vec<u64>> = HashMap::new();
    bitmap.insert(0, vec![0]);
    bitmap.insert(1, vec![]);
    guest_memory.dump_dirty(&mut stream, &bitmap, 2).unwrap();
    assert_eq!(stream, full);
}

#[test]
fn dirty_dump_over_other_stream_writes_only_dirty_pages() {
    // Pages of 2 bytes; region 0 has 4 pages, region 1 has 2.
    let guest_memory = memory(&[(0, vec![1, 2, 3, 4, 5, 6, 7, 8]), (64, vec![9, 10, 11, 12])]);
    let mut stream = vec![0xEEu8; 12];
    let mut bitmap: HashMap<usize, Vec<u64>> = HashMap::new();
    bitmap.insert(0, vec![0b1101]);
    bitmap.insert(1, vec![0b10]);
    guest_memory.dump_dirty(&mut stream, &bitmap, 2).unwrap();
    assert_eq!(stream, vec![1, 2, 0xEE, 0xEE, 5, 6, 7, 8, 0xEE, 0xEE, 11, 12]);
}

#[test]
fn dirty_dump_partial_last_page() {
    // A region of 5 bytes with pages of 4 bytes: the last page holds 1 byte.
    let guest_memory = memory(&[(0, vec![1, 2, 3, 4, 5])]);
    let mut stream = Vec::new();
    let mut bitmap: HashMap<usize, Vec<u64>> = HashMap::new();
    // Bits past the region's pages are ignored.
    bitmap.insert(0, vec![0b1110]);
    guest_memory.dump_dirty(&mut stream, &bitmap, 4).unwrap();
    assert_eq!(stream, vec![0, 0, 0, 0, 5]);
    let state = guest_memory.describe();
    let restored = GuestMemory::restore(&state, &stream, &Vec::new(), &Vec::new(), &Vec::new(), &Vec::new(), 4).unwrap();
    assert_eq!(restored.regions[0].data, vec![0, 0, 0, 0, 5]);
}

#[test]
fn dirty_dump_short_bitmap() {
    // 70 one-byte pages; the bitmap covers only the first 64.
    let guest_memory = memory(&[(0, vec![9u8; 70])]);
    let mut stream = Vec::new();
    let mut bitmap: HashMap<usize, Vec<u64>> = HashMap::new();
    bitmap.insert(0, vec![1u64 << 63]);
    guest_memory.dump_dirty(&mut stream, &bitmap, 1).unwrap();
    let mut expected = vec![0u8; 70];
    expected[63] = 9;
    assert_eq!(stream, expected);
}

#[test]
fn dirty_dump_missing_bitmap_fails() {
    let guest_memory = memory(&[(0, vec![1u8; 4]), (8, vec![2u8; 4])]);
    let mut stream = vec![5u8; 3];
    let mut bitmap: HashMap<usize, Vec<u64>> = HashMap::new();
    bitmap.insert(0, vec![1]);
    assert_eq!(guest_memory.dump_dirty(&mut stream, &bitmap, 2), Err(Error::WriteMemory));
    assert_eq!(stream, vec![5u8; 3]);
}

#[test]
fn runs_of_dirty_pages() {
    let runs = dirty_page_runs(&vec![0b0111_0010_1100u64], 64);
    assert_eq!(
        runs,
        vec![PageRun { start: 2, count: 2 }, PageRun { start: 5, count: 1 }, PageRun { start: 8, count: 3 }]
    );
    // A run across a word boundary is one run.
    let runs = dirty_page_runs(&vec![1u64 << 63, 0b11], 128);
    assert_eq!(runs, vec![PageRun { start: 63, count: 3 }]);
    // The limit cuts the run.
    let runs = dirty_page_runs(&vec![u64::MAX], 10);
    assert_eq!(runs, vec![PageRun { start: 0, count: 10 }]);
    assert_eq!(dirty_page_runs(&vec![], 10), vec![]);
    assert_eq!(dirty_page_runs(&vec![0, 0], 128), vec![]);
}

#[test]
fn restore_with_overlay_page() {
    let ps = 4usize;
    let base: Vec<u8> = (0..12u8).collect();
    let overlay: Vec<u8> = (100..112u8).collect();
    let state = one_region_state(12);
    let restored =
        GuestMemory::restore(&state, &base, &overlay, &vec![(0, 1)], &Vec::new(), &Vec::new(), ps).unwrap();
    assert_eq!(restored.regions[0].data, vec![100, 101, 102, 103, 4, 5, 6, 7, 8, 9, 10, 11]);

    let ps = page_size();
    let base = vec![1u8; ps * 3];
    let overlay = vec![7u8; ps * 3];
    let restored =
        GuestMemory::restore(&one_region_state(ps * 3), &base, &overlay, &vec![(0, 1)], &Vec::new(), &Vec::new(), ps)
            .unwrap();
    assert_eq!(restored.regions[0].data[..ps], overlay[..ps]);
    assert_eq!(restored.regions[0].data[ps..], base[ps..]);
}

#[test]
fn restore_overlay_uses_same_file_offset() {
    let overlay: Vec<u8> = (100..112u8).collect();
    let restored = GuestMemory::restore(
        &one_region_state(12),
        &Vec::new(),
        &overlay,
        &vec![(2, 1)],
        &Vec::new(),
        &Vec::new(),
        4,
    )
    .unwrap();
    assert_eq!(restored.regions[0].data, vec![0, 0, 0, 0, 0, 0, 0, 0, 108, 109, 110, 111]);
}

#[test]
fn restore_working_set_uses_running_file_offset() {
    let ws_file: Vec<u8> = (50..58u8).collect();
    let overlay: Vec<u8> = vec![9u8; 12];
    let restored = GuestMemory::restore(
        &one_region_state(12),
        &Vec::new(),
        &overlay,
        &vec![(0, 3)],
        &ws_file,
        &vec![vec![2, 1], vec![0, 1]],
        4,
    )
    .unwrap();
    assert_eq!(restored.regions[0].data, vec![54, 55, 56, 57, 9, 9, 9, 9, 50, 51, 52, 53]);
}

#[test]
fn restore_without_files_ignores_ranges() {
    let restored = GuestMemory::restore(
        &one_region_state(8),
        &Vec::new(),
        &Vec::new(),
        &vec![(100, 100)],
        &Vec::new(),
        &vec![vec![-1]],
        4,
    )
    .unwrap();
    assert_eq!(restored.regions[0].data, vec![0u8; 8]);
}

#[test]
fn restore_fails_on_multiple_regions() {
    let state = GuestMemoryState {
        regions: vec![
            GuestMemoryRegionState { base_address: 0, size: 4, offset: 0 },
            GuestMemoryRegionState { base_address: 8, size: 4, offset: 4 },
        ],
    };
    assert_eq!(restore_plain(&state, &vec![0u8; 8]).unwrap_err(), Error::InvalidState);
    assert_eq!(restore_plain(&GuestMemoryState::default(), &Vec::new()).unwrap_err(), Error::InvalidState);
    let state = GuestMemoryState { regions: vec![GuestMemoryRegionState { base_address: 0, size: 4, offset: 4 }] };
    assert_eq!(restore_plain(&state, &vec![0u8; 8]).unwrap_err(), Error::InvalidState);
}

#[test]
fn restore_fails_on_short_memory_file() {
    assert_eq!(restore_plain(&one_region_state(8), &vec![1u8; 7]).unwrap_err(), Error::FileHandle);
}

#[test]
fn restore_fails_on_bad_layers() {
    let state = one_region_state(8);
    let file = vec![1u8; 8];
    // Overlay range outside the region.
    let r = GuestMemory::restore(&state, &file, &file, &vec![(1, 2)], &Vec::new(), &Vec::new(), 4);
    assert_eq!(r.unwrap_err(), Error::OverlayRegions);
    // Negative overlay offset.
    let r = GuestMemory::restore(&state, &file, &file, &vec![(-1, 1)], &Vec::new(), &Vec::new(), 4);
    assert_eq!(r.unwrap_err(), Error::OverlayRegions);
    // Overlay file too short.
    let r = GuestMemory::restore(&state, &file, &vec![1u8; 6], &vec![(1, 1)], &Vec::new(), &Vec::new(), 4);
    assert_eq!(r.unwrap_err(), Error::OverlayRegions);
    // Working-set entry without a page count.
    let r = GuestMemory::restore(&state, &file, &Vec::new(), &Vec::new(), &file, &vec![vec![0]], 4);
    assert_eq!(r.unwrap_err(), Error::OverlayRegions);
    // Working-set file too short for the running offset.
    let r = GuestMemory::restore(&state, &file, &Vec::new(), &Vec::new(), &vec![1u8; 4], &vec![vec![0, 1], vec![1, 1]], 4);
    assert_eq!(r.unwrap_err(), Error::OverlayRegions);
}

#[test]
fn plan_of_layers() {
    let state = GuestMemoryState { regions: vec![GuestMemoryRegionState { base_address: 0x4000, size: 40, offset: 0 }] };
    let plan = restore_plan(&state, &vec![(1, 2), (5, 1)], &vec![vec![3, 2], vec![0, 1], vec![9, 1]], 4).unwrap();
    assert_eq!(plan.base_address, 0x4000);
    assert_eq!(plan.size, 40);
    assert_eq!(
        plan.overlay,
        vec![
            LayerMapping { region_offset: 4, len: 8, file_offset: 4 },
            LayerMapping { region_offset: 20, len: 4, file_offset: 20 },
        ]
    );
    assert_eq!(
        plan.working_set,
        vec![
            LayerMapping { region_offset: 12, len: 8, file_offset: 0 },
            LayerMapping { region_offset: 0, len: 4, file_offset: 8 },
            LayerMapping { region_offset: 36, len: 4, file_offset: 12 },
        ]
    );
    assert_eq!(restore_plan(&state, &vec![(10, 1)], &Vec::new(), 4).unwrap_err(), Error::OverlayRegions);
    assert_eq!(restore_plan(&GuestMemoryState::default(), &Vec::new(), &Vec::new(), 4).unwrap_err(), Error::InvalidState);
}

#[test]
fn working_set_pages_in_order() {
    assert_eq!(working_set_pages(&vec![vec![2, 2], vec![0, 1]], 4, 16).unwrap(), vec![8, 12, 0]);
    assert_eq!(working_set_pages(&vec![], 4, 16).unwrap(), Vec::<usize>::new());
    assert_eq!(working_set_pages(&vec![vec![3, 2]], 4, 16).unwrap_err(), Error::FileHandle);
    assert_eq!(working_set_pages(&vec![vec![3]], 4, 16).unwrap_err(), Error::FileHandle);
    assert_eq!(working_set_pages(&vec![vec![-1, 1]], 4, 16).unwrap_err(), Error::FileHandle);
}

#[test]
fn dirty_dump_over_own_full_dump_is_unchanged() {
    let guest_memory = memory(&[(0, (0..10u8).collect()), (64, (20..27u8).collect())]);
    let mut full = Vec::new();
    guest_memory.dump(&mut full);
    let mut stream = full.clone();
    let mut bitmap: HashMap<usize, Vec<u64>> = HashMap::new();
    bitmap.insert(0, vec![0b10110]);
    bitmap.insert(1, vec![u64::MAX, u64::MAX]);
    guest_memory.dump_dirty(&mut stream, &bitmap, 3).unwrap();
    assert_eq!(stream, full);
}

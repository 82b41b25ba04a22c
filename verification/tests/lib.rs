use cached_file_view::CHUNK_SIZE;
use cached_file_view::FileView;
use cached_file_view::FileViewError;
use cached_file_view::FileViewMapping;

/// The bytes a collaborator reads from `disk` for the chunk at `address`:
/// a zero-initialized buffer of `CHUNK_SIZE` bytes, filled as far as the
/// disk reaches (a short read near end-of-file leaves the rest zero).
fn chunk_fill(disk: &[u8], address: u64) -> Vec<u8> {
    let mut buffer = vec![0u8; CHUNK_SIZE];
    let mut i: usize = 0;
    while i < CHUNK_SIZE {
        let pos = address as usize + i;
        if pos >= disk.len() {
            break;
        }
        buffer[i] = disk[pos];
        i += 1;
    }
    buffer
}

fn fills_for(disk: &[u8], missing: &[u64]) -> Vec<Vec<u8>> {
    let mut fills = Vec::new();
    for address in missing {
        fills.push(chunk_fill(disk, *address));
    }
    fills
}

/// Drive one read the way the I/O layer does: ask which chunks are missing,
/// read them from the (simulated) disk, and hand them to the cache.
fn read_range(
    view: &mut FileView,
    disk: &[u8],
    start: u64,
    end: u64,
) -> Result<FileViewMapping, FileViewError> {
    let missing = view.missing_chunks(start, end)?;
    let fills = fills_for(disk, &missing);
    view.read(start, end, &fills)
}

fn hello_disk() -> Vec<u8> {
    b"hello world!".to_vec()
}

#[test]
fn basic() {
    let disk = hello_disk();
    let mut view1 = FileView::new(disk.len() as u64);
    let full_mapping = read_range(&mut view1, &disk, 0, 12).unwrap();
    let small_mapping = read_range(&mut view1, &disk, 3, 12).unwrap();

    let full = full_mapping.to_vec();
    let small = small_mapping.to_vec();
    assert!(full == [104, 101, 108, 108, 111, 32, 119, 111, 114, 108, 100, 33]);
    assert!(small == [108, 111, 32, 119, 111, 114, 108, 100, 33]);
}

#[test]
fn test_read1() {
    let disk = hello_disk();
    let mut view = FileView::new(disk.len() as u64);
    assert!(read_range(&mut view, &disk, 0, 12).unwrap().to_vec() == "hello world!".as_bytes());
}

#[test]
fn test_read2() {
    let disk = hello_disk();
    let mut view = FileView::new(disk.len() as u64);
    assert!(read_range(&mut view, &disk, 11, 12).unwrap().to_vec() == "!".as_bytes());
}

#[test]
fn test_oob_end1() {
    let disk = hello_disk();
    let mut view = FileView::new(disk.len() as u64);

    if let Err(err) = read_range(&mut view, &disk, 0, 13) {
        assert!(err == FileViewError::OutOfBoundsError);
    } else {
        panic!("oob read did not fail")
    }
}

#[test]
fn test_oob_end2() {
    let disk = hello_disk();
    let mut view = FileView::new(disk.len() as u64);

    if let Err(err) = read_range(&mut view, &disk, 10, 13) {
        assert!(err == FileViewError::OutOfBoundsError);
    } else {
        panic!("oob read did not fail")
    }
}

/// A deterministic pseudo-random disk of `len` bytes.
fn patterned_disk(len: usize) -> Vec<u8> {
    let mut disk = Vec::with_capacity(len);
    let mut state: u32 = 0x12345678;
    for _ in 0..len {
        state = state.wrapping_mul(1664525).wrapping_add(1013904223);
        disk.push((state >> 24) as u8);
    }
    disk
}

#[test]
fn test_huge() {
    let mut disk = patterned_disk(0xF0000);
    disk[0x508DF] = b'R';
    disk[0x508E0] = b'M';
    disk[0x508E1] = b'V';
    disk[0x508E2] = b'2';
    let mut view = FileView::new(disk.len() as u64);
    {
        let a = read_range(&mut view, &disk, 0x0, 0x4).unwrap();
        let b = read_range(&mut view, &disk, 0x34, 0x508DF).unwrap();
        view.release_mapping(a);
        view.release_mapping(b);
    }

    let mapping = read_range(&mut view, &disk, 0x508DF, 0xE50FF).unwrap();
    let v = mapping.to_vec();
    assert!(&v[0..4] == "RMV2".as_bytes());
    assert!(v == disk[0x508DF..0xE50FF].to_vec());
}

#[test]
fn read_at_exact_length_succeeds() {
    let disk = hello_disk();
    let mut view = FileView::new(disk.len() as u64);
    let mapping = read_range(&mut view, &disk, 0, 12).unwrap();
    assert_eq!(mapping.to_vec().len(), 12);
    assert!(read_range(&mut view, &disk, 5, 13).unwrap_err() == FileViewError::OutOfBoundsError);
}

#[test]
fn raw_and_chunked_paths_agree() {
    let disk = patterned_disk(200_000);
    let mut view = FileView::new(disk.len() as u64);
    let ranges: [(u64, u64); 5] = [(0, 12), (100, 100), (32760, 32780), (0, 200_000), (65536, 131072)];
    for (start, end) in ranges {
        // What the direct path returns after the shared validation: exactly
        // the disk's bytes at the range.
        let raw = disk[start as usize..end as usize].to_vec();
        let mapping = read_range(&mut view, &disk, start, end).unwrap();
        assert_eq!(raw, mapping.to_vec());
        view.release_mapping(mapping);
    }
}

#[test]
fn overlapping_reads_share_chunk_then_evict() {
    let disk = patterned_disk(100_000);
    let mut view = FileView::new(disk.len() as u64);
    // First read touches chunks at 0 and 0x8000.
    let m1 = read_range(&mut view, &disk, 10, 40_000).unwrap();
    assert!(view.cached(0x8000));
    // The overlapping read finds the chunk at 0x8000 cached: only the chunk
    // at 0x10000 is still missing, so no second disk read of the overlap.
    let missing2 = view.missing_chunks(35_000, 70_000).unwrap();
    assert_eq!(missing2, vec![0x10000]);
    let m2 = view.read(35_000, 70_000, &fills_for(&disk, &missing2)).unwrap();
    view.release_mapping(m1);
    // The shared chunk stays while the second mapping lives.
    assert!(view.cached(0x8000));
    view.release_mapping(m2);
    assert!(!view.cached(0x8000));
    assert_eq!(view.cached_count(), 0);
}

#[test]
fn multi_chunk_stitch_is_exact() {
    let disk = patterned_disk(3 * CHUNK_SIZE + 17);
    let mut view = FileView::new(disk.len() as u64);
    // A range crossing two chunk boundaries, unaligned on both sides.
    let start = CHUNK_SIZE as u64 - 5;
    let end = 2 * CHUNK_SIZE as u64 + 7;
    let mapping = read_range(&mut view, &disk, start, end).unwrap();
    assert_eq!(mapping.to_vec(), disk[start as usize..end as usize].to_vec());
    // The lazy walk yields the same bytes, one clipped slice per chunk.
    let mut gathered = Vec::new();
    let mut slices: usize = 0;
    let mut it = mapping.chunks();
    while let Some(slice) = it.next() {
        gathered.extend_from_slice(slice);
        slices += 1;
    }
    assert_eq!(slices, 3);
    assert_eq!(gathered, mapping.to_vec());
    // Re-calling chunks restarts the walk.
    let mut it2 = mapping.chunks();
    let first = it2.next().unwrap();
    assert_eq!(first.len(), 5);
    assert_eq!(first, &disk[start as usize..CHUNK_SIZE]);
}

#[test]
fn empty_range_reads_no_chunk() {
    let disk = hello_disk();
    let mut view = FileView::new(disk.len() as u64);
    let mapping = read_range(&mut view, &disk, 5, 5).unwrap();
    assert_eq!(mapping.to_vec(), Vec::<u8>::new());
    let mut it = mapping.chunks();
    assert!(it.next().is_none());
    assert_eq!(view.cached_count(), 0);
    view.release_mapping(mapping);
}

#[test]
fn wrong_fills_give_io_error_and_leave_cache_untouched() {
    let mut view = FileView::new(100);
    // No fill for the one missing chunk.
    let none: Vec<Vec<u8>> = Vec::new();
    assert!(view.read(0, 50, &none).unwrap_err() == FileViewError::IOError);
    // A fill of the wrong size.
    let short = vec![vec![0u8; 10]];
    assert!(view.read(0, 50, &short).unwrap_err() == FileViewError::IOError);
    assert_eq!(view.cached_count(), 0);
}

#[test]
fn validation_order_and_errors() {
    let view = FileView::new(12);
    assert!(view.validate_range(3, 13) == Err(FileViewError::OutOfBoundsError));
    assert!(view.validate_range(3, 12) == Ok(9));
    assert!(view.validate_range(0, 0) == Ok(0));
    let mut view2 = FileView::new(12);
    let disk = hello_disk();
    // Out-of-bounds wins over any fill problem: validation comes first.
    let none: Vec<Vec<u8>> = Vec::new();
    assert!(view2.read(0, 13, &none).unwrap_err() == FileViewError::OutOfBoundsError);
    let mapping = read_range(&mut view2, &disk, 0, 12).unwrap();
    view2.release_mapping(mapping);
}

#[test]
fn repeated_read_hits_cache() {
    let disk = hello_disk();
    let mut view = FileView::new(disk.len() as u64);
    let m1 = read_range(&mut view, &disk, 0, 12).unwrap();
    // The second read of the same range needs nothing from disk.
    let missing = view.missing_chunks(0, 12).unwrap();
    assert!(missing.is_empty());
    let m2 = view.read(0, 12, &Vec::new()).unwrap();
    assert_eq!(m1.to_vec(), m2.to_vec());
    assert_eq!(view.cached_count(), 1);
    view.release_mapping(m1);
    assert_eq!(view.cached_count(), 1);
    view.release_mapping(m2);
    assert_eq!(view.cached_count(), 0);
}

#[test]
fn short_read_near_end_is_zero_filled() {
    // The chunked path tolerates a short read at end-of-file: the buffer's
    // remainder stays zero, and the mapping clips at the file's length.
    let disk = hello_disk();
    let mut view = FileView::new(disk.len() as u64);
    let missing = view.missing_chunks(0, 12).unwrap();
    let fills = fills_for(&disk, &missing);
    assert_eq!(fills.len(), 1);
    assert_eq!(fills[0].len(), CHUNK_SIZE);
    assert!(fills[0][12..].iter().all(|b| *b == 0));
    let mapping = view.read(0, 12, &fills).unwrap();
    assert_eq!(mapping.to_vec(), disk);
}

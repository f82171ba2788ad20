use apfsrelic::device::{BlockDevice, BlockReads, MemDevice};
use apfsrelic::error::{Error, ErrorKind};
use apfsrelic::extract::{
    plan, write_extents, write_extents_sparse, Segment, SparseFile, Written,
};
use apfsrelic::jrec::FileExtent;

fn extent(logical: u64, len: u64, phys: u64) -> FileExtent {
    FileExtent {
        logical_addr: logical,
        len,
        phys_block_num: phys,
        crypto_id: 0,
    }
}

#[test]
fn writes_sparse_file_with_hole() {
    // 3 blocks of 4 bytes. Block 1 = "AAAA", block 2 = "BBBB".
    let bs = 4u32;
    let mut data = vec![0u8; 12];
    data[4..8].copy_from_slice(b"AAAA"); // block 1
    data[8..12].copy_from_slice(b"BBBB"); // block 2
    let dev = MemDevice { data };

    // File: [0,4) from block 1, [4,8) hole, [8,12) from block 2. size=12.
    let mut extents = vec![
        extent(0, 4, 1),
        // logical 8 from block 2; logical 4..8 is a gap (hole).
        extent(8, 4, 2),
    ];
    let mut out = Vec::new();
    let w = write_extents(&mut BlockReads::new(&dev), bs, &mut extents, 12, &mut out).unwrap();
    assert_eq!(out, b"AAAA\0\0\0\0BBBB");
    assert_eq!(w.bytes, 12);
    assert_eq!(w.data_bytes, 8);
    assert!(w.holes >= 1);
    assert_eq!(w.missing, 0);
}

#[test]
fn sparse_output_seeks_over_gaps_and_sets_trailing_length() {
    const BS: u32 = 4096;
    const FOUR_MIB: u64 = 4 * 1024 * 1024;
    const EIGHT_MIB: u64 = 8 * 1024 * 1024;
    const FILE_SIZE: u64 = 16 * 1024 * 1024;

    let mut data = vec![0u8; BS as usize * 3];
    data[BS as usize..BS as usize * 2].fill(b'A');
    data[BS as usize * 2..BS as usize * 3].fill(b'B');
    let dev = MemDevice { data };
    let mut extents = vec![
        extent(0, BS as u64, 1),
        extent(FOUR_MIB, FOUR_MIB, 0),
        extent(EIGHT_MIB, BS as u64, 2),
    ];
    let mut file = SparseFile::new();

    let written = write_extents_sparse(&mut BlockReads::new(&dev), BS, &mut extents, FILE_SIZE, &mut file).unwrap();

    assert_eq!(written.bytes, FILE_SIZE);
    assert_eq!(written.data_bytes, 2 * u64::from(BS));
    assert_eq!(written.holes, 3, "gap, explicit hole, and tail");
    assert_eq!(written.overlaps, 0);
    assert_eq!(written.missing, 0);
    assert_eq!(file.len, FILE_SIZE, "set_len must retain the tail hole");

    let byte_at = |offset: u64| -> u8 {
        file.pieces
            .iter()
            .find(|piece| {
                piece.start <= offset && offset - piece.start < piece.bytes.len() as u64
            })
            .map(|piece| piece.bytes[(offset - piece.start) as usize])
            .unwrap_or(0)
    };
    for (offset, expected) in [
        (0, b'A'),
        (2 * 1024 * 1024, 0),
        (6 * 1024 * 1024, 0),
        (EIGHT_MIB, b'B'),
        (FILE_SIZE - 1, 0),
    ] {
        assert_eq!(byte_at(offset), expected, "byte at logical offset {offset}");
    }

    let allocated: u64 = file.pieces.iter().map(|p| p.bytes.len() as u64).sum();
    assert!(
        allocated < FILE_SIZE / 4,
        "sparse output allocated {allocated} bytes for a {FILE_SIZE}-byte file"
    );
}

#[test]
fn explicit_hole_extent_zero_fills() {
    let bs = 4u32;
    let dev = MemDevice {
        data: b"WXYZ".to_vec(),
    };
    // phys_block_num 0 == hole.
    let mut extents = vec![extent(0, 4, 0)];
    let mut out = Vec::new();
    let w = write_extents(&mut BlockReads::new(&dev), bs, &mut extents, 4, &mut out).unwrap();
    assert_eq!(out, b"\0\0\0\0");
    assert_eq!(w.bytes, 4);
    assert_eq!(w.data_bytes, 0);
}

#[test]
fn stops_at_logical_size() {
    let bs = 4u32;
    let dev = MemDevice {
        data: b"ABCD".to_vec(),
    };
    // Extent maps 4 bytes from block 0, but the file size is only 2.
    let mut extents = vec![extent(0, 4, 0)];
    let mut out = Vec::new();
    let w = write_extents(&mut BlockReads::new(&dev), bs, &mut extents, 2, &mut out).unwrap();
    assert_eq!(out, b"\0\0"); // block 0 is a hole (phys 0); truncated to 2
    assert_eq!(w.bytes, 2);
    assert_eq!(w.data_bytes, 0);
}

fn three_blocks() -> MemDevice {
    MemDevice {
        data: b"....AAAABBBBCCCC".to_vec(),
    }
}

#[test]
fn an_extent_is_cut_at_the_end_of_the_file() {
    let mut extents = vec![extent(0, 12, 1)];
    let mut out = b"x".to_vec();
    let w = write_extents(&mut BlockReads::new(&three_blocks()), 4, &mut extents, 6, &mut out).unwrap();
    assert_eq!(out, b"xAAAABB");
    assert_eq!((w.bytes, w.data_bytes, w.holes, w.overlaps), (6, 6, 0, 0));
    assert!(w.note().is_none());
}

#[test]
fn earlier_data_wins_over_an_overlap() {
    let mut extents = vec![extent(4, 4, 3), extent(0, 8, 1), extent(8, 4, 3)];
    let mut out = Vec::new();
    let w = write_extents(&mut BlockReads::new(&three_blocks()), 4, &mut extents, 12, &mut out).unwrap();
    assert_eq!(out, b"AAAABBBBCCCC");
    assert_eq!(w.overlaps, 1);
    assert_eq!(w.note().unwrap(), "1 overlap(s)");
    // The extents are left in the order of their addresses.
    assert_eq!(
        extents.iter().map(|e| e.logical_addr).collect::<Vec<_>>(),
        vec![0, 4, 8]
    );
}

#[test]
fn extents_of_one_address_keep_their_order() {
    let mut extents = vec![extent(8, 4, 1), extent(0, 4, 2), extent(0, 4, 3)];
    let mut out = Vec::new();
    let w = write_extents(&mut BlockReads::new(&three_blocks()), 4, &mut extents, 4, &mut out).unwrap();
    assert_eq!(out, b"BBBB");
    assert_eq!(w.overlaps, 0, "extents behind the end are not looked at");
    assert_eq!(
        extents.iter().map(|e| e.phys_block_num).collect::<Vec<_>>(),
        vec![2, 3, 1]
    );
}

#[test]
fn a_failed_read_keeps_what_came_before() {
    let mut extents = vec![extent(0, 4, 1), extent(8, 8, 3)];
    let mut out = Vec::new();
    let error = write_extents(&mut BlockReads::new(&three_blocks()), 4, &mut extents, 16, &mut out).unwrap_err();
    assert_eq!(error.kind(), ErrorKind::Io);
    assert_eq!(out, b"AAAA\0\0\0\0CCCC");
}

#[test]
fn a_file_without_extents_is_one_hole() {
    let mut extents = Vec::new();
    let mut out = Vec::new();
    let w = write_extents(&mut BlockReads::new(&three_blocks()), 4, &mut extents, 5, &mut out).unwrap();
    assert_eq!(out, vec![0u8; 5]);
    assert_eq!((w.holes, w.data_bytes, w.missing), (1, 0, 0));
    let mut empty = Vec::new();
    let w = write_extents(&mut BlockReads::new(&three_blocks()), 4, &mut extents, 0, &mut empty).unwrap();
    assert!(empty.is_empty());
    assert_eq!((w.bytes, w.holes), (0, 0));
}

#[test]
fn a_plan_tiles_the_file_with_gap_hole_data_and_tail() {
    let mut extents = vec![extent(0, 4, 1), extent(16, 8, 0), extent(24, 4, 2)];
    let (layout, written) = plan(&mut extents, 40);
    assert_eq!(
        layout.segments,
        vec![
            Segment::Data { start: 0, len: 4, block: 1 },
            Segment::Hole { start: 4, len: 12 },
            Segment::Hole { start: 16, len: 8 },
            Segment::Data { start: 24, len: 4, block: 2 },
            Segment::Hole { start: 28, len: 12 },
        ]
    );
    assert_eq!(written.bytes, 40);
    assert_eq!(written.data_bytes, 8);
    assert_eq!(written.holes, 3);
    assert_eq!(written.overlaps, 0);
    assert_eq!(written.missing, 0);
}

#[test]
fn a_note_names_every_anomaly() {
    let written = Written {
        bytes: 1,
        data_bytes: 1,
        holes: 2,
        overlaps: 3,
        missing: 4,
    };
    assert_eq!(
        written.note().unwrap(),
        "2 hole(s), 3 overlap(s), 4 missing byte(s)"
    );
    assert!(Written::default().note().is_none());
}

/// A device that counts nothing and fails always.
struct Broken;

impl BlockDevice for Broken {
    fn read_block(&self, block: u64, _block_size: u32) -> Result<Vec<u8>, Error> {
        Err(Error::new(ErrorKind::Io, format!("block {block}")))
    }
}

#[test]
fn the_first_block_asked_for_is_the_first_of_the_first_extent() {
    let mut extents = vec![extent(8, 4, 9), extent(2, 4, 5)];
    let mut out = Vec::new();
    let error = write_extents(&mut BlockReads::new(&Broken), 4, &mut extents, 12, &mut out).unwrap_err();
    assert_eq!(error.text(), "block 5");
    assert_eq!(out, b"\0\0");
}

#[test]
fn a_memory_device_hands_out_whole_blocks() {
    let dev = three_blocks();
    assert_eq!(dev.read_block(1, 4).unwrap(), b"AAAA");
    assert_eq!(dev.read_block(4, 4).unwrap_err().kind(), ErrorKind::Io);
    assert_eq!(dev.read_block(u64::MAX, u32::MAX).unwrap_err().kind(), ErrorKind::Io);
}

#[test]
fn no_block_is_read_for_a_hole_or_an_empty_file() {
    let mut out = Vec::new();
    let w = write_extents(&mut BlockReads::new(&Broken), 4, &mut vec![extent(0, 4, 0)], 8, &mut out)
        .unwrap();
    assert_eq!(out, vec![0u8; 8]);
    assert_eq!((w.holes, w.data_bytes), (2, 0));
    let mut none = Vec::new();
    write_extents(&mut BlockReads::new(&Broken), 0, &mut vec![extent(0, 4, 9)], 0, &mut none)
        .unwrap();
    assert!(none.is_empty());
    let mut file = SparseFile::new();
    write_extents_sparse(&mut BlockReads::new(&Broken), 4, &mut Vec::new(), 5, &mut file).unwrap();
    assert_eq!((file.len, file.pieces.len()), (5, 0));
    let mut holes = SparseFile::new();
    write_extents_sparse(&mut BlockReads::new(&Broken), 0, &mut vec![extent(0, 4, 0)], 6, &mut holes)
        .unwrap();
    assert_eq!((holes.len, holes.pieces.len()), (6, 0));
}

fn dense(file: &SparseFile) -> Vec<u8> {
    let mut bytes = vec![0u8; file.len as usize];
    for piece in file.pieces.iter().filter(|piece| !piece.bytes.is_empty()) {
        let start = piece.start as usize;
        bytes[start..start + piece.bytes.len()].copy_from_slice(&piece.bytes);
    }
    bytes
}

#[test]
fn the_order_of_extents_does_not_matter() {
    let orders = [[0usize, 1, 2], [0, 2, 1], [1, 0, 2], [1, 2, 0], [2, 0, 1], [2, 1, 0]];
    for order in orders {
        let given = [(0u64, 2u64), (4, 3), (10, 1)];
        let mut extents: Vec<FileExtent> = order
            .iter()
            .map(|i| extent(given[*i].0, 4, given[*i].1))
            .collect();
        let mut out = Vec::new();
        write_extents(&mut BlockReads::new(&three_blocks()), 4, &mut extents, 14, &mut out).unwrap();
        assert_eq!(out, b"BBBBCCCC\0\0AAAA");
    }
}

#[test]
fn sparse_output_reads_as_dense_output() {
    let given = || vec![extent(6, 6, 1), extent(0, 3, 3), extent(14, 2, 0)];
    let mut out = Vec::new();
    write_extents(&mut BlockReads::new(&three_blocks()), 4, &mut given(), 17, &mut out).unwrap();
    let mut file = SparseFile::new();
    write_extents_sparse(&mut BlockReads::new(&three_blocks()), 4, &mut given(), 17, &mut file)
        .unwrap();
    assert_eq!(dense(&file), out);
    assert_eq!(out, b"CCC\0\0\0AAAABB\0\0\0\0\0");
}

#[test]
fn a_sparse_file_keeps_what_it_held_in_its_holes() {
    let mut file = SparseFile::new();
    write_extents_sparse(
        &mut BlockReads::new(&three_blocks()),
        4,
        &mut vec![extent(0, 12, 1)],
        12,
        &mut file,
    )
    .unwrap();
    write_extents_sparse(
        &mut BlockReads::new(&three_blocks()),
        4,
        &mut vec![extent(4, 4, 3)],
        10,
        &mut file,
    )
    .unwrap();
    assert_eq!(dense(&file), b"AAAACCCCCC");
}

#[test]
fn a_sparse_file_gets_its_length_only_at_the_end() {
    let mut file = SparseFile::new();
    let error = write_extents_sparse(
        &mut BlockReads::new(&three_blocks()),
        4,
        &mut vec![extent(0, 4, 2), extent(8, 4, 99)],
        100,
        &mut file,
    )
    .unwrap_err();
    assert_eq!(error.kind(), ErrorKind::Io);
    assert_eq!(file.len, 4);
    assert_eq!(dense(&file), b"BBBB");
}

//! Finding the files of an ext4 image.

use elide_core::ext4_scan::{
    assign_paths, block_order, file_content, full_hash, hilo64, plan_fragments, read_extent_node,
    read_inode, total_lbas, u16le, u32le, Ext4Error, Ext4Scan, ExtentNode, FragmentPlan, HashPaths, LeafExtent,
    Superblock,
};
use elide_core::ids::content_hash;

fn put16(buf: &mut [u8], off: usize, v: u16) {
    buf[off..off + 2].copy_from_slice(&v.to_le_bytes());
}

fn put32(buf: &mut [u8], off: usize, v: u32) {
    buf[off..off + 4].copy_from_slice(&v.to_le_bytes());
}

fn superblock() -> Vec<u8> {
    let mut sb = vec![0u8; 1024];
    put16(&mut sb, 0x38, 0xef53);
    put32(&mut sb, 0x18, 2);
    put32(&mut sb, 0x04, 40000);
    put32(&mut sb, 0x20, 32768);
    put32(&mut sb, 0x28, 8192);
    put16(&mut sb, 0x58, 256);
    put32(&mut sb, 0x60, 0x2c2);
    sb
}

#[test]
fn little_endian_reads_stop_at_the_end() {
    let data = [1u8, 2, 3, 4];
    assert_eq!(u16le(&data, 2), Ok(0x0403));
    assert_eq!(u16le(&data, 3), Err(Ext4Error::ShortRead));
    assert_eq!(u32le(&data, 0), Ok(0x0403_0201));
    assert_eq!(u32le(&data, 1), Err(Ext4Error::ShortRead));
    assert_eq!(hilo64(1, 2), 0x1_0000_0002);
}

#[test]
fn a_superblock_gives_the_layout() {
    let sb = Superblock::read(&superblock()).expect("read");
    assert_eq!(sb.block_size, 4096);
    assert_eq!(sb.inode_size, 256);
    assert_eq!(sb.inodes_per_group, 8192);
    assert_eq!(sb.num_block_groups, 2);
    assert!(sb.is_64bit);
    assert_eq!(sb.bgdt_start(), 4096);
    assert_eq!(sb.bgd_size(), 64);
    assert_eq!(sb.descriptor_offset(3), 4096 + 192);
    let mut descriptor = vec![0u8; 64];
    put32(&mut descriptor, 0x08, 77);
    put32(&mut descriptor, 0x28, 1);
    assert_eq!(sb.inode_table_block(&descriptor), Ok(0x1_0000_004d));
    assert_eq!(sb.inode_table_block(&descriptor[..0x2b]), Err(Ext4Error::ShortRead));

    let mut narrow = superblock();
    put32(&mut narrow, 0x60, 0);
    let sb = Superblock::read(&narrow).expect("read");
    assert_eq!(sb.bgd_size(), 32);
    assert_eq!(sb.inode_table_block(&descriptor), Ok(77));
}

#[test]
fn another_file_system_is_refused() {
    let mut sb = superblock();
    sb[0x38] = 0;
    assert!(matches!(Superblock::read(&sb), Err(Ext4Error::NotExt4)));
    let mut sb = superblock();
    put32(&mut sb, 0x18, 0);
    assert!(matches!(
        Superblock::read(&sb),
        Err(Ext4Error::UnsupportedBlockSize { log2: 0 })
    ));
    assert!(matches!(Superblock::read(&superblock()[..0x100]), Err(Ext4Error::ShortRead)));
    // Nothing is asked of the counts where the magic is wrong.
    assert!(matches!(Superblock::read(&[0u8; 1024]), Err(Ext4Error::NotExt4)));
    assert!(matches!(Superblock::read(&[0u8; 0x3a]), Err(Ext4Error::NotExt4)));
    assert!(matches!(Superblock::read(&[0u8; 0x39]), Err(Ext4Error::ShortRead)));
}

#[test]
fn an_extent_node_lists_leaves_or_children() {
    let mut node = vec![0u8; 60];
    put16(&mut node, 0, 0xf30a);
    put16(&mut node, 2, 2);
    put32(&mut node, 12, 5);
    put16(&mut node, 16, 0x8003);
    put16(&mut node, 18, 1);
    put32(&mut node, 20, 9);
    put32(&mut node, 24, 8);
    put16(&mut node, 28, 4);
    put32(&mut node, 32, 30);
    match read_extent_node(&node) {
        ExtentNode::Leaf(list) => assert_eq!(
            list,
            vec![
                LeafExtent { logical: 5, phys: 0x1_0000_0009, len: 3 },
                LeafExtent { logical: 8, phys: 30, len: 4 }
            ]
        ),
        ExtentNode::Index(_) => panic!("not a leaf"),
    }
    put16(&mut node, 6, 1);
    put32(&mut node, 16, 1000);
    put16(&mut node, 20, 2);
    match read_extent_node(&node) {
        ExtentNode::Index(list) => {
            assert_eq!(list[0], 0x2_0000_03e8);
            assert_eq!(list.len(), 2);
        }
        ExtentNode::Leaf(_) => panic!("not an index"),
    }
    match read_extent_node(&[0u8; 60]) {
        ExtentNode::Leaf(list) => assert!(list.is_empty()),
        ExtentNode::Index(_) => panic!("not a node"),
    }
}

#[test]
fn only_a_linked_file_with_extents_and_bytes_is_read() {
    let mut inode = vec![0u8; 256];
    put16(&mut inode, 0, 0x81a4);
    put16(&mut inode, 0x1a, 1);
    put32(&mut inode, 0x20, 0x8_0000);
    put32(&mut inode, 0x04, 5000);
    inode[0x28] = 0x0a;
    let file = read_inode(&inode).expect("read").expect("file");
    assert_eq!(file.size, 5000);
    assert_eq!(file.root.len(), 60);
    assert_eq!(file.root[0], 0x0a);
    for (off, value) in [(0usize, 0x41edu16), (0x1a, 0), (0x22, 0), (0x04, 0)] {
        let mut other = inode.clone();
        put16(&mut other, off, value);
        assert!(read_inode(&other).expect("read").is_none(), "{off:#x}");
    }
    assert!(matches!(read_inode(&inode[..0x60]), Err(Ext4Error::ShortRead)));
}

#[test]
fn a_file_is_cut_into_its_extents() {
    let extents = vec![
        LeafExtent { logical: 2, phys: 100, len: 2 },
        LeafExtent { logical: 0, phys: 50, len: 2 },
        LeafExtent { logical: 9, phys: 70, len: 1 },
    ];
    let plan = plan_fragments(&extents, 3 * 4096 + 5);
    assert_eq!(
        plan,
        vec![
            FragmentPlan { file_offset: 0, lba_start: 50, lba_length: 2, byte_count: 8192 },
            FragmentPlan { file_offset: 8192, lba_start: 100, lba_length: 2, byte_count: 4101 },
        ]
    );
    let bodies = vec![vec![1u8; 8192], vec![2u8; 8192]];
    let mut whole = vec![1u8; 8192];
    whole.extend_from_slice(&[2u8; 4101]);
    assert_eq!(full_hash(&plan, &bodies), content_hash(&whole));

    let scan = Ext4Scan::covering(&plan, 200);
    for (lba, file) in [(49, false), (50, true), (51, true), (52, false), (101, true), (102, false), (500, false)] {
        assert_eq!(scan.lba_is_file(lba), file, "{lba}");
    }
}

#[test]
fn files_of_one_content_take_its_paths_in_turn() {
    let (a, b) = (content_hash(b"a"), content_hash(b"b"));
    let table = vec![HashPaths { hash: a, paths: vec!["/1".to_owned(), "/2".to_owned()] }];
    assert_eq!(
        assign_paths(&vec![a, b, a, a], &table),
        vec![Some("/2".to_owned()), None, Some("/1".to_owned()), None]
    );
}

#[test]
fn fragments_are_taken_in_block_order() {
    assert_eq!(block_order(&vec![5, 1, 5, 0]), vec![3, 1, 0, 2]);
    assert_eq!(total_lbas(8192), Ok(2));
    assert_eq!(total_lbas(8193), Err(Ext4Error::SizeNotBlocks));
}

#[test]
fn a_file_ends_within_its_last_block() {
    let plan = vec![
        FragmentPlan { file_offset: 0, lba_start: 7, lba_length: 1, byte_count: 4096 },
        FragmentPlan { file_offset: 4096, lba_start: 3, lba_length: 1, byte_count: 5 },
    ];
    let bodies = vec![vec![1u8; 4096], vec![2u8; 4096]];
    let bytes = file_content(&plan, &bodies);
    assert_eq!(bytes.len(), 4101);
    assert_eq!(&bytes[4094..], &[1, 1, 2, 2, 2, 2, 2]);
    assert_eq!(full_hash(&plan, &bodies), content_hash(&bytes));
}

#[test]
fn a_hole_takes_no_bytes_from_the_last_fragment() {
    let extents = vec![
        LeafExtent { logical: 3, phys: 80, len: 1 },
        LeafExtent { logical: 0, phys: 50, len: 1 },
        LeafExtent { logical: 4, phys: 90, len: 2 },
    ];
    let plan = plan_fragments(&extents, 13192);
    assert_eq!(
        plan,
        vec![
            FragmentPlan { file_offset: 0, lba_start: 50, lba_length: 1, byte_count: 4096 },
            FragmentPlan { file_offset: 12288, lba_start: 80, lba_length: 1, byte_count: 904 },
        ]
    );
    assert!(plan_fragments(&extents, 0).is_empty());
}

#[test]
fn extents_that_overlap_hold_no_more_than_the_file() {
    let extents = vec![
        LeafExtent { logical: 0, phys: 10, len: 2 },
        LeafExtent { logical: 1, phys: 20, len: 1 },
    ];
    assert_eq!(
        plan_fragments(&extents, 8192),
        vec![FragmentPlan { file_offset: 0, lba_start: 10, lba_length: 2, byte_count: 8192 }]
    );
    // One byte is left for the second.
    let plan = plan_fragments(&extents, 8193);
    assert_eq!(plan.len(), 2);
    assert_eq!(plan[1], FragmentPlan { file_offset: 4096, lba_start: 20, lba_length: 1, byte_count: 1 });
}

//! Where the files of an ext4 image lie.
//!
//! The image's bytes are read elsewhere. This module says what the superblock,
//! a group descriptor, an inode and a node of its extent tree hold, which
//! fragments a file divides into, and which blocks files own.

use vstd::prelude::*;

use crate::ids::{content_hash, hashes_to, ContentHash};
use crate::order::{is_stable_order, stable_order, stable_order_of};

verus! {

/// Bytes in a block.
pub const LBA_SIZE: u64 = 4096;

/// Where the superblock is.
pub const SUPERBLOCK_OFFSET: u64 = 1024;

/// Bytes in an entry of an extent tree's node.
pub const EXTENT_ENTRY_SIZE: usize = 12;

/// Why an image is refused.
#[derive(Clone, Copy, Debug, PartialEq, Eq, Structural)]
pub enum Ext4Error {
    ShortRead,
    NotExt4,
    /// The superblock says blocks of 1024 bytes times this power of two.
    UnsupportedBlockSize { log2: u32 },
    SizeNotBlocks,
}

// ---------------------------------------------------------------------------
// Integers
// ---------------------------------------------------------------------------

/// The little-endian 16-bit integer at `off`.
pub open spec fn le16(data: Seq<u8>, off: int) -> int {
    data[off] + 256 * data[off + 1]
}

/// The little-endian 32-bit integer at `off`.
pub open spec fn le32(data: Seq<u8>, off: int) -> int {
    data[off] + 0x100 * data[off + 1] + 0x1_0000 * data[off + 2] + 0x100_0000 * data[off + 3]
}

/// The 64-bit integer of two halves.
pub open spec fn halves(hi: int, lo: int) -> int {
    0x1_0000_0000 * hi + lo
}

/// The little-endian 16-bit integer at `off`.
pub fn u16le(data: &[u8], off: usize) -> (r: Result<u16, Ext4Error>)
    requires
        off <= usize::MAX - 2,
    ensures
        r is Ok == (off + 2 <= data@.len()),
        r matches Ok(v) ==> v == le16(data@, off as int),
        r matches Err(e) ==> e == Ext4Error::ShortRead,
{
    if off + 2 > data.len() {
        return Err(Ext4Error::ShortRead);
    }
    Ok(data[off] as u16 + 256 * data[off + 1] as u16)
}

/// The little-endian 32-bit integer at `off`.
pub fn u32le(data: &[u8], off: usize) -> (r: Result<u32, Ext4Error>)
    requires
        off <= usize::MAX - 4,
    ensures
        r is Ok == (off + 4 <= data@.len()),
        r matches Ok(v) ==> v == le32(data@, off as int),
        r matches Err(e) ==> e == Ext4Error::ShortRead,
{
    if off + 4 > data.len() {
        return Err(Ext4Error::ShortRead);
    }
    Ok(
        data[off] as u32 + 0x100 * data[off + 1] as u32 + 0x1_0000 * data[off + 2] as u32
            + 0x100_0000 * data[off + 3] as u32,
    )
}

/// The 64-bit integer of two halves.
pub fn hilo64(hi: u32, lo: u32) -> (v: u64)
    ensures
        v == halves(hi as int, lo as int),
{
    0x1_0000_0000 * hi as u64 + lo as u64
}

// ---------------------------------------------------------------------------
// The superblock and the group descriptors
// ---------------------------------------------------------------------------

/// What the superblock says.
#[derive(Clone, Copy, Debug, PartialEq, Eq, Structural)]
pub struct Superblock {
    pub block_size: u64,
    pub inode_size: usize,
    pub inodes_per_group: u32,
    pub num_block_groups: u32,
    pub is_64bit: bool,
}

/// Groups of `per` blocks that `blocks` blocks past the first `first` make.
pub open spec fn group_count(blocks: int, first: int, per: int) -> int {
    if blocks <= first {
        0
    } else {
        (blocks - first + per - 1) / per
    }
}

/// What a superblock's bytes say.
pub open spec fn superblock_of(buf: Seq<u8>) -> Result<Superblock, Ext4Error> {
    if buf.len() < 0x3a {
        Err(Ext4Error::ShortRead)
    } else if le16(buf, 0x38) != 0xef53 {
        Err(Ext4Error::NotExt4)
    } else if le32(buf, 0x18) != 2 {
        Err(Ext4Error::UnsupportedBlockSize { log2: le32(buf, 0x18) as u32 })
    } else if buf.len() < 0x154 {
        Err(Ext4Error::ShortRead)
    } else {
        Ok(
            Superblock {
                block_size: LBA_SIZE,
                inode_size: le16(buf, 0x58) as usize,
                inodes_per_group: le32(buf, 0x28) as u32,
                num_block_groups: group_count(
                    halves(le32(buf, 0x150), le32(buf, 0x04)),
                    le32(buf, 0x14),
                    le32(buf, 0x20),
                ) as u32,
                is_64bit: (le32(buf, 0x60) / 0x80) % 2 == 1,
            },
        )
    }
}

impl Superblock {
    /// The superblock in these bytes. It must be an ext4 image with blocks of
    /// 4096 bytes.
    pub fn read(buf: &[u8]) -> (r: Result<Superblock, Ext4Error>)
        requires
            buf@.len() >= 0x154 && le16(buf@, 0x38) == 0xef53 && le32(buf@, 0x18) == 2 ==> le32(
                buf@,
                0x20,
            ) != 0,
        ensures
            match r {
                Ok(sb) => {
                    &&& buf@.len() >= 0x154
                    &&& le16(buf@, 0x38) == 0xef53 && le32(buf@, 0x18) == 2
                    &&& sb.block_size == LBA_SIZE
                    &&& sb.inode_size == le16(buf@, 0x58)
                    &&& sb.inodes_per_group == le32(buf@, 0x28)
                    &&& sb.is_64bit == ((le32(buf@, 0x60) / 0x80) % 2 == 1)
                    &&& sb.num_block_groups == group_count(
                        halves(le32(buf@, 0x150), le32(buf@, 0x04)),
                        le32(buf@, 0x14),
                        le32(buf@, 0x20),
                    ) as u32
                },
                Err(Ext4Error::ShortRead) => buf@.len() < 0x3a || (buf@.len() < 0x154 && le16(
                    buf@,
                    0x38,
                ) == 0xef53 && le32(buf@, 0x18) == 2),
                Err(Ext4Error::NotExt4) => buf@.len() >= 0x3a && le16(buf@, 0x38) != 0xef53,
                Err(Ext4Error::UnsupportedBlockSize { log2 }) => buf@.len() >= 0x3a && le16(
                    buf@,
                    0x38,
                ) == 0xef53 && log2 == le32(buf@, 0x18) && log2 != 2,
                Err(_) => false,
            },
            r == superblock_of(buf@),
    {
        let magic: u16 = match u16le(buf, 0x38) {
            Ok(v) => v,
            Err(e) => {
                return Err(e);
            },
        };
        if magic != 0xef53 {
            return Err(Ext4Error::NotExt4);
        }
        let log2: u32 = match u32le(buf, 0x18) {
            Ok(v) => v,
            Err(e) => {
                return Err(e);
            },
        };
        if log2 != 2 {
            return Err(Ext4Error::UnsupportedBlockSize { log2 });
        }
        if buf.len() < 0x154 {
            return Err(Ext4Error::ShortRead);
        }
        let inode_size: u16 = match u16le(buf, 0x58) {
            Ok(v) => v,
            Err(e) => {
                return Err(e);
            },
        };
        let fields = (
            u32le(buf, 0x28),
            u32le(buf, 0x20),
            u32le(buf, 0x14),
            u32le(buf, 0x150),
            u32le(buf, 0x04),
            u32le(buf, 0x60),
        );
        let (inodes_per_group, per, first, hi, lo, incompat) = match fields {
            (Ok(a), Ok(b), Ok(c), Ok(d), Ok(e), Ok(f)) => (a, b, c, d, e, f),
            _ => {
                return Err(Ext4Error::ShortRead);
            },
        };
        let blocks: u64 = hilo64(hi, lo);
        let data_blocks: u64 = blocks.saturating_sub(first as u64);
        let whole: u64 = data_blocks / per as u64;
        proof {
            let (d, p) = (data_blocks as int, per as int);
            vstd::arithmetic::div_mod::lemma_fundamental_div_mod(d, p);
            vstd::arithmetic::div_mod::lemma_mod_bound(d, p);
            assert(d % p > 0 ==> whole < d) by (nonlinear_arith)
                requires
                    d == p * whole + d % p,
                    p >= 1,
                    whole >= 0,
            ;
        }
        let groups: u64 = if data_blocks % per as u64 == 0 {
            whole
        } else {
            whole + 1
        };
        proof {
            let (d, p) = (data_blocks as int, per as int);
            vstd::arithmetic::div_mod::lemma_fundamental_div_mod(d, p);
            vstd::arithmetic::div_mod::lemma_mod_bound(d, p);
            if d % p == 0 {
                vstd::arithmetic::div_mod::lemma_fundamental_div_mod_converse(
                    d + p - 1,
                    p,
                    d / p,
                    p - 1,
                );
            } else {
                assert(d + p - 1 == p * (d / p + 1) + (d % p - 1)) by (nonlinear_arith)
                    requires
                        d == p * (d / p) + d % p,
                ;
                vstd::arithmetic::div_mod::lemma_fundamental_div_mod_converse(
                    d + p - 1,
                    p,
                    d / p + 1,
                    d % p - 1,
                );
            }
            if d == 0 {
                vstd::arithmetic::div_mod::lemma_small_mod(0, p as nat);
                assert(0int / p == 0) by (nonlinear_arith)
                    requires
                        p > 0,
                ;
            }
        }
        Ok(
            Superblock {
                block_size: LBA_SIZE,
                inode_size: inode_size as usize,
                inodes_per_group,
                num_block_groups: #[verifier::truncate] (groups as u32),
                is_64bit: (incompat / 0x80) % 2 == 1,
            },
        )
    }

    /// Where the group descriptors begin: at block 1.
    pub fn bgdt_start(&self) -> (n: u64)
        ensures
            n == self.block_size,
    {
        self.block_size
    }

    /// Bytes in a group descriptor.
    pub fn bgd_size(&self) -> (n: u64)
        ensures
            n == (if self.is_64bit {
                64int
            } else {
                32
            }),
    {
        if self.is_64bit {
            64
        } else {
            32
        }
    }

    /// Where the descriptor of a group is.
    pub fn descriptor_offset(&self, group: u32) -> (n: u64)
        requires
            self.block_size <= LBA_SIZE,
        ensures
            n == self.block_size + group * (if self.is_64bit {
                64int
            } else {
                32
            }),
    {
        assert(group * self.spec_bgd() <= 64 * 0xffff_ffff) by (nonlinear_arith)
            requires
                0 <= self.spec_bgd() <= 64,
                group <= 0xffff_ffff,
        ;
        assert(group * self.spec_bgd() >= 0) by (nonlinear_arith)
            requires
                self.spec_bgd() >= 0,
        ;
        self.bgdt_start() + group as u64 * self.bgd_size()
    }

    spec fn spec_bgd(&self) -> int {
        if self.is_64bit {
            64
        } else {
            32
        }
    }

    /// The first block of a group's inode table, which its descriptor says.
    pub fn inode_table_block(&self, descriptor: &[u8]) -> (r: Result<u64, Ext4Error>)
        ensures
            r is Ok == (descriptor@.len() >= (if self.is_64bit {
                0x2cint
            } else {
                0x0c
            })),
            r matches Ok(v) ==> v == halves(
                if self.is_64bit {
                    le32(descriptor@, 0x28)
                } else {
                    0
                },
                le32(descriptor@, 0x08),
            ),
            r matches Err(e) ==> e == Ext4Error::ShortRead,
    {
        let lo: u32 = match u32le(descriptor, 0x08) {
            Ok(v) => v,
            Err(e) => {
                return Err(e);
            },
        };
        let hi: u32 = if self.is_64bit {
            match u32le(descriptor, 0x28) {
                Ok(v) => v,
                Err(e) => {
                    return Err(e);
                },
            }
        } else {
            0
        };
        Ok(hilo64(hi, lo))
    }
}

// ---------------------------------------------------------------------------
// Inodes and extents
// ---------------------------------------------------------------------------

/// A leaf extent: `len` blocks of the file from block `logical` on, at block
/// `phys` of the image.
#[derive(Clone, Copy, Debug, PartialEq, Eq, Structural)]
pub struct LeafExtent {
    pub logical: u32,
    pub phys: u64,
    pub len: u16,
}

/// What a node of an extent tree holds: extents, or the blocks of its children.
pub enum ExtentNode {
    Leaf(Vec<LeafExtent>),
    Index(Vec<u64>),
}

/// How many entries of a node are there: as many as it says, or as fit.
pub open spec fn entry_count(data: Seq<u8>) -> int {
    let said = le16(data, 2);
    let fit = data.len() / 12 - 1;
    if said < fit {
        said
    } else {
        fit
    }
}

/// The extent that entry `i` of a leaf says. The top bit of its length marks
/// it as not written, and does not count.
pub open spec fn leaf_at(data: Seq<u8>, i: int) -> LeafExtent {
    let off = (i + 1) * 12;
    LeafExtent {
        logical: le32(data, off) as u32,
        phys: halves(le16(data, off + 6), le32(data, off + 8)) as u64,
        len: (le16(data, off + 4) % 0x8000) as u16,
    }
}

/// The block of the child that entry `i` of an index node says.
pub open spec fn child_at(data: Seq<u8>, i: int) -> u64 {
    let off = (i + 1) * 12;
    halves(le16(data, off + 8), le32(data, off + 4)) as u64
}

/// The bytes are a node of an extent tree.
pub open spec fn is_extent_node(data: Seq<u8>) -> bool {
    data.len() >= 12 && le16(data, 0) == 0xf30a
}

/// What a node of an extent tree holds. Bytes that are none hold no extents.
pub fn read_extent_node(data: &[u8]) -> (node: ExtentNode)
    ensures
        match node {
            ExtentNode::Leaf(list) => if is_extent_node(data@) {
                le16(data@, 6) == 0 && list@.len() == entry_count(data@) && forall|i: int|
                    0 <= i < list@.len() ==> #[trigger] list@[i] == leaf_at(data@, i)
            } else {
                list@.len() == 0
            },
            ExtentNode::Index(list) => is_extent_node(data@) && le16(data@, 6) != 0 && list@.len()
                == entry_count(data@) && forall|i: int|
                0 <= i < list@.len() ==> #[trigger] list@[i] == child_at(data@, i),
        },
{
    let mut leaves: Vec<LeafExtent> = Vec::new();
    if data.len() < EXTENT_ENTRY_SIZE {
        return ExtentNode::Leaf(leaves);
    }
    let head = (u16le(data, 0), u16le(data, 2), u16le(data, 6));
    let (magic, said, depth) = match head {
        (Ok(a), Ok(b), Ok(c)) => (a, b, c),
        _ => {
            return ExtentNode::Leaf(leaves);
        },
    };
    if magic != 0xf30a {
        return ExtentNode::Leaf(leaves);
    }
    let fit: usize = data.len() / 12 - 1;
    let n: usize = if (said as usize) < fit {
        said as usize
    } else {
        fit
    };
    let mut children: Vec<u64> = Vec::new();
    let mut i: usize = 0;
    while i < n
        invariant
            i <= n,
            n == entry_count(data@),
            n <= data@.len() / 12 - 1,
            data@.len() == data.len(),
            depth == le16(data@, 6),
            depth == 0 ==> leaves@.len() == i,
            depth != 0 ==> children@.len() == i,
            forall|j: int| 0 <= j < leaves@.len() ==> #[trigger] leaves@[j] == leaf_at(data@, j),
            forall|j: int|
                0 <= j < children@.len() ==> #[trigger] children@[j] == child_at(data@, j),
        decreases n - i,
    {
        let off: usize = (i + 1) * 12;
        if depth == 0 {
            let parts = (
                u32le(data, off),
                u16le(data, off + 4),
                u16le(data, off + 6),
                u32le(data, off + 8),
            );
            if let (Ok(logical), Ok(len), Ok(hi), Ok(lo)) = parts {
                let leaf = LeafExtent { logical, phys: hilo64(hi as u32, lo), len: len % 0x8000 };
                leaves.push(leaf);
            }
        } else {
            let parts = (u16le(data, off + 8), u32le(data, off + 4));
            if let (Ok(hi), Ok(lo)) = parts {
                children.push(hilo64(hi as u32, lo));
            }
        }
        i += 1;
    }
    if depth == 0 {
        ExtentNode::Leaf(leaves)
    } else {
        ExtentNode::Index(children)
    }
}

/// A regular file's inode: its size and the root of its extent tree.
pub struct FileInode {
    pub size: u64,
    pub root: Vec<u8>,
}

/// The file that an inode's bytes say, as its size and the root of its extent
/// tree: a regular file that some directory names, with an extent tree and
/// something in it. Nothing of any other inode.
pub open spec fn inode_read(inode: Seq<u8>) -> Result<Option<(int, Seq<u8>)>, Ext4Error> {
    if inode.len() < 2 {
        Err(Ext4Error::ShortRead)
    } else if le16(inode, 0x00) / 0x1000 != 8 {
        Ok(None)
    } else if inode.len() < 0x1c {
        Err(Ext4Error::ShortRead)
    } else if le16(inode, 0x1a) == 0 {
        Ok(None)
    } else if inode.len() < 0x24 {
        Err(Ext4Error::ShortRead)
    } else if (le32(inode, 0x20) / 0x8_0000) % 2 != 1 {
        Ok(None)
    } else if inode.len() < 0x70 {
        Err(Ext4Error::ShortRead)
    } else if halves(le32(inode, 0x6c), le32(inode, 0x04)) == 0 {
        Ok(None)
    } else {
        Ok(
            Some(
                (
                    halves(le32(inode, 0x6c), le32(inode, 0x04)),
                    inode.subrange(0x28, 0x64),
                ),
            ),
        )
    }
}

/// The file that an inode's bytes say, if it is one.
pub fn read_inode(inode: &[u8]) -> (r: Result<Option<FileInode>, Ext4Error>)
    ensures
        match r {
            Ok(Some(f)) => inode_read(inode@) == Ok::<Option<(int, Seq<u8>)>, Ext4Error>(
                Some((f.size as int, f.root@)),
            ),
            Ok(None) => inode_read(inode@) == Ok::<Option<(int, Seq<u8>)>, Ext4Error>(None),
            Err(e) => inode_read(inode@) == Err::<Option<(int, Seq<u8>)>, Ext4Error>(e),
        },
        r matches Ok(Some(f)) ==> f.root@.len() == 60 && forall|i: int|
            0 <= i < 60 ==> #[trigger] f.root@[i] == inode@[0x28 + i],
{
    let mode: u16 = match u16le(inode, 0x00) {
        Ok(v) => v,
        Err(e) => {
            return Err(e);
        },
    };
    if mode / 0x1000 != 8 {
        return Ok(None);
    }
    let links: u16 = match u16le(inode, 0x1a) {
        Ok(v) => v,
        Err(e) => {
            return Err(e);
        },
    };
    if links == 0 {
        return Ok(None);
    }
    let flags: u32 = match u32le(inode, 0x20) {
        Ok(v) => v,
        Err(e) => {
            return Err(e);
        },
    };
    if (flags / 0x8_0000) % 2 != 1 {
        return Ok(None);
    }
    let size: u64 = match (u32le(inode, 0x6c), u32le(inode, 0x04)) {
        (Ok(hi), Ok(lo)) => hilo64(hi, lo),
        _ => {
            return Err(Ext4Error::ShortRead);
        },
    };
    if size == 0 {
        return Ok(None);
    }
    let mut root: Vec<u8> = Vec::new();
    let mut i: usize = 0x28;
    while i < 0x64
        invariant
            0x28 <= i <= 0x64,
            inode@.len() >= 0x70,
            root@ == inode@.subrange(0x28, i as int),
        decreases 0x64 - i,
    {
        root.push(inode[i]);
        assert(root@ =~= inode@.subrange(0x28, i as int + 1));
        i += 1;
    }
    Ok(Some(FileInode { size, root }))
}

// ---------------------------------------------------------------------------
// Fragments
// ---------------------------------------------------------------------------

/// A run of blocks of a file, before its bytes are read.
#[derive(Clone, Copy, Debug, PartialEq, Eq, Structural)]
pub struct FragmentPlan {
    pub file_offset: u64,
    pub lba_start: u64,
    pub lba_length: u32,
    /// Bytes of the file among those of the blocks.
    pub byte_count: u64,
}

/// How many bytes of a file of `size` bytes the blocks of an extent hold.
pub open spec fn bytes_held(e: LeafExtent, size: int) -> int {
    if e.len * 4096 < size - e.logical * 4096 {
        e.len * 4096
    } else {
        size - e.logical * 4096
    }
}

/// The fragment of an extent that holds `byte_count` bytes of its file.
pub open spec fn fragment_of(e: LeafExtent, byte_count: int) -> FragmentPlan {
    FragmentPlan {
        file_offset: (e.logical * 4096) as u64,
        lba_start: e.phys,
        lba_length: e.len as u32,
        byte_count: byte_count as u64,
    }
}

/// The fragments of the extents, and how many of the file's bytes they leave:
/// one for each extent that begins before the file's end, while bytes are left.
/// Extents that overlap hold no more together than the file has.
pub open spec fn planned(extents: Seq<LeafExtent>, size: int) -> (Seq<FragmentPlan>, int)
    decreases extents.len(),
{
    if extents.len() == 0 {
        (Seq::empty(), size)
    } else {
        let (before, left) = planned(extents.drop_last(), size);
        let e = extents.last();
        if e.logical * 4096 < size && left > 0 {
            let taken = if bytes_held(e, size) < left {
                bytes_held(e, size)
            } else {
                left
            };
            (before.push(fragment_of(e, taken)), left - taken)
        } else {
            (before, left)
        }
    }
}

/// The extents in the file's order; those of the same block keep theirs.
pub open spec fn in_file_order(extents: Seq<LeafExtent>) -> Seq<LeafExtent> {
    stable_order_of(extents.map_values(|e: LeafExtent| e.logical as u128)).map_values(
        |i: int| extents[i],
    )
}

/// The fragments that a file of `size` bytes with these extents divides into.
pub fn plan_fragments(extents: &Vec<LeafExtent>, size: u64) -> (plan: Vec<FragmentPlan>)
    ensures
        plan@ == planned(in_file_order(extents@), size as int).0,
{
    let ghost given = extents@;
    let mut keys: Vec<u128> = Vec::new();
    let mut i: usize = 0;
    while i < extents.len()
        invariant
            i <= extents@.len(),
            keys@.len() == i,
            forall|j: int| 0 <= j < i ==> keys@[j] == (#[trigger] extents@[j]).logical,
        decreases extents.len() - i,
    {
        keys.push(extents[i].logical as u128);
        i += 1;
    }
    let order = stable_order(&keys);
    let ghost ints = order@.map_values(|i: usize| i as int);
    let ghost sorted = in_file_order(given);
    proof {
        assert(keys@ =~= given.map_values(|e: LeafExtent| e.logical as u128));
        assert(sorted =~= ints.map_values(|i: int| given[i]));
    }
    let mut plan: Vec<FragmentPlan> = Vec::new();
    let mut left: u64 = size;
    let mut k: usize = 0;
    assert(sorted.take(0) =~= Seq::<LeafExtent>::empty());
    while k < order.len()
        invariant
            k <= order@.len(),
            given == extents@,
            ints == order@.map_values(|i: usize| i as int),
            is_stable_order(keys@, ints),
            keys@.len() == given.len(),
            sorted == ints.map_values(|i: int| given[i]),
            planned(sorted.take(k as int), size as int) == (plan@, left as int),
        decreases order.len() - k,
    {
        assert(ints[k as int] == order@[k as int]);
        let e = extents[order[k]];
        proof {
            let here = sorted.take(k as int + 1);
            assert(here.drop_last() =~= sorted.take(k as int));
            assert(here.last() == e);
        }
        let file_offset: u64 = e.logical as u64 * LBA_SIZE;
        if file_offset < size && left > 0 {
            let allocated: u64 = e.len as u64 * LBA_SIZE;
            let ahead: u64 = size - file_offset;
            let held: u64 = if allocated < ahead {
                allocated
            } else {
                ahead
            };
            let byte_count: u64 = if held < left {
                held
            } else {
                left
            };
            plan.push(
                FragmentPlan {
                    file_offset,
                    lba_start: e.phys,
                    lba_length: e.len as u32,
                    byte_count,
                },
            );
            left = left - byte_count;
        }
        k += 1;
    }
    assert(sorted.take(order@.len() as int) =~= sorted);
    plan
}

/// The bytes of a file that its fragments hold, one after the other.
pub open spec fn file_bytes(plan: Seq<FragmentPlan>, bodies: Seq<Seq<u8>>) -> Seq<u8>
    decreases plan.len(),
{
    if plan.len() == 0 {
        Seq::empty()
    } else {
        file_bytes(plan.drop_last(), bodies.drop_last()) + bodies.last().take(
            plan.last().byte_count as int,
        )
    }
}

/// The bytes of each body.
pub open spec fn body_seqs(bodies: Seq<Vec<u8>>) -> Seq<Seq<u8>> {
    bodies.map_values(|b: Vec<u8>| b@)
}

/// The hash of a whole file: of the bytes of the file, without what pads its
/// last block.
pub fn full_hash(plan: &Vec<FragmentPlan>, bodies: &Vec<Vec<u8>>) -> (h: ContentHash)
    requires
        plan@.len() == bodies@.len(),
        forall|i: int|
            0 <= i < plan@.len() ==> (#[trigger] plan@[i]).byte_count <= bodies@[i]@.len(),
    ensures
        hashes_to(file_bytes(plan@, body_seqs(bodies@)), h),
{
    let bytes = file_content(plan, bodies);
    content_hash(bytes.as_slice())
}

/// The bytes of a file: of each fragment's blocks as many as the file has.
pub fn file_content(plan: &Vec<FragmentPlan>, bodies: &Vec<Vec<u8>>) -> (bytes: Vec<u8>)
    requires
        plan@.len() == bodies@.len(),
        forall|i: int|
            0 <= i < plan@.len() ==> (#[trigger] plan@[i]).byte_count <= bodies@[i]@.len(),
    ensures
        bytes@ == file_bytes(plan@, body_seqs(bodies@)),
{
    let mut bytes: Vec<u8> = Vec::new();
    let ghost seqs = body_seqs(bodies@);
    let mut i: usize = 0;
    assert(plan@.take(0) =~= Seq::<FragmentPlan>::empty());
    while i < plan.len()
        invariant
            i <= plan@.len() == bodies@.len(),
            seqs == body_seqs(bodies@),
            forall|i: int|
                0 <= i < plan@.len() ==> (#[trigger] plan@[i]).byte_count <= bodies@[i]@.len(),
            bytes@ == file_bytes(plan@.take(i as int), seqs.take(i as int)),
        decreases plan.len() - i,
    {
        let body = &bodies[i];
        let whole: usize = body.len();
        assert(plan@[i as int].byte_count <= whole);
        let n: usize = plan[i].byte_count as usize;
        let ghost before = bytes@;
        let mut j: usize = 0;
        assert(before + body@.take(0) =~= before);
        while j < n
            invariant
                j <= n <= body@.len(),
                bytes@ == before + body@.take(j as int),
            decreases n - j,
        {
            bytes.push(body[j]);
            assert(before + body@.take(j as int + 1) =~= (before + body@.take(j as int)).push(
                body@[j as int],
            ));
            j += 1;
        }
        proof {
            let here = plan@.take(i as int + 1);
            let there = seqs.take(i as int + 1);
            assert(here.drop_last() =~= plan@.take(i as int));
            assert(there.drop_last() =~= seqs.take(i as int));
            assert(there.last() == body@);
        }
        i += 1;
    }
    assert(plan@.take(plan@.len() as int) =~= plan@);
    assert(seqs.take(bodies@.len() as int) =~= seqs);
    bytes
}

// ---------------------------------------------------------------------------
// Paths
// ---------------------------------------------------------------------------

/// The paths of the files whose bytes have one hash.
pub struct HashPaths {
    pub hash: ContentHash,
    pub paths: Vec<String>,
}

/// Each hash is there once.
pub open spec fn is_path_table(table: Seq<HashPaths>) -> bool {
    forall|i: int, j: int|
        0 <= i < j < table.len() ==> (#[trigger] table[i]).hash != (#[trigger] table[j]).hash
}

/// How many of the first `n` inodes have the hash.
pub open spec fn earlier(hashes: Seq<ContentHash>, h: ContentHash, n: int) -> int
    decreases n,
{
    if n <= 0 {
        0
    } else {
        earlier(hashes, h, n - 1) + (if hashes[n - 1] == h {
            1int
        } else {
            0
        })
    }
}

/// `path` is the path of inode `i`. The inodes of one hash take its paths from
/// the last to the first; one that finds none left has none.
pub open spec fn path_fits(
    hashes: Seq<ContentHash>,
    table: Seq<HashPaths>,
    i: int,
    path: Option<String>,
) -> bool {
    let k = earlier(hashes, hashes[i], i);
    match path {
        Some(p) => exists|t: int|
            0 <= t < table.len() && (#[trigger] table[t]).hash == hashes[i] && k
                < table[t].paths@.len() && p@ == table[t].paths@[table[t].paths@.len() - 1 - k]@,
        None => forall|t: int|
            0 <= t < table.len() && (#[trigger] table[t]).hash == hashes[i]
                ==> table[t].paths@.len() <= k,
    }
}

proof fn lemma_earlier(hashes: Seq<ContentHash>, h: ContentHash, n: int)
    requires
        0 <= n,
    ensures
        0 <= earlier(hashes, h, n) <= n,
    decreases n,
{
    if n > 0 {
        lemma_earlier(hashes, h, n - 1);
    }
}

/// The path of each inode, by the hash of its file.
pub fn assign_paths(hashes: &Vec<ContentHash>, table: &Vec<HashPaths>) -> (out: Vec<Option<String>>)
    requires
        is_path_table(table@),
    ensures
        out@.len() == hashes@.len(),
        forall|i: int|
            0 <= i < hashes@.len() ==> path_fits(hashes@, table@, i, #[trigger] out@[i]),
{
    let mut out: Vec<Option<String>> = Vec::new();
    let mut used: Vec<usize> = Vec::new();
    let mut t: usize = 0;
    while t < table.len()
        invariant
            t <= table@.len(),
            used@.len() == t,
            forall|j: int| 0 <= j < t ==> #[trigger] used@[j] == 0,
        decreases table.len() - t,
    {
        used.push(0);
        t += 1;
    }
    let mut i: usize = 0;
    while i < hashes.len()
        invariant
            i <= hashes@.len(),
            is_path_table(table@),
            out@.len() == i,
            used@.len() == table@.len(),
            forall|j: int|
                0 <= j < table@.len() ==> #[trigger] used@[j] == earlier(
                    hashes@,
                    table@[j].hash,
                    i as int,
                ),
            forall|j: int| 0 <= j < i ==> path_fits(hashes@, table@, j, #[trigger] out@[j]),
        decreases hashes.len() - i,
    {
        let h = hashes[i];
        let mut path: Option<String> = None;
        let mut found: usize = 0;
        while found < table.len() && table[found].hash != h
            invariant
                found <= table@.len(),
                forall|j: int| 0 <= j < found ==> (#[trigger] table@[j]).hash != h,
            decreases table.len() - found,
        {
            found += 1;
        }
        let ghost before = used@;
        if found < table.len() {
            let k: usize = used[found];
            let n = table[found].paths.len();
            proof {
                lemma_earlier(hashes@, h, i as int);
            }
            if k < n {
                path = Some(table[found].paths[n - 1 - k].clone());
            }
            used[found] = k + 1;
        }
        proof {
            assert forall|j: int| 0 <= j < table@.len() implies #[trigger] used@[j] == earlier(
                hashes@,
                table@[j].hash,
                i as int + 1,
            ) by {
                assert(before[j] == earlier(hashes@, table@[j].hash, i as int));
                if table@[j].hash == h && j != found {
                    if j < found {
                        assert(table@[j].hash != h);
                    } else {
                        assert(table@[found as int].hash != table@[j].hash);
                    }
                }
            }
            assert(path_fits(hashes@, table@, i as int, path)) by {
                match path {
                    Some(p) => {
                        assert(table@[found as int].hash == h);
                    },
                    None => {
                        assert forall|t: int|
                            0 <= t < table@.len() && (#[trigger] table@[t]).hash == h implies
                            table@[t].paths@.len() <= earlier(hashes@, h, i as int) by {
                            if t < found {
                                assert(table@[t].hash != h);
                            } else if t > found {
                                assert(table@[found as int].hash != table@[t].hash);
                            }
                        }
                    },
                }
            }
        }
        out.push(path);
        i += 1;
    }
    out
}

// ---------------------------------------------------------------------------
// Coverage
// ---------------------------------------------------------------------------

/// Bit `lba` of the words is set.
pub open spec fn bit_set(words: Seq<u64>, lba: int) -> bool {
    words[lba / 64] & (1u64 << ((lba % 64) as u64)) != 0
}

proof fn lemma_set_bit(w: u64, a: u64, b: u64)
    by (bit_vector)
    requires
        a < 64,
        b < 64,
    ensures
        (w | (1u64 << a)) & (1u64 << b) != 0 <==> (a == b || w & (1u64 << b) != 0),
{
}

proof fn lemma_zero_word(b: u64)
    by (bit_vector)
    ensures
        0u64 & (1u64 << b) == 0,
{
}

/// Which blocks of an image files own.
pub struct Ext4Scan {
    /// Bit `i` is set where block `i` is a file's.
    pub file_lba_coverage: Vec<u64>,
    pub total_lbas: u64,
}

/// One of the first `n` fragments has the block.
pub open spec fn owned(plan: Seq<FragmentPlan>, n: int, lba: int) -> bool {
    exists|i: int|
        0 <= i < n && (#[trigger] plan[i]).lba_start <= lba && lba < plan[i].lba_start
            + plan[i].lba_length
}

impl Ext4Scan {
    /// There is a bit for each block.
    pub open spec fn wf(&self) -> bool {
        self.file_lba_coverage@.len() * 64 >= self.total_lbas
    }

    /// The coverage of an image of so many blocks by these fragments.
    pub fn covering(plan: &Vec<FragmentPlan>, total_lbas: u64) -> (scan: Self)
        requires
            total_lbas <= usize::MAX,
            forall|i: int|
                0 <= i < plan@.len() ==> (#[trigger] plan@[i]).lba_start + plan@[i].lba_length
                    <= u64::MAX,
        ensures
            scan.wf(),
            scan.total_lbas == total_lbas,
            scan.file_lba_coverage@.len() == (total_lbas + 63) / 64,
            forall|lba: int|
                0 <= lba < total_lbas ==> #[trigger] bit_set(scan.file_lba_coverage@, lba) == owned(
                    plan@,
                    plan@.len() as int,
                    lba,
                ),
    {
        let words: usize = (total_lbas / 64) as usize + (if total_lbas % 64 == 0 {
            0usize
        } else {
            1usize
        });
        let mut cover: Vec<u64> = Vec::new();
        let mut w: usize = 0;
        while w < words
            invariant
                w <= words,
                cover@.len() == w,
                forall|j: int| 0 <= j < w ==> #[trigger] cover@[j] == 0,
            decreases words - w,
        {
            cover.push(0);
            w += 1;
        }
        proof {
            assert forall|lba: int| 0 <= lba < total_lbas implies #[trigger] bit_set(cover@, lba)
                == owned(plan@, 0, lba) by {
                lemma_zero_word((lba % 64) as u64);
                assert(cover@[lba / 64] == 0);
            }
        }
        let mut i: usize = 0;
        while i < plan.len()
            invariant
                i <= plan@.len(),
                total_lbas <= usize::MAX,
                cover@.len() * 64 >= total_lbas,
                cover@.len() == (total_lbas + 63) / 64,
                forall|i: int|
                    0 <= i < plan@.len() ==> (#[trigger] plan@[i]).lba_start + plan@[i].lba_length
                        <= u64::MAX,
                forall|lba: int|
                    0 <= lba < total_lbas ==> #[trigger] bit_set(cover@, lba) == owned(
                        plan@,
                        i as int,
                        lba,
                    ),
            decreases plan.len() - i,
        {
            let f = plan[i];
            let mut b: u32 = 0;
            while b < f.lba_length
                invariant
                    b <= f.lba_length,
                    i < plan@.len(),
                    total_lbas <= usize::MAX,
                    f == plan@[i as int],
                    f.lba_start + f.lba_length <= u64::MAX,
                    cover@.len() * 64 >= total_lbas,
                    cover@.len() == (total_lbas + 63) / 64,
                    forall|lba: int|
                        0 <= lba < total_lbas ==> #[trigger] bit_set(cover@, lba) == (owned(
                            plan@,
                            i as int,
                            lba,
                        ) || (f.lba_start <= lba && lba < f.lba_start + b)),
                decreases f.lba_length - b,
            {
                let lba: u64 = f.lba_start + b as u64;
                if lba < total_lbas {
                    let at: usize = (lba / 64) as usize;
                    let bit: u64 = lba % 64;
                    let ghost before = cover@;
                    let word: u64 = cover[at];
                    cover[at] = word | (1u64 << bit);
                    proof {
                        assert forall|x: int| 0 <= x < total_lbas implies #[trigger] bit_set(
                            cover@,
                            x,
                        ) == (owned(plan@, i as int, x) || (f.lba_start <= x && x < f.lba_start + b
                            + 1)) by {
                            let old_bit = bit_set(before, x);
                            if x / 64 == at {
                                lemma_set_bit(word, bit, (x % 64) as u64);
                                assert(bit_set(cover@, x) == (bit == x % 64 || old_bit));
                                assert(bit == x % 64 <==> x == lba);
                            }
                        }
                    }
                }
                b += 1;
            }
            proof {
                assert forall|lba: int| 0 <= lba < total_lbas implies #[trigger] bit_set(
                    cover@,
                    lba,
                ) == owned(plan@, i as int + 1, lba) by {
                    if owned(plan@, i as int, lba) {
                        let j = choose|j: int|
                            0 <= j < i && (#[trigger] plan@[j]).lba_start <= lba && lba
                                < plan@[j].lba_start + plan@[j].lba_length;
                        assert(0 <= j < i + 1 && plan@[j].lba_start <= lba);
                    }
                    if f.lba_start <= lba && lba < f.lba_start + f.lba_length {
                        assert(plan@[i as int].lba_start <= lba);
                    }
                }
            }
            i += 1;
        }
        Ext4Scan { file_lba_coverage: cover, total_lbas }
    }

    /// Whether the block is a file's.
    pub fn lba_is_file(&self, lba: u64) -> (b: bool)
        requires
            self.wf(),
        ensures
            b == (lba < self.total_lbas && bit_set(self.file_lba_coverage@, lba as int)),
    {
        if lba >= self.total_lbas {
            return false;
        }
        let words: usize = self.file_lba_coverage.len();
        assert(lba / 64 < words);
        let at: usize = (lba / 64) as usize;
        let bit: u64 = lba % 64;
        self.file_lba_coverage[at] & (1u64 << bit) != 0
    }
}

/// The places of fragments in the order of their blocks; those that begin
/// alike keep their order.
pub fn block_order(starts: &Vec<u64>) -> (order: Vec<usize>)
    ensures
        order@.map_values(|i: usize| i as int) == stable_order_of(
            starts@.map_values(|s: u64| s as u128),
        ),
        is_stable_order(
            starts@.map_values(|s: u64| s as u128),
            order@.map_values(|i: usize| i as int),
        ),
{
    let mut keys: Vec<u128> = Vec::new();
    let mut i: usize = 0;
    while i < starts.len()
        invariant
            i <= starts@.len(),
            keys@.len() == i,
            forall|j: int| 0 <= j < i ==> #[trigger] keys@[j] == starts@[j],
        decreases starts.len() - i,
    {
        keys.push(starts[i] as u128);
        i += 1;
    }
    assert(keys@ =~= starts@.map_values(|s: u64| s as u128));
    stable_order(&keys)
}

/// How many blocks an image of so many bytes has.
pub fn total_lbas(image_size: u64) -> (r: Result<u64, Ext4Error>)
    ensures
        r is Ok == (image_size % LBA_SIZE == 0),
        r matches Ok(n) ==> n == image_size / LBA_SIZE,
        r matches Err(e) ==> e == Ext4Error::SizeNotBlocks,
{
    if image_size % LBA_SIZE != 0 {
        return Err(Ext4Error::SizeNotBlocks);
    }
    Ok(image_size / LBA_SIZE)
}

// ---------------------------------------------------------------------------
// Laws
// ---------------------------------------------------------------------------

/// No two extents hold the same block of a file, and none is empty.
pub open spec fn are_apart(extents: Seq<LeafExtent>) -> bool {
    &&& forall|i: int| 0 <= i < extents.len() ==> (#[trigger] extents[i]).len > 0
    &&& forall|i: int, j: int|
        0 <= i < extents.len() && 0 <= j < extents.len() && i != j && (
        #[trigger] extents[i]).logical <= (#[trigger] extents[j]).logical ==> extents[i].logical
            + extents[i].len <= extents[j].logical
}

/// The fragments of a file: each begins and ends within it, in the file's
/// order, and only the last may hold fewer bytes than its blocks.
pub open spec fn within_file(plan: Seq<FragmentPlan>, size: int) -> bool {
    &&& forall|i: int|
        0 <= i < plan.len() ==> 0 < (#[trigger] plan[i]).byte_count <= plan[i].lba_length * 4096
            && plan[i].file_offset + plan[i].byte_count <= size
    &&& forall|i: int|
        0 <= i < plan.len() - 1 ==> (#[trigger] plan[i]).byte_count == plan[i].lba_length * 4096
    &&& forall|i: int, j: int|
        0 <= i < j < plan.len() ==> (#[trigger] plan[i]).file_offset + plan[i].byte_count <= (
        #[trigger] plan[j]).file_offset
}

/// The extents follow on each other, none empty.
spec fn ascend_apart(extents: Seq<LeafExtent>) -> bool {
    &&& forall|i: int| 0 <= i < extents.len() ==> (#[trigger] extents[i]).len > 0
    &&& forall|i: int, j: int|
        0 <= i < j < extents.len() ==> (#[trigger] extents[i]).logical + extents[i].len <= (
        #[trigger] extents[j]).logical
}

/// The fragments of extents that are apart: one for each that begins before the
/// file's end, with all that its blocks hold of the file.
pub open spec fn each_held(extents: Seq<LeafExtent>, size: int) -> Seq<FragmentPlan>
    decreases extents.len(),
{
    if extents.len() == 0 {
        Seq::empty()
    } else {
        let before = each_held(extents.drop_last(), size);
        let e = extents.last();
        if e.logical * 4096 < size {
            before.push(fragment_of(e, bytes_held(e, size)))
        } else {
            before
        }
    }
}

proof fn lemma_each_held(extents: Seq<LeafExtent>, size: int)
    requires
        0 <= size <= u64::MAX,
        ascend_apart(extents),
    ensures
        planned(extents, size).0 == each_held(extents, size),
        0 <= planned(extents, size).1 <= size,
        extents.len() > 0 ==> size - planned(extents, size).1 <= (extents.last().logical
            + extents.last().len) * 4096,
        extents.len() == 0 ==> planned(extents, size).1 == size,
        within_file(each_held(extents, size), size),
        extents.len() > 0 ==> forall|i: int|
            0 <= i < each_held(extents, size).len() ==> (#[trigger] each_held(
                extents,
                size,
            )[i]).file_offset + each_held(extents, size)[i].lba_length * 4096 <= (
            extents.last().logical + extents.last().len) * 4096,
    decreases extents.len(),
{
    if extents.len() > 0 {
        let head = extents.drop_last();
        let before = each_held(head, size);
        let plan = each_held(extents, size);
        let e = extents.last();
        lemma_each_held(head, size);
        if head.len() > 0 {
            assert(head.last() == extents[extents.len() - 2]);
            assert(extents[extents.len() - 2].logical + extents[extents.len() - 2].len
                <= extents[extents.len() - 1].logical);
        }
        if e.logical * 4096 < size {
            assert forall|i: int| 0 <= i < before.len() implies (#[trigger] plan[i]) == before[i]
                && plan[i].file_offset + plan[i].lba_length * 4096 <= e.logical * 4096
                && plan[i].byte_count == plan[i].lba_length * 4096 by {
                assert(before[i].file_offset + before[i].lba_length * 4096 <= (head.last().logical
                    + head.last().len) * 4096);
                if i == before.len() - 1 {
                    lemma_count_of(head, size, i);
                }
            }
        }
    }
}

/// A fragment holds what lies before the file's end.
proof fn lemma_count_of(extents: Seq<LeafExtent>, size: int, i: int)
    requires
        0 <= size <= u64::MAX,
        0 <= i < each_held(extents, size).len(),
    ensures
        ({
            let f = each_held(extents, size)[i];
            f.byte_count == (if f.lba_length * 4096 < size - f.file_offset {
                f.lba_length * 4096
            } else {
                size - f.file_offset
            })
        }),
    decreases extents.len(),
{
    if extents.len() > 0 {
        if i < each_held(extents.drop_last(), size).len() {
            lemma_count_of(extents.drop_last(), size, i);
        }
    }
}

/// The fragments of a file lie within it, whatever holes it has: one for each
/// extent that begins before the file's end, with all that the extent holds of
/// it; each ends at or before the file's end, and only the last may be short.
pub proof fn law_fragments_stay_within_the_file(extents: Seq<LeafExtent>, size: int)
    requires
        0 <= size <= u64::MAX,
        are_apart(extents),
    ensures
        planned(in_file_order(extents), size).0 == each_held(in_file_order(extents), size),
        within_file(planned(in_file_order(extents), size).0, size),
{
    let keys = extents.map_values(|e: LeafExtent| e.logical as u128);
    let order = stable_order_of(keys);
    let sorted = in_file_order(extents);
    crate::order::lemma_order_exists(keys);
    assert(is_stable_order(keys, order));
    assert forall|i: int| 0 <= i < sorted.len() implies (#[trigger] sorted[i]).len > 0 by {
        assert(sorted[i] == extents[order[i]]);
    }
    assert forall|i: int, j: int| 0 <= i < j < sorted.len() implies (
    #[trigger] sorted[i]).logical + sorted[i].len <= (#[trigger] sorted[j]).logical by {
        assert(sorted[i] == extents[order[i]]);
        assert(sorted[j] == extents[order[j]]);
        assert(keys[order[i]] <= keys[order[j]]);
    }
    lemma_each_held(sorted, size);
}

/// The bytes that the fragments take.
pub open spec fn bytes_planned(plan: Seq<FragmentPlan>) -> int
    decreases plan.len(),
{
    if plan.len() == 0 {
        0
    } else {
        bytes_planned(plan.drop_last()) + plan.last().byte_count
    }
}

/// Whatever the extents, the fragments hold no more bytes than the file has.
pub proof fn law_fragments_hold_no_more_than_the_file(extents: Seq<LeafExtent>, size: int)
    requires
        0 <= size <= u64::MAX,
    ensures
        ({
            let (plan, left) = planned(extents, size);
            &&& 0 <= left <= size
            &&& bytes_planned(plan) + left == size
        }),
    decreases extents.len(),
{
    if extents.len() > 0 {
        law_fragments_hold_no_more_than_the_file(extents.drop_last(), size);
        let before = planned(extents.drop_last(), size).0;
        let plan = planned(extents, size).0;
        if plan.len() > before.len() {
            assert(plan.drop_last() =~= before);
        }
    } else {
        assert(bytes_planned(planned(extents, size).0) == 0);
    }
}

/// The `n` bytes that say `v`, the lowest first.
pub open spec fn le_bytes(v: int, n: nat) -> Seq<u8>
    decreases n,
{
    if n == 0 {
        Seq::empty()
    } else {
        seq![(v % 256) as u8] + le_bytes(v / 256, (n - 1) as nat)
    }
}

/// `bytes` stand in `data` from `off` on.
pub open spec fn stands_at(data: Seq<u8>, off: int, bytes: Seq<u8>) -> bool {
    &&& 0 <= off && off + bytes.len() <= data.len()
    &&& forall|i: int| 0 <= i < bytes.len() ==> data[off + i] == #[trigger] bytes[i]
}

proof fn lemma_le_bytes(v: int)
    ensures
        le_bytes(v, 2) == seq![(v % 256) as u8, ((v / 256) % 256) as u8],
        le_bytes(v, 4) == seq![
            (v % 256) as u8,
            ((v / 256) % 256) as u8,
            ((v / 256 / 256) % 256) as u8,
            ((v / 256 / 256 / 256) % 256) as u8,
        ],
{
    reveal_with_fuel(le_bytes, 5);
    assert(le_bytes(v, 2) =~= seq![(v % 256) as u8, ((v / 256) % 256) as u8]);
    assert(le_bytes(v, 4) =~= seq![
        (v % 256) as u8,
        ((v / 256) % 256) as u8,
        ((v / 256 / 256) % 256) as u8,
        ((v / 256 / 256 / 256) % 256) as u8,
    ]);
}

/// An integer written with its lowest byte first is read back.
pub proof fn law_integers_read_back(data: Seq<u8>, off: int, v: int)
    requires
        0 <= v,
    ensures
        v < 0x1_0000 && stands_at(data, off, le_bytes(v, 2)) ==> le16(data, off) == v,
        v < 0x1_0000_0000 && stands_at(data, off, le_bytes(v, 4)) ==> le32(data, off) == v,
        v < 0x1_0000_0000_0000_0000 ==> halves(v / 0x1_0000_0000, v % 0x1_0000_0000) == v,
{
    lemma_le_bytes(v);
    if stands_at(data, off, le_bytes(v, 2)) {
        assert(data[off + 0] == le_bytes(v, 2)[0]);
        assert(data[off + 1] == le_bytes(v, 2)[1]);
    }
    if stands_at(data, off, le_bytes(v, 4)) {
        assert(data[off + 0] == le_bytes(v, 4)[0]);
        assert(data[off + 1] == le_bytes(v, 4)[1]);
        assert(data[off + 2] == le_bytes(v, 4)[2]);
        assert(data[off + 3] == le_bytes(v, 4)[3]);
    }
}

/// What an inode says is read off its own bytes: a regular file that has a
/// name, an extent tree and some bytes is one, and no other inode is. Its size
/// is the low half at `0x04` and the high half at `0x6c`, and its tree's root
/// the sixty bytes from `0x28` on, each as it stands.
pub proof fn law_an_inode_gives_its_own_root(inode: Seq<u8>)
    requires
        inode.len() >= 0x70,
    ensures
        ({
            let size = inode[0x04] + 0x100 * inode[0x05] + 0x1_0000 * inode[0x06] + 0x100_0000
                * inode[0x07] + 0x1_0000_0000 * (inode[0x6c] + 0x100 * inode[0x6d] + 0x1_0000
                * inode[0x6e] + 0x100_0000 * inode[0x6f]);
            let regular = inode[0x01] / 16 == 8;
            let named = inode[0x1a] != 0 || inode[0x1b] != 0;
            let has_tree = (inode[0x22] / 8) % 2 == 1;
            match inode_read(inode) {
                Ok(Some((said, root))) => {
                    &&& regular && named && has_tree
                    &&& said == size && size > 0
                    &&& root.len() == 60
                    &&& forall|i: int| 0 <= i < 60 ==> #[trigger] root[i] == inode[0x28 + i]
                },
                Ok(None) => !(regular && named && has_tree && size > 0),
                Err(_) => false,
            }
        }),
{
    let mode = le16(inode, 0x00);
    assert(mode / 0x1000 == inode[0x01] / 16) by {
        assert(mode == inode[0x00] + 256 * inode[0x01]);
    }
    let flags = le32(inode, 0x20);
    assert((flags / 0x8_0000) % 2 == (inode[0x22] / 8) % 2) by {
        assert(flags == inode[0x20] + 0x100 * inode[0x21] + 0x1_0000 * inode[0x22] + 0x100_0000
            * inode[0x23]);
    }
}

/// An inode is read in the order its fields are needed: what is too short for
/// the next field that matters is a short read.
pub proof fn law_a_cut_inode_is_a_short_read(inode: Seq<u8>, whole: Seq<u8>)
    requires
        inode.len() < whole.len(),
        whole.len() >= 0x70,
        inode == whole.take(inode.len() as int),
        inode_read(inode) is Ok,
    ensures
        inode_read(inode) == inode_read(whole),
{
    assert(forall|i: int| 0 <= i < inode.len() ==> #[trigger] inode[i] == whole[i]);
    if inode.len() >= 0x70 {
        assert(inode.subrange(0x28, 0x64) =~= whole.subrange(0x28, 0x64));
    }
}

/// The twelve bytes of a leaf's entry.
pub open spec fn leaf_bytes(e: LeafExtent, unwritten: bool) -> Seq<u8> {
    le_bytes(e.logical as int, 4) + le_bytes(
        e.len + (if unwritten {
            0x8000int
        } else {
            0
        }),
        2,
    ) + le_bytes(e.phys as int / 0x1_0000_0000, 2) + le_bytes(e.phys as int % 0x1_0000_0000, 4)
}

/// The twelve bytes of an index node's entry, for the blocks from `logical` on.
pub open spec fn index_bytes(logical: u32, child: u64) -> Seq<u8> {
    le_bytes(logical as int, 4) + le_bytes(child as int % 0x1_0000_0000, 4) + le_bytes(
        child as int / 0x1_0000_0000,
        2,
    ) + le_bytes(0, 2)
}

proof fn lemma_stands_part(data: Seq<u8>, off: int, a: Seq<u8>, b: Seq<u8>)
    requires
        stands_at(data, off, a + b),
    ensures
        stands_at(data, off, a),
        stands_at(data, off + a.len(), b),
{
    assert forall|i: int| 0 <= i < a.len() implies data[off + i] == #[trigger] a[i] by {
        assert((a + b)[i] == a[i]);
    }
    assert forall|i: int| 0 <= i < b.len() implies data[off + a.len() + i] == #[trigger] b[i] by {
        assert((a + b)[a.len() + i] == b[i]);
        assert(data[off + (a.len() + i)] == (a + b)[a.len() + i]);
    }
}

proof fn lemma_le_len(v: int)
    ensures
        le_bytes(v, 2).len() == 2,
        le_bytes(v, 4).len() == 4,
{
    lemma_le_bytes(v);
}

/// An extent written as entry `i` of a leaf is read back, whether or not it is
/// marked as not written.
pub proof fn law_a_leaf_reads_back(data: Seq<u8>, i: int, e: LeafExtent, unwritten: bool)
    requires
        0 <= i,
        e.len < 0x8000,
        e.phys < 0x1_0000_0000_0000,
        stands_at(data, (i + 1) * 12, leaf_bytes(e, unwritten)),
    ensures
        leaf_at(data, i) == e,
{
    let off = (i + 1) * 12;
    let said = e.len + (if unwritten {
        0x8000int
    } else {
        0
    });
    let (hi, lo) = (e.phys as int / 0x1_0000_0000, e.phys as int % 0x1_0000_0000);
    let a = le_bytes(e.logical as int, 4);
    let b = le_bytes(said, 2);
    let c = le_bytes(hi, 2);
    let d = le_bytes(lo, 4);
    lemma_le_len(e.logical as int);
    lemma_le_len(said);
    lemma_le_len(hi);
    lemma_le_len(lo);
    lemma_stands_part(data, off, a + b + c, d);
    lemma_stands_part(data, off, a + b, c);
    lemma_stands_part(data, off, a, b);
    law_integers_read_back(data, off, e.logical as int);
    law_integers_read_back(data, off + 4, said);
    law_integers_read_back(data, off + 6, hi);
    law_integers_read_back(data, off + 8, lo);
    law_integers_read_back(data, off, e.phys as int);
}

/// A child written as entry `i` of an index node is read back.
pub proof fn law_an_index_entry_reads_back(data: Seq<u8>, i: int, logical: u32, child: u64)
    requires
        0 <= i,
        child < 0x1_0000_0000_0000,
        stands_at(data, (i + 1) * 12, index_bytes(logical, child)),
    ensures
        child_at(data, i) == child,
{
    let off = (i + 1) * 12;
    let (hi, lo) = (child as int / 0x1_0000_0000, child as int % 0x1_0000_0000);
    let a = le_bytes(logical as int, 4);
    let b = le_bytes(lo, 4);
    let c = le_bytes(hi, 2);
    let d = le_bytes(0, 2);
    lemma_le_len(logical as int);
    lemma_le_len(lo);
    lemma_le_len(hi);
    lemma_le_len(0);
    lemma_stands_part(data, off, a + b + c, d);
    lemma_stands_part(data, off, a + b, c);
    lemma_stands_part(data, off, a, b);
    law_integers_read_back(data, off + 4, lo);
    law_integers_read_back(data, off + 8, hi);
    law_integers_read_back(data, off, child as int);
}

/// A node gives every entry it says, as long as they are there, and never one
/// that is not whole.
pub proof fn law_a_node_gives_all_its_entries(data: Seq<u8>, said: int)
    requires
        data.len() >= 12,
        0 <= said < 0x1_0000,
        stands_at(data, 0, seq![0x0au8, 0xf3u8] + le_bytes(said, 2)),
    ensures
        is_extent_node(data),
        (said + 1) * 12 <= data.len() ==> entry_count(data) == said,
        (said + 1) * 12 > data.len() ==> entry_count(data) < said && (entry_count(data) + 1) * 12
            <= data.len() < (entry_count(data) + 2) * 12,
        0 <= entry_count(data),
{
    lemma_le_len(said);
    lemma_stands_part(data, 0, seq![0x0au8, 0xf3u8], le_bytes(said, 2));
    law_integers_read_back(data, 2, said);
    assert(data[0int + 0] == seq![0x0au8, 0xf3u8][0]);
    assert(data[0int + 1] == seq![0x0au8, 0xf3u8][1]);
}

/// The groups are as many as it takes to hold the blocks, and no more.
pub proof fn law_groups_hold_the_blocks(blocks: int, first: int, per: int)
    requires
        0 <= first,
        0 < per,
    ensures
        blocks <= first ==> group_count(blocks, first, per) == 0,
        blocks > first ==> (group_count(blocks, first, per) - 1) * per < blocks - first
            <= group_count(blocks, first, per) * per,
{
    if blocks > first {
        let x = blocks - first + per - 1;
        vstd::arithmetic::div_mod::lemma_fundamental_div_mod(x, per);
        vstd::arithmetic::div_mod::lemma_mod_bound(x, per);
        let g = group_count(blocks, first, per);
        assert(x == per * g + x % per);
        assert((g - 1) * per == per * g - per) by (nonlinear_arith);
        assert(g * per == per * g) by (nonlinear_arith);
    }
}

/// A superblock that says these things is read as saying them.
pub proof fn law_a_superblock_reads_back(
    buf: Seq<u8>,
    blocks: int,
    first: int,
    per: int,
    inodes: int,
    inode_size: int,
    incompat: int,
)
    requires
        buf.len() >= 0x154,
        stands_at(buf, 0x38, seq![0x53u8, 0xefu8]),
        stands_at(buf, 0x18, le_bytes(2, 4)),
        0 <= blocks < 0x1_0000_0000_0000_0000,
        0 <= first < 0x1_0000_0000,
        0 < per < 0x1_0000_0000,
        0 <= inodes < 0x1_0000_0000,
        0 <= inode_size < 0x1_0000,
        0 <= incompat < 0x1_0000_0000,
        stands_at(buf, 0x04, le_bytes(blocks % 0x1_0000_0000, 4)),
        stands_at(buf, 0x150, le_bytes(blocks / 0x1_0000_0000, 4)),
        stands_at(buf, 0x14, le_bytes(first, 4)),
        stands_at(buf, 0x20, le_bytes(per, 4)),
        stands_at(buf, 0x28, le_bytes(inodes, 4)),
        stands_at(buf, 0x58, le_bytes(inode_size, 2)),
        stands_at(buf, 0x60, le_bytes(incompat, 4)),
    ensures
        superblock_of(buf) == Ok::<Superblock, Ext4Error>(
            Superblock {
                block_size: 4096,
                inode_size: inode_size as usize,
                inodes_per_group: inodes as u32,
                num_block_groups: group_count(blocks, first, per) as u32,
                is_64bit: (incompat / 0x80) % 2 == 1,
            },
        ),
{
    assert(buf[0x38int + 0] == seq![0x53u8, 0xefu8][0]);
    assert(buf[0x38int + 1] == seq![0x53u8, 0xefu8][1]);
    law_integers_read_back(buf, 0x18, 2);
    law_integers_read_back(buf, 0x04, blocks % 0x1_0000_0000);
    law_integers_read_back(buf, 0x150, blocks / 0x1_0000_0000);
    law_integers_read_back(buf, 0x04, blocks);
    law_integers_read_back(buf, 0x14, first);
    law_integers_read_back(buf, 0x20, per);
    law_integers_read_back(buf, 0x28, inodes);
    law_integers_read_back(buf, 0x58, inode_size);
    law_integers_read_back(buf, 0x60, incompat);
}

/// The fragment of `e` in a file of `size` bytes: at the extent's place in the
/// file and in the image, with the bytes up to the file's end.
pub open spec fn is_fragment(f: FragmentPlan, e: LeafExtent, size: int) -> bool {
    let ahead = size - e.logical * 4096;
    &&& f.file_offset == e.logical * 4096
    &&& f.lba_start == e.phys
    &&& f.lba_length == e.len
    &&& f.byte_count == (if e.len * 4096 <= ahead {
        e.len * 4096
    } else {
        ahead
    })
}

proof fn lemma_each_held_is(extents: Seq<LeafExtent>, size: int)
    requires
        0 <= size <= u64::MAX,
    ensures
        forall|i: int|
            #![trigger extents[i]]
            0 <= i < extents.len() && extents[i].logical * 4096 < size ==> exists|f: int|
                0 <= f < each_held(extents, size).len() && is_fragment(
                    #[trigger] each_held(extents, size)[f],
                    extents[i],
                    size,
                ),
        forall|f: int|
            #![trigger each_held(extents, size)[f]]
            0 <= f < each_held(extents, size).len() ==> exists|i: int|
                0 <= i < extents.len() && is_fragment(
                    each_held(extents, size)[f],
                    #[trigger] extents[i],
                    size,
                ),
    decreases extents.len(),
{
    if extents.len() > 0 {
        let head = extents.drop_last();
        let was = each_held(head, size);
        let now = each_held(extents, size);
        lemma_each_held_is(head, size);
        assert forall|i: int| #![trigger extents[i]] 0 <= i < extents.len() && extents[i].logical
            * 4096 < size implies exists|f: int|
            0 <= f < now.len() && is_fragment(#[trigger] now[f], extents[i], size) by {
            if i < head.len() {
                assert(head[i] == extents[i]);
                let f = choose|f: int|
                    0 <= f < was.len() && is_fragment(#[trigger] was[f], head[i], size);
                assert(now[f] == was[f]);
            } else {
                assert(is_fragment(now[now.len() - 1], extents[i], size));
            }
        }
        assert forall|f: int| #![trigger now[f]] 0 <= f < now.len() implies exists|i: int|
            0 <= i < extents.len() && is_fragment(now[f], #[trigger] extents[i], size) by {
            if f < was.len() {
                assert(now[f] == was[f]);
                let i = choose|i: int|
                    0 <= i < head.len() && is_fragment(was[f], #[trigger] head[i], size);
                assert(extents[i] == head[i]);
            } else {
                assert(is_fragment(now[f], extents[extents.len() - 1], size));
            }
        }
    }
}

/// Every extent that begins before the file's end has its fragment, and every
/// fragment is of an extent: no file's bytes are missed and none are made up.
pub proof fn law_each_extent_has_its_fragment(extents: Seq<LeafExtent>, size: int)
    requires
        0 <= size <= u64::MAX,
        are_apart(extents),
    ensures
        ({
            let plan = planned(in_file_order(extents), size).0;
            &&& forall|i: int|
                #![trigger extents[i]]
                0 <= i < extents.len() && extents[i].logical * 4096 < size ==> exists|f: int|
                    0 <= f < plan.len() && is_fragment(#[trigger] plan[f], extents[i], size)
            &&& forall|f: int|
                #![trigger plan[f]]
                0 <= f < plan.len() ==> exists|i: int|
                    0 <= i < extents.len() && is_fragment(plan[f], #[trigger] extents[i], size)
        }),
{
    law_fragments_stay_within_the_file(extents, size);
    let keys = extents.map_values(|e: LeafExtent| e.logical as u128);
    let order = stable_order_of(keys);
    let sorted = in_file_order(extents);
    crate::order::lemma_order_exists(keys);
    lemma_each_held_is(sorted, size);
    let plan = planned(sorted, size).0;
    assert forall|i: int| #![trigger extents[i]] 0 <= i < extents.len() && extents[i].logical * 4096
        < size implies exists|f: int|
        0 <= f < plan.len() && is_fragment(#[trigger] plan[f], extents[i], size) by {
        crate::order::lemma_order_is_onto(keys, order, i);
        let s = choose|s: int| 0 <= s < order.len() && #[trigger] order[s] == i;
        assert(sorted[s] == extents[i]);
    }
    assert forall|f: int| #![trigger plan[f]] 0 <= f < plan.len() implies exists|i: int|
        0 <= i < extents.len() && is_fragment(plan[f], #[trigger] extents[i], size) by {
        let s = choose|s: int|
            0 <= s < sorted.len() && is_fragment(plan[f], #[trigger] sorted[s], size);
        assert(0 <= order[s] < keys.len());
        assert(sorted[s] == extents[order[s]]);
    }
}

/// The bytes of a file are its fragments' bytes, one fragment after the other,
/// each without what pads its last block.
pub proof fn law_a_file_is_its_fragments(
    plan: Seq<FragmentPlan>,
    bodies: Seq<Seq<u8>>,
    i: int,
    j: int,
)
    requires
        plan.len() == bodies.len(),
        forall|x: int| 0 <= x < plan.len() ==> (#[trigger] plan[x]).byte_count <= bodies[x].len(),
    ensures
        file_bytes(plan, bodies).len() == bytes_planned(plan),
        0 <= i < plan.len() && 0 <= j < plan[i].byte_count ==> {
            &&& bytes_planned(plan.take(i)) >= 0
            &&& bytes_planned(plan.take(i)) + j < file_bytes(plan, bodies).len()
            &&& file_bytes(plan, bodies)[bytes_planned(plan.take(i)) + j] == bodies[i][j]
        },
    decreases plan.len(),
{
    if plan.len() > 0 {
        let (p, b) = (plan.drop_last(), bodies.drop_last());
        assert(forall|x: int| 0 <= x < p.len() ==> #[trigger] p[x] == plan[x]);
        assert(plan[plan.len() - 1].byte_count <= bodies[bodies.len() - 1].len());
        law_a_file_is_its_fragments(p, b, i, j);
        if 0 <= i < p.len() {
            assert(p.take(i) =~= plan.take(i));
        } else if i == p.len() {
            assert(plan.take(i) =~= p);
        }
    }
}

proof fn lemma_earlier_grows(hashes: Seq<ContentHash>, h: ContentHash, a: int, b: int)
    requires
        0 <= a <= b,
    ensures
        earlier(hashes, h, a) <= earlier(hashes, h, b),
    decreases b - a,
{
    if a < b {
        lemma_earlier_grows(hashes, h, a, b - 1);
    }
}

/// Two files of the same bytes do not share a path, where their paths differ.
pub proof fn law_a_path_is_given_once(
    hashes: Seq<ContentHash>,
    table: Seq<HashPaths>,
    t: int,
    i: int,
    j: int,
    p: String,
    q: String,
)
    requires
        is_path_table(table),
        0 <= t < table.len(),
        table[t].hash == hashes[i],
        forall|x: int, y: int|
            #![trigger table[t].paths@[x], table[t].paths@[y]]
            0 <= x < y < table[t].paths@.len() ==> table[t].paths@[x]@ != table[t].paths@[y]@,
        0 <= i < j < hashes.len(),
        hashes[i] == hashes[j],
        path_fits(hashes, table, i, Some(p)),
        path_fits(hashes, table, j, Some(q)),
    ensures
        p@ != q@,
        exists|x: int| 0 <= x < table[t].paths@.len() && p@ == (#[trigger] table[t].paths@[x])@,
{
    let h = hashes[i];
    let (k, l) = (earlier(hashes, h, i), earlier(hashes, h, j));
    lemma_earlier(hashes, h, i);
    lemma_earlier_grows(hashes, h, i + 1, j);
    assert(k < l);
    let a = choose|a: int|
        0 <= a < table.len() && (#[trigger] table[a]).hash == h && k < table[a].paths@.len() && p@
            == table[a].paths@[table[a].paths@.len() - 1 - k]@;
    let b = choose|b: int|
        0 <= b < table.len() && (#[trigger] table[b]).hash == h && l < table[b].paths@.len() && q@
            == table[b].paths@[table[b].paths@.len() - 1 - l]@;
    assert(a == t && b == t) by {
        if a < t {
            assert(table[a].hash != table[t].hash);
        } else if t < a {
            assert(table[t].hash != table[a].hash);
        }
        if b < t {
            assert(table[b].hash != table[t].hash);
        } else if t < b {
            assert(table[t].hash != table[b].hash);
        }
    }
    let n = table[t].paths@.len();
    assert(table[t].paths@[n - 1 - l]@ != table[t].paths@[n - 1 - k]@);
}

/// A file that is the first of its bytes has a path where its bytes have one.
pub proof fn law_a_named_file_has_a_path(
    hashes: Seq<ContentHash>,
    table: Seq<HashPaths>,
    t: int,
    i: int,
    path: Option<String>,
)
    requires
        0 <= t < table.len(),
        0 <= i < hashes.len(),
        table[t].hash == hashes[i],
        table[t].paths@.len() > 0,
        forall|j: int| 0 <= j < i ==> #[trigger] hashes[j] != hashes[i],
        path_fits(hashes, table, i, path),
    ensures
        path is Some,
{
    lemma_none_earlier(hashes, hashes[i], i);
    assert(table[t].hash == hashes[i]);
}

proof fn lemma_none_earlier(hashes: Seq<ContentHash>, h: ContentHash, n: int)
    requires
        0 <= n <= hashes.len(),
        forall|j: int| 0 <= j < n ==> #[trigger] hashes[j] != h,
    ensures
        earlier(hashes, h, n) == 0,
    decreases n,
{
    if n > 0 {
        lemma_none_earlier(hashes, h, n - 1);
    }
}

/// A block is a file's just where it is one of the blocks of some fragment,
/// counted from the fragment's first.
pub proof fn law_just_the_blocks_of_fragments_are_files(plan: Seq<FragmentPlan>, lba: int)
    ensures
        owned(plan, plan.len() as int, lba) <==> exists|i: int, b: int|
            #![trigger block_of(plan, i, b)]
            0 <= i < plan.len() && 0 <= b < plan[i].lba_length && lba == block_of(plan, i, b),
{
    if owned(plan, plan.len() as int, lba) {
        let i = choose|i: int|
            0 <= i < plan.len() && (#[trigger] plan[i]).lba_start <= lba && lba
                < plan[i].lba_start + plan[i].lba_length;
        assert(lba == block_of(plan, i, lba - plan[i].lba_start));
    }
    if exists|i: int, b: int|
        #![trigger block_of(plan, i, b)]
        0 <= i < plan.len() && 0 <= b < plan[i].lba_length && lba == block_of(plan, i, b) {
        let (i, b) = choose|i: int, b: int|
            #![trigger block_of(plan, i, b)]
            0 <= i < plan.len() && 0 <= b < plan[i].lba_length && lba == block_of(plan, i, b);
        assert(plan[i].lba_start <= lba);
    }
}

/// Block `b` of fragment `i`.
pub open spec fn block_of(plan: Seq<FragmentPlan>, i: int, b: int) -> int {
    plan[i].lba_start + b
}

/// What is no superblock of a supported image is refused for what it is: its
/// mark is not there, its blocks are of another size, or it is cut.
pub proof fn law_no_other_superblock_is_read(buf: Seq<u8>)
    ensures
        buf.len() < 0x3a ==> superblock_of(buf) == Err::<Superblock, Ext4Error>(
            Ext4Error::ShortRead,
        ),
        buf.len() >= 0x3a && !(buf[0x38] == 0x53 && buf[0x39] == 0xef) ==> superblock_of(buf)
            == Err::<Superblock, Ext4Error>(Ext4Error::NotExt4),
        buf.len() >= 0x3a && buf[0x38] == 0x53 && buf[0x39] == 0xef && !(buf[0x18] == 2 && buf[0x19]
            == 0 && buf[0x1a] == 0 && buf[0x1b] == 0) ==> (superblock_of(buf) matches Err(
            Ext4Error::UnsupportedBlockSize { log2 },
        ) && log2 == buf[0x18] + 0x100 * buf[0x19] + 0x1_0000 * buf[0x1a] + 0x100_0000
            * buf[0x1b]),
        0x3a <= buf.len() < 0x154 ==> superblock_of(buf) is Err,
{
}

/// The fragments of a file follow its order, whatever order its extents were
/// read in.
pub proof fn law_fragments_are_in_file_order(extents: Seq<LeafExtent>, size: int, a: int, b: int)
    requires
        0 <= size <= u64::MAX,
        0 <= a < b < planned(in_file_order(extents), size).0.len(),
    ensures
        planned(in_file_order(extents), size).0[a].file_offset <= planned(
            in_file_order(extents),
            size,
        ).0[b].file_offset,
{
    let keys = extents.map_values(|e: LeafExtent| e.logical as u128);
    crate::order::lemma_order_exists(keys);
    let order = stable_order_of(keys);
    let sorted = in_file_order(extents);
    assert forall|i: int, j: int| 0 <= i < j < sorted.len() implies (#[trigger] sorted[i]).logical
        <= (#[trigger] sorted[j]).logical by {
        assert(crate::order::ahead(keys, order[i], order[j]));
        assert(keys[order[i]] == sorted[i].logical as u128);
        assert(keys[order[j]] == sorted[j].logical as u128);
    }
    lemma_planned_in_order(sorted, size);
}

proof fn lemma_planned_in_order(extents: Seq<LeafExtent>, size: int)
    requires
        forall|i: int, j: int|
            0 <= i < j < extents.len() ==> (#[trigger] extents[i]).logical <= (
            #[trigger] extents[j]).logical,
    ensures
        forall|a: int, b: int|
            0 <= a < b < planned(extents, size).0.len() ==> (#[trigger] planned(
                extents,
                size,
            ).0[a]).file_offset <= (#[trigger] planned(extents, size).0[b]).file_offset,
        forall|a: int|
            0 <= a < planned(extents, size).0.len() ==> extents.len() > 0 && (#[trigger] planned(
                extents,
                size,
            ).0[a]).file_offset <= extents.last().logical * 4096,
    decreases extents.len(),
{
    if extents.len() > 0 {
        let front = extents.drop_last();
        assert forall|i: int, j: int| 0 <= i < j < front.len() implies (
        #[trigger] front[i]).logical <= (#[trigger] front[j]).logical by {
            assert(front[i] == extents[i] && front[j] == extents[j]);
        }
        lemma_planned_in_order(front, size);
        let (was, now) = (planned(front, size).0, planned(extents, size).0);
        let e = extents.last();
        if front.len() > 0 {
            assert(front.last() == extents[extents.len() - 2]);
            assert(extents[extents.len() - 2].logical <= extents[extents.len() - 1].logical);
        }
        assert forall|a: int| 0 <= a < now.len() implies extents.len() > 0 && (
        #[trigger] now[a]).file_offset <= e.logical * 4096 by {
            if a < was.len() {
                assert(now[a] == was[a]);
                assert(was[a].file_offset <= front.last().logical * 4096);
            }
        }
        assert forall|a: int, b: int| 0 <= a < b < now.len() implies (
        #[trigger] now[a]).file_offset <= (#[trigger] now[b]).file_offset by {
            assert(now[a] == was[a]);
            if b < was.len() {
                assert(now[b] == was[b]);
            } else {
                assert(now[b].file_offset == e.logical * 4096);
            }
        }
    }
}

} // verus!

//! The filesystem reader and writer facades: the superblock, the
//! serializer that assembles data blocks, fragments and all tables into
//! one image, and the reader that walks a serialized image back into a
//! flat node list.
use vstd::prelude::*;

use crate::bytes::{combine16, combine32, combine64, copy_range, extend_bytes, push_u16_le,
    push_u32_le, push_u64_le, read_u16_le, read_u32_le, read_u64_le, u16_le, u32_le, u64_le};
use crate::compress::{Codec, compress_block, decompress_block, spec_codec_id,
    spec_codec_supported};
use crate::dir::{DirEntry, DirEntryV, decode_dir_run, encode_dir_run};
use crate::error::SqfsError;
use crate::fragment::{Fragment, FragmentPacker, decode_fragment_table, encode_fragment_table};
use crate::inode::{Inode, InodeHeader, InodeKind, NO_FRAGMENT, decode_inode, encode_inode};
use crate::metadata::{MetaWriter, decode_meta_block};
use crate::node::{Node, NodeHeader, NodeKind, node_clone};
use crate::tree::{Tree, TreeEntry};

verus! {

/// The magic constant at the start of every image.
pub const MAGIC: u32 = 0x73717368;

/// The format version the engine reads and writes.
pub const VERSION_MAJOR: u16 = 4;

pub const VERSION_MINOR: u16 = 0;

/// The byte length of the fixed superblock.
pub const SUPERBLOCK_LEN: usize = 78;

/// The fixed header of an image: global parameters and the location of
/// every table. It is serialized first in the image but composed last,
/// since every offset depends on final table sizes.
#[derive(Clone, Copy, Debug, PartialEq, Eq, Structural)]
pub struct Superblock {
    pub block_size: u32,
    pub codec: Codec,
    pub inode_count: u32,
    pub mtime: u32,
    pub frag_count: u32,
    pub id_count: u32,
    pub inode_table_start: u64,
    pub dir_table_start: u64,
    pub frag_table_start: u64,
    pub id_table_start: u64,
    pub root_block: u32,
    pub root_offset: u16,
    pub bytes_used: u64,
}

/// The on-disk bytes of a superblock.
pub open spec fn spec_superblock_bytes(sb: Superblock) -> Seq<u8> {
    u32_le(MAGIC) + u16_le(VERSION_MAJOR) + u16_le(VERSION_MINOR) + u32_le(sb.block_size) + u16_le(
        spec_codec_id(sb.codec),
    ) + u16_le(0) + u32_le(sb.inode_count) + u32_le(sb.mtime) + u32_le(sb.frag_count) + u32_le(
        sb.id_count,
    ) + u64_le(sb.inode_table_start) + u64_le(sb.dir_table_start) + u64_le(sb.frag_table_start)
        + u64_le(sb.id_table_start) + u32_le(sb.root_block) + u16_le(sb.root_offset) + u64_le(
        sb.bytes_used,
    )
}

/// Serialize a superblock: the bytes are a function of its fields
/// alone, and exactly `SUPERBLOCK_LEN` long.
pub fn encode_superblock(sb: &Superblock) -> (r: Vec<u8>)
    ensures
        r@ == spec_superblock_bytes(*sb),
        r@.len() == SUPERBLOCK_LEN,
{
    let mut out: Vec<u8> = Vec::new();
    push_u32_le(&mut out, MAGIC);
    push_u16_le(&mut out, VERSION_MAJOR);
    push_u16_le(&mut out, VERSION_MINOR);
    push_u32_le(&mut out, sb.block_size);
    push_u16_le(&mut out, sb.codec.id());
    push_u16_le(&mut out, 0);
    push_u32_le(&mut out, sb.inode_count);
    push_u32_le(&mut out, sb.mtime);
    push_u32_le(&mut out, sb.frag_count);
    push_u32_le(&mut out, sb.id_count);
    push_u64_le(&mut out, sb.inode_table_start);
    push_u64_le(&mut out, sb.dir_table_start);
    push_u64_le(&mut out, sb.frag_table_start);
    push_u64_le(&mut out, sb.id_table_start);
    push_u32_le(&mut out, sb.root_block);
    push_u16_le(&mut out, sb.root_offset);
    push_u64_le(&mut out, sb.bytes_used);
    proof {
        assert(out@ =~= spec_superblock_bytes(*sb));
    }
    out
}

/// Parse the superblock at the start of an image: a short image, a
/// wrong magic or version, an unknown codec identifier, or a zero block
/// size is `Corrupt`; otherwise every field is pinned to its bytes.
pub open spec fn spec_parse_superblock(b: Seq<u8>) -> Result<Superblock, SqfsError> {
    if b.len() < SUPERBLOCK_LEN {
        Err(SqfsError::Corrupt)
    } else if combine32(b[0], b[1], b[2], b[3]) != MAGIC || combine16(b[4], b[5])
        != VERSION_MAJOR || combine16(b[6], b[7]) != VERSION_MINOR {
        Err(SqfsError::Corrupt)
    } else {
        let cid = combine16(b[12], b[13]);
        let block_size = combine32(b[8], b[9], b[10], b[11]);
        if !(cid == 0 || cid == 1 || cid == 2 || cid == 3 || cid == 4 || cid == 6) {
            Err(SqfsError::Corrupt)
        } else if block_size == 0 {
            Err(SqfsError::Corrupt)
        } else {
            Ok(
                Superblock {
                    block_size,
                    codec: if cid == 0 {
                        Codec::NoCompression
                    } else if cid == 1 {
                        Codec::Gzip
                    } else if cid == 2 {
                        Codec::Lzma
                    } else if cid == 3 {
                        Codec::Lzo
                    } else if cid == 4 {
                        Codec::Xz
                    } else {
                        Codec::Zstd
                    },
                    inode_count: combine32(b[16], b[17], b[18], b[19]),
                    mtime: combine32(b[20], b[21], b[22], b[23]),
                    frag_count: combine32(b[24], b[25], b[26], b[27]),
                    id_count: combine32(b[28], b[29], b[30], b[31]),
                    inode_table_start: combine64(b.subrange(32, 40)),
                    dir_table_start: combine64(b.subrange(40, 48)),
                    frag_table_start: combine64(b.subrange(48, 56)),
                    id_table_start: combine64(b.subrange(56, 64)),
                    root_block: combine32(b[64], b[65], b[66], b[67]),
                    root_offset: combine16(b[68], b[69]),
                    bytes_used: combine64(b.subrange(70, 78)),
                },
            )
        }
    }
}

/// Decode the superblock, exactly as the parse function of the format
/// says: same success condition, same fields, same error.
pub fn decode_superblock(img: &Vec<u8>) -> (r: Result<Superblock, SqfsError>)
    ensures
        r == spec_parse_superblock(img@),
        r is Err ==> r.unwrap_err() == SqfsError::Corrupt,
        img@.len() < SUPERBLOCK_LEN ==> r is Err,
        r is Ok ==> r.unwrap().block_size > 0,
{
    let n = img.len();
    if n < SUPERBLOCK_LEN {
        return Err(SqfsError::Corrupt);
    }
    let magic = read_u32_le(img, 0);
    let vmaj = read_u16_le(img, 4);
    let vmin = read_u16_le(img, 6);
    if magic != MAGIC || vmaj != VERSION_MAJOR || vmin != VERSION_MINOR {
        return Err(SqfsError::Corrupt);
    }
    let block_size = read_u32_le(img, 8);
    let cid = read_u16_le(img, 12);
    let codec = if cid == 0 {
        Codec::NoCompression
    } else if cid == 1 {
        Codec::Gzip
    } else if cid == 2 {
        Codec::Lzma
    } else if cid == 3 {
        Codec::Lzo
    } else if cid == 4 {
        Codec::Xz
    } else if cid == 6 {
        Codec::Zstd
    } else {
        return Err(SqfsError::Corrupt);
    };
    if block_size == 0 {
        return Err(SqfsError::Corrupt);
    }
    Ok(
        Superblock {
            block_size,
            codec,
            inode_count: read_u32_le(img, 16),
            mtime: read_u32_le(img, 20),
            frag_count: read_u32_le(img, 24),
            id_count: read_u32_le(img, 28),
            inode_table_start: read_u64_le(img, 32),
            dir_table_start: read_u64_le(img, 40),
            frag_table_start: read_u64_le(img, 48),
            id_table_start: read_u64_le(img, 56),
            root_block: read_u32_le(img, 64),
            root_offset: read_u16_le(img, 68),
            bytes_used: read_u64_le(img, 70),
        },
    )
}

/// The index of an id in the compact id table, appending it when new.
fn id_index(ids: &mut Vec<u32>, v: u32) -> (r: Result<u16, SqfsError>)
    ensures
        final(ids)@.len() >= old(ids)@.len(),
        final(ids)@.len() <= old(ids)@.len() + 1,
        old(ids)@.len() <= u16::MAX ==> r is Ok,
        r is Err ==> r.unwrap_err() == SqfsError::Corrupt,
{
    let n = ids.len();
    let mut i: usize = 0;
    while i < n
        invariant
            i <= n,
            n == ids@.len(),
            *ids == *old(ids),
        decreases n - i,
    {
        if ids[i] == v {
            if i > u16::MAX as usize {
                return Err(SqfsError::Corrupt);
            }
            return Ok(i as u16);
        }
        i = i + 1;
    }
    if n > u16::MAX as usize {
        return Err(SqfsError::Corrupt);
    }
    ids.push(v);
    Ok(n as u16)
}

/// The node an entry carries, a synthesized intermediate directory
/// counting as a bare directory with default metadata.
fn entry_node(e: &TreeEntry) -> (r: Node)
    ensures
        e.node is Some ==> r@ == e.node.unwrap()@,
        e.node is None ==> r@.kind is Dir,
{
    match &e.node {
        Some(n) => node_clone(n),
        None => Node {
            header: NodeHeader { permissions: 0o755, uid: 0, gid: 0, mtime: 0 },
            kind: NodeKind::Dir,
        },
    }
}

/// The inode type tag of a node.
fn node_tag(n: &Node) -> (r: u16)
    ensures
        1 <= r <= 5,
{
    match &n.kind {
        NodeKind::Dir => 1,
        NodeKind::File { .. } => 2,
        NodeKind::Symlink { .. } => 3,
        NodeKind::CharDevice { .. } => 4,
        NodeKind::BlockDevice { .. } => 5,
    }
}

/// Whether entry `j` is a direct child of the path of entry `i` of the
/// forest (both by index), or of the root when `parent` is `None`.
fn is_child_of(tree: &Tree, j: usize, parent: Option<usize>) -> (r: bool)
    requires
        tree.wf(),
        j < tree.entries@.len(),
        parent is Some ==> parent.unwrap() < tree.entries@.len(),
{
    let child = &tree.entries[j];
    match parent {
        None => child.comps.len() == 1,
        Some(i) => {
            let p = &tree.entries[i];
            let cl = child.comps.len();
            if cl < 1 || cl - 1 != p.comps.len() {
                return false;
            }
            let mut k: usize = 0;
            let plen = p.comps.len();
            while k < plen
                invariant
                    k <= plen,
                    plen == p.comps@.len(),
                    plen + 1 == child.comps@.len(),
                decreases plen - k,
            {
                if !crate::node::bytes_eq(&p.comps[k], &child.comps[k]) {
                    return false;
                }
                k = k + 1;
            }
            true
        },
    }
}


/// A copy of a file's block-size words.
fn clone_words(v: &Vec<u32>) -> (r: Vec<u32>)
    ensures
        r@ == v@,
{
    let mut r: Vec<u32> = Vec::new();
    let n = v.len();
    let mut i: usize = 0;
    while i < n
        invariant
            i <= n,
            n == v@.len(),
            r@ == v@.subrange(0, i as int),
        decreases n - i,
    {
        r.push(v[i]);
        i = i + 1;
        proof {
            assert(r@ =~= v@.subrange(0, i as int));
        }
    }
    proof {
        assert(v@.subrange(0, n as int) =~= v@);
    }
    r
}

/// The raw-flag bit of a data-block size word.
pub const BLOCK_RAW_FLAG: u32 = 0x0100_0000;

/// Serialize a forest into one image: data blocks first (with the
/// compress-or-store rule per block and tails handed to the fragment
/// packer), then the inode table, directory table, fragment table and
/// id table as metadata streams, and the superblock composed last,
/// once every offset is known. Serialization order follows the
/// forest's deterministic entry order, so identical forests give
/// identical images. A codec that is not compiled in is refused as
/// `Unsupported`; a block size that is not a power of two, or a value
/// that does not fit its on-disk field, is `Corrupt`.
#[verifier::rlimit(100)]
pub fn write_image(tree: &Tree, codec: Codec, block_size: u32) -> (r: Result<Vec<u8>, SqfsError>)
    requires
        tree.wf(),
        0 < block_size <= 0x100000,
    ensures
        !spec_codec_supported(codec) ==> r == Err::<Vec<u8>, SqfsError>(SqfsError::Unsupported),
        r is Err ==> r->Err_0 == SqfsError::Unsupported || r->Err_0 == SqfsError::Corrupt,
        r is Err && r->Err_0 == SqfsError::Unsupported ==> !spec_codec_supported(codec),
        r is Ok ==> spec_codec_supported(codec) && r.unwrap()@.len() > SUPERBLOCK_LEN
            && r.unwrap()@.subrange(0, 4) == u32_le(MAGIC),
        tree.entries@.len() == 0 && spec_codec_supported(codec) && (block_size & ((
        block_size - 1) as u32)) == 0 ==> r is Ok,
        r is Ok ==> (exists|sb: Superblock|
            r.unwrap()@.subrange(0, SUPERBLOCK_LEN as int) == spec_superblock_bytes(sb)
                && sb.block_size == block_size && sb.codec == codec && sb.inode_count
                == tree.entries@.len() + 1 && SUPERBLOCK_LEN <= sb.inode_table_start
                <= sb.dir_table_start <= sb.frag_table_start <= sb.id_table_start
                <= sb.bytes_used && sb.bytes_used == r.unwrap()@.len()),
{
    if !codec.supported() {
        return Err(SqfsError::Unsupported);
    }
    let n = tree.entries.len();
    if n > 0xffff_0000 {
        return Err(SqfsError::Corrupt);
    }
    if block_size & (block_size - 1) != 0 {
        return Err(SqfsError::Corrupt);
    }
    let bs = block_size as usize;
    let mut data: Vec<u8> = Vec::new();
    let mut packer = FragmentPacker::new(bs);
    let mut file_kinds: Vec<Option<InodeKind>> = Vec::new();
    let mut i: usize = 0;
    while i < n
        invariant
            i <= n,
            n == tree.entries@.len(),
            tree.wf(),
            packer.wf(),
            packer.spec_block_size() == bs,
            0 < bs <= 0x100000,
            spec_codec_supported(codec),
            file_kinds@.len() == i,
            n == 0 ==> data@.len() == 0 && packer.done_view().len() == 0
                && packer.current_view().len() == 0,
        decreases n - i,
    {
        let node = entry_node(&tree.entries[i]);
        match &node.kind {
            NodeKind::File { content } => {
                let flen = content.len();
                if flen as u64 > u32::MAX as u64 {
                    return Err(SqfsError::Corrupt);
                }
                if data.len() as u64 >= u32::MAX as u64 {
                    return Err(SqfsError::Corrupt);
                }
                let start64 = SUPERBLOCK_LEN as u64 + data.len() as u64;
                if start64 > u32::MAX as u64 {
                    return Err(SqfsError::Corrupt);
                }
                let full = flen / bs;
                proof {
                    assert(full * bs <= flen) by (nonlinear_arith)
                        requires full == flen / bs && bs > 0;
                }
                let tail = flen - full * bs;
                proof {
                    assert(tail < bs) by (nonlinear_arith)
                        requires tail == flen - full * bs && full == flen / bs && bs > 0;
                }
                let mut words: Vec<u32> = Vec::new();
                let mut b: usize = 0;
                while b < full
                    invariant
                        b <= full,
                        full * bs <= flen,
                        flen == content@.len(),
                        0 < bs <= 0x100000,
                        spec_codec_supported(codec),
                    decreases full - b,
                {
                    proof {
                        assert(b * bs + bs <= flen) by (nonlinear_arith)
                            requires b + 1 <= full && full * bs <= flen && bs > 0;
                    }
                    let off: usize = b * bs;
                    let chunk = copy_range(content, off, bs);
                    let packed = match compress_block(&chunk, codec) {
                        Ok(p) => p,
                        Err(e) => {
                            return Err(e);
                        },
                    };
                    let (payload, raw) = packed;
                    let word: u32 = if raw {
                        payload.len() as u32 | BLOCK_RAW_FLAG
                    } else {
                        payload.len() as u32
                    };
                    extend_bytes(&mut data, &payload);
                    words.push(word);
                    b = b + 1;
                }
                let frag_ref: (u32, u32) = if tail > 0 {
                    let t = copy_range(content, flen - tail, tail);
                    let fr = packer.add_tail(&t);
                    if fr.0 as u64 >= u32::MAX as u64 || fr.1 as u64 > u32::MAX as u64 {
                        return Err(SqfsError::Corrupt);
                    }
                    (fr.0 as u32, fr.1 as u32)
                } else {
                    (NO_FRAGMENT, 0)
                };
                file_kinds.push(
                    Some(
                        InodeKind::File {
                            blocks_start: start64 as u32,
                            frag_index: frag_ref.0,
                            frag_offset: frag_ref.1,
                            file_size: flen as u32,
                            block_sizes: words,
                        },
                    ),
                );
            },
            _ => {
                file_kinds.push(None);
            },
        }
        i = i + 1;
    }
    let fblocks = packer.finish();
    let mut frags: Vec<Fragment> = Vec::new();
    let nf = fblocks.len();
    let ghost data0 = data@;
    let mut fi: usize = 0;
    while fi < nf
        invariant
            fi <= nf,
            nf == fblocks@.len(),
            spec_codec_supported(codec),
            nf == 0 ==> data@ == data0 && frags@.len() == 0,
            n == tree.entries@.len(),
            n == 0 ==> nf == 0,
        decreases nf - fi,
    {
        if data.len() as u64 >= u64::MAX - SUPERBLOCK_LEN as u64 {
            return Err(SqfsError::Corrupt);
        }
        let start = SUPERBLOCK_LEN as u64 + data.len() as u64;
        let packed = match compress_block(&fblocks[fi], codec) {
            Ok(p) => p,
            Err(e) => {
                return Err(e);
            },
        };
        let (payload, raw) = packed;
        if payload.len() as u64 > u32::MAX as u64 {
            return Err(SqfsError::Corrupt);
        }
        frags.push(Fragment { start, size: payload.len() as u32, raw });
        extend_bytes(&mut data, &payload);
        fi = fi + 1;
    }
    let mut ids: Vec<u32> = Vec::new();
    let mut iw = MetaWriter::new(codec);
    let mut dw = MetaWriter::new(codec);
    let mut refs_block: Vec<u32> = Vec::new();
    let mut refs_off: Vec<u16> = Vec::new();
    let mut k: usize = 0;
    while k < n
        invariant
            k <= n,
            refs_block@.len() == k,
            refs_off@.len() == k,
        decreases n - k,
    {
        refs_block.push(0);
        refs_off.push(0);
        k = k + 1;
    }
    let mut maxd: usize = 0;
    let mut k: usize = 0;
    while k < n
        invariant
            k <= n,
            n == tree.entries@.len(),
            n == 0 ==> maxd == 0,
        decreases n - k,
    {
        if tree.entries[k].comps.len() > maxd {
            maxd = tree.entries[k].comps.len();
        }
        k = k + 1;
    }
    let mut d: usize = maxd;
    while d >= 1
        invariant
            n == tree.entries@.len(),
            tree.wf(),
            iw.wf(),
            dw.wf(),
            iw.spec_codec() == codec,
            dw.spec_codec() == codec,
            spec_codec_supported(codec),
            refs_block@.len() == n,
            refs_off@.len() == n,
            file_kinds@.len() == n,
            n <= 0xffff_0000,
            n == 0 ==> ids@.len() == 0 && iw.stream().len() == 0 && iw.spec_out().len() == 0
                && iw.spec_buf().len() == 0 && dw.stream().len() == 0 && dw.spec_out().len()
                == 0 && dw.spec_buf().len() == 0,
        decreases d,
    {
        let mut i: usize = 0;
        while i < n
            invariant
                i <= n,
                n == tree.entries@.len(),
                tree.wf(),
                iw.wf(),
                dw.wf(),
                iw.spec_codec() == codec,
                dw.spec_codec() == codec,
                spec_codec_supported(codec),
                refs_block@.len() == n,
                refs_off@.len() == n,
                file_kinds@.len() == n,
                n <= 0xffff_0000,
                n == 0 ==> ids@.len() == 0 && iw.stream().len() == 0 && iw.spec_out().len()
                    == 0 && iw.spec_buf().len() == 0 && dw.stream().len() == 0
                    && dw.spec_out().len() == 0 && dw.spec_buf().len() == 0,
            decreases n - i,
        {
            if tree.entries[i].comps.len() == d {
                let node = entry_node(&tree.entries[i]);
                let uid_idx = match id_index(&mut ids, node.header.uid) {
                    Ok(x) => x,
                    Err(e) => {
                        return Err(e);
                    },
                };
                let gid_idx = match id_index(&mut ids, node.header.gid) {
                    Ok(x) => x,
                    Err(e) => {
                        return Err(e);
                    },
                };
                let header = InodeHeader {
                    permissions: node.header.permissions,
                    uid_idx,
                    gid_idx,
                    mtime: node.header.mtime,
                    inode_number: i as u32 + 2,
                };
                let kind: InodeKind = match &node.kind {
                    NodeKind::Dir => {
                        let mut parent_num: u32 = 1;
                        if d >= 2 {
                            let mut j: usize = 0;
                            while j < n
                                invariant
                                    j <= n,
                                    n == tree.entries@.len(),
                                    n <= 0xffff_0000,
                                    tree.wf(),
                                    i < n,
                                decreases n - j,
                            {
                                if is_child_of(tree, i, Some(j)) {
                                    parent_num = j as u32 + 2;
                                    break ;
                                }
                                j = j + 1;
                            }
                        }
                        match write_dir_run(tree, Some(i), &refs_block, &refs_off, &mut dw,
                            parent_num) {
                            Ok(kk) => kk,
                            Err(e) => {
                                return Err(e);
                            },
                        }
                    },
                    NodeKind::File { .. } => {
                        match &file_kinds[i] {
                            Some(InodeKind::File {
                                blocks_start,
                                frag_index,
                                frag_offset,
                                file_size,
                                block_sizes,
                            }) => InodeKind::File {
                                blocks_start: *blocks_start,
                                frag_index: *frag_index,
                                frag_offset: *frag_offset,
                                file_size: *file_size,
                                block_sizes: clone_words(block_sizes),
                            },
                            _ => {
                                return Err(SqfsError::Corrupt);
                            },
                        }
                    },
                    NodeKind::Symlink { target } => {
                        if target.len() as u64 > u32::MAX as u64 {
                            return Err(SqfsError::Corrupt);
                        }
                        InodeKind::Symlink {
                            nlink: 1,
                            target: copy_range(target, 0, target.len()),
                        }
                    },
                    NodeKind::CharDevice { device } => InodeKind::CharDev {
                        nlink: 1,
                        device: *device,
                    },
                    NodeKind::BlockDevice { device } => InodeKind::BlockDev {
                        nlink: 1,
                        device: *device,
                    },
                };
                let iref = iw.ref_here();
                if iref.0 as u64 > u32::MAX as u64 {
                    return Err(SqfsError::Corrupt);
                }
                let mut rec: Vec<u8> = Vec::new();
                encode_inode(&mut rec, &Inode { header, kind });
                iw.write_bytes(&rec);
                refs_block.set(i, iref.0 as u32);
                refs_off.set(i, iref.1 as u16);
            }
            i = i + 1;
        }
        d = d - 1;
    }
    let root_kind = match write_dir_run(tree, None, &refs_block, &refs_off, &mut dw, 1) {
        Ok(kk) => kk,
        Err(e) => {
            return Err(e);
        },
    };
    let root_header = InodeHeader {
        permissions: 0o755,
        uid_idx: match id_index(&mut ids, 0) {
            Ok(x) => x,
            Err(e) => {
                return Err(e);
            },
        },
        gid_idx: match id_index(&mut ids, 0) {
            Ok(x) => x,
            Err(e) => {
                return Err(e);
            },
        },
        mtime: 0,
        inode_number: 1,
    };
    let rref = iw.ref_here();
    if rref.0 as u64 > u32::MAX as u64 {
        return Err(SqfsError::Corrupt);
    }
    let mut rrec: Vec<u8> = Vec::new();
    encode_inode(&mut rrec, &Inode { header: root_header, kind: root_kind });
    iw.write_bytes(&rrec);
    let inode_table = iw.finish();
    let dir_table = dw.finish();
    let ftab_raw = encode_fragment_table(&frags);
    let mut fw = MetaWriter::new(codec);
    fw.write_bytes(&ftab_raw);
    let frag_table = fw.finish();
    let mut idb: Vec<u8> = Vec::new();
    let nids = ids.len();
    let mut k: usize = 0;
    while k < nids
        invariant
            k <= nids,
            nids == ids@.len(),
            idb@.len() == 4 * k,
        decreases nids - k,
    {
        push_u32_le(&mut idb, ids[k]);
        k = k + 1;
    }
    let mut idw = MetaWriter::new(codec);
    idw.write_bytes(&idb);
    let id_table = idw.finish();
    let limit: u64 = 0x0fff_ffff_ffff_ffff;
    if data.len() as u64 > limit || inode_table.len() as u64 > limit || dir_table.len() as u64
        > limit || frag_table.len() as u64 > limit || id_table.len() as u64 > limit {
        return Err(SqfsError::Corrupt);
    }
    let inode_table_start = SUPERBLOCK_LEN as u64 + data.len() as u64;
    let dir_table_start = inode_table_start + inode_table.len() as u64;
    let frag_table_start = dir_table_start + dir_table.len() as u64;
    let id_table_start = frag_table_start + frag_table.len() as u64;
    let bytes_used = id_table_start + id_table.len() as u64;
    if frags.len() as u64 > u32::MAX as u64 || ids.len() as u64 > u32::MAX as u64 {
        return Err(SqfsError::Corrupt);
    }
    let sb = Superblock {
        block_size,
        codec,
        inode_count: n as u32 + 1,
        mtime: 0,
        frag_count: frags.len() as u32,
        id_count: ids.len() as u32,
        inode_table_start,
        dir_table_start,
        frag_table_start,
        id_table_start,
        root_block: rref.0 as u32,
        root_offset: rref.1 as u16,
        bytes_used,
    };
    let mut out = encode_superblock(&sb);
    extend_bytes(&mut out, &data);
    extend_bytes(&mut out, &inode_table);
    extend_bytes(&mut out, &dir_table);
    extend_bytes(&mut out, &frag_table);
    extend_bytes(&mut out, &id_table);
    proof {
        assert(out@.subrange(0, 4) =~= u32_le(MAGIC));
        assert(out@.subrange(0, SUPERBLOCK_LEN as int) =~= spec_superblock_bytes(sb));
    }
    Ok(out)
}

/// Write one directory's entry run to the directory table and give
/// back the directory inode payload referencing it.
fn write_dir_run(
    tree: &Tree,
    parent: Option<usize>,
    refs_block: &Vec<u32>,
    refs_off: &Vec<u16>,
    dw: &mut MetaWriter,
    parent_num: u32,
) -> (r: Result<InodeKind, SqfsError>)
    requires
        tree.wf(),
        old(dw).wf(),
        parent is Some ==> parent.unwrap() < tree.entries@.len(),
        refs_block@.len() == tree.entries@.len(),
        refs_off@.len() == tree.entries@.len(),
        tree.entries@.len() <= 0xffff_0000,
    ensures
        final(dw).wf(),
        final(dw).spec_codec() == old(dw).spec_codec(),
        final(dw).stream().len() <= old(dw).stream().len() + 0xffff,
        tree.entries@.len() == 0 && old(dw).spec_out().len() + old(dw).spec_buf().len() + 2
            <= u32::MAX ==> r is Ok,
        r is Ok ==> r.unwrap()@ is Dir,
        r is Err ==> r.unwrap_err() == SqfsError::Corrupt,
{
    let n = tree.entries.len();
    let mut es: Vec<DirEntry> = Vec::new();
    let mut j: usize = 0;
    while j < n
        invariant
            j <= n,
            n == tree.entries@.len(),
            tree.wf(),
            parent is Some ==> parent.unwrap() < n,
            refs_block@.len() == n,
            refs_off@.len() == n,
            n <= 0xffff_0000,
            dw.wf(),
            *dw == *old(dw),
            n == 0 ==> es@.len() == 0,
            forall|q: int| 0 <= q < es@.len() ==> (#[trigger] es@[q]).name@.len() <= u16::MAX,
        decreases n - j,
    {
        if is_child_of(tree, j, parent) {
            let node = entry_node(&tree.entries[j]);
            let name = tree.entries[j].name();
            if name.len() > u16::MAX as usize {
                return Err(SqfsError::Corrupt);
            }
            es.push(
                DirEntry {
                    inode_number: j as u32 + 2,
                    inode_block: refs_block[j],
                    inode_offset: refs_off[j],
                    type_tag: node_tag(&node),
                    name,
                },
            );
        }
        j = j + 1;
    }
    let run = encode_dir_run(&es);
    proof {
        if es@.len() == 0 {
            assert(es@.map_values(|e: DirEntry| e@) =~= Seq::<DirEntryV>::empty());
            assert(run@.len() == 0);
        }
    }
    if run.len() > u16::MAX as usize {
        return Err(SqfsError::Corrupt);
    }
    let dref = dw.ref_here();
    if dref.0 as u64 > u32::MAX as u64 {
        return Err(SqfsError::Corrupt);
    }
    dw.write_bytes(&run);
    Ok(
        InodeKind::Dir {
            start_block: dref.0 as u32,
            offset: dref.1 as u16,
            nlink: 2,
            size: run.len() as u16,
            parent: parent_num,
        },
    )
}


/// Decode one metadata-stream region into its flat logical bytes, with
/// a map from region-relative block starts to flat-stream offsets, so
/// metadata references into the region can be resolved.
fn decode_region(img: &Vec<u8>, start: usize, end: usize, codec: Codec) -> (r: Result<
    (Vec<u8>, Vec<(u32, u32)>),
    SqfsError,
>)
    ensures
        r is Err ==> r.unwrap_err() == SqfsError::Corrupt || r.unwrap_err()
            == SqfsError::Unsupported,
{
    if start > end || end > img.len() {
        return Err(SqfsError::Corrupt);
    }
    let ilen = img.len();
    let mut flat: Vec<u8> = Vec::new();
    let mut map: Vec<(u32, u32)> = Vec::new();
    let mut pos = start;
    while pos < end
        invariant
            start <= pos,
            end <= ilen,
            ilen == img@.len(),
        decreases end - pos,
    {
        if pos - start > u32::MAX as usize || flat.len() > u32::MAX as usize {
            return Err(SqfsError::Corrupt);
        }
        map.push(((pos - start) as u32, flat.len() as u32));
        let step = match decode_meta_block(img, pos, codec) {
            Ok(p) => p,
            Err(e) => {
                return Err(e);
            },
        };
        let (d, used) = step;
        proof {
            crate::metadata::lemma_parse_meta_block_len(codec, img@, pos as int);
        }
        extend_bytes(&mut flat, &d);
        pos = pos + used;
        if pos > end {
            return Err(SqfsError::Corrupt);
        }
    }
    Ok((flat, map))
}

/// Resolve a metadata reference against a region's block map.
fn stream_pos(map: &Vec<(u32, u32)>, block: u32, offset: u16, flat_len: usize) -> (r: Result<
    usize,
    SqfsError,
>)
    ensures
        r is Ok ==> r.unwrap() <= flat_len,
        r is Err ==> r.unwrap_err() == SqfsError::Corrupt,
{
    let n = map.len();
    let mut i: usize = 0;
    while i < n
        invariant
            i <= n,
            n == map@.len(),
        decreases n - i,
    {
        if map[i].0 == block {
            let p = map[i].1 as u64 + offset as u64;
            if p > flat_len as u64 {
                return Err(SqfsError::Corrupt);
            }
            return Ok(p as usize);
        }
        i = i + 1;
    }
    Err(SqfsError::Corrupt)
}

/// The in-order decompressed contents of a file's data blocks: each
/// size word names a stored extent, passed through when raw-flagged,
/// decoded otherwise, and held to the filesystem block size.
pub open spec fn spec_data_blocks(
    img: Seq<u8>,
    c: Codec,
    bs: int,
    start: int,
    words: Seq<u32>,
) -> Result<Seq<u8>, SqfsError>
    decreases words.len(),
{
    if words.len() == 0 {
        Ok(Seq::empty())
    } else {
        let w = words.first();
        let stored = (w & 0x00ff_ffff) as int;
        let raw = (w & BLOCK_RAW_FLAG) != 0;
        if stored > bs || start < 0 || start + stored > img.len() {
            Err(SqfsError::Corrupt)
        } else {
            match crate::compress::spec_block_decode(
                c,
                img.subrange(start, start + stored),
                raw,
            ) {
                Some(d) => if d.len() <= bs {
                    match spec_data_blocks(img, c, bs, start + stored, words.drop_first()) {
                        Ok(rest) => Ok(d + rest),
                        Err(e) => Err(e),
                    }
                } else {
                    Err(SqfsError::Corrupt)
                },
                None => if c == Codec::Gzip {
                    Err(SqfsError::Corrupt)
                } else {
                    Err(SqfsError::Unsupported)
                },
            }
        }
    }
}

/// What resolving a file's content from an image gives: its data
/// blocks in order, then its fragment tail. The tail's claimed slice
/// must lie inside its fragment block's decompressed extent, and the
/// total must equal the declared file size — anything else is
/// `Corrupt`, so content is never truncated or padded.
pub open spec fn spec_file_content(
    img: Seq<u8>,
    c: Codec,
    bs: int,
    blocks_start: int,
    frag_index: u32,
    frag_offset: int,
    file_size: int,
    words: Seq<u32>,
    frags: Seq<Fragment>,
) -> Result<Seq<u8>, SqfsError> {
    match spec_data_blocks(img, c, bs, blocks_start, words) {
        Err(e) => Err(e),
        Ok(blocks_part) => if frag_index == NO_FRAGMENT {
            if blocks_part.len() == file_size {
                Ok(blocks_part)
            } else {
                Err(SqfsError::Corrupt)
            }
        } else if frag_index >= frags.len() {
            Err(SqfsError::Corrupt)
        } else {
            let f = frags[frag_index as int];
            if f.start > img.len() || img.len() - f.start < f.size || f.size > bs {
                Err(SqfsError::Corrupt)
            } else {
                match crate::compress::spec_block_decode(
                    c,
                    img.subrange(f.start as int, f.start + f.size),
                    f.raw,
                ) {
                    Some(fb) => if fb.len() <= bs {
                        if blocks_part.len() > file_size {
                            Err(SqfsError::Corrupt)
                        } else if frag_offset + (file_size - blocks_part.len()) > fb.len() {
                            Err(SqfsError::Corrupt)
                        } else {
                            Ok(
                                blocks_part + fb.subrange(
                                    frag_offset,
                                    frag_offset + (file_size - blocks_part.len()),
                                ),
                            )
                        }
                    } else {
                        Err(SqfsError::Corrupt)
                    },
                    None => if c == Codec::Gzip {
                        Err(SqfsError::Corrupt)
                    } else {
                        Err(SqfsError::Unsupported)
                    },
                }
            }
        },
    }
}

/// Resolve one file's content, exactly as the content function of the
/// format says: data blocks in order (decompressed, or passed through
/// when raw-flagged), then the fragment tail taken from inside its
/// fragment block's decompressed extent. Success yields exactly
/// `file_size` bytes; a fragment slice out of its block's bounds, or a
/// length disagreeing with the declared size, is `Corrupt`.
pub fn read_file_content(
    img: &Vec<u8>,
    blocks_start: u32,
    frag_index: u32,
    frag_offset: u32,
    file_size: u32,
    block_sizes: &Vec<u32>,
    frags: &Vec<Fragment>,
    codec: Codec,
    block_size: u32,
) -> (r: Result<Vec<u8>, SqfsError>)
    requires
        0 < block_size,
    ensures
        ({
            let s = spec_file_content(
                img@,
                codec,
                block_size as int,
                blocks_start as int,
                frag_index,
                frag_offset as int,
                file_size as int,
                block_sizes@,
                frags@,
            );
            &&& (r is Ok <==> s is Ok)
            &&& (r is Ok ==> Some(r.unwrap()@) == s.ok())
            &&& (r is Err ==> r.unwrap_err() == s->Err_0)
        }),
        r is Ok ==> r.unwrap()@.len() == file_size,
{
    let ghost gbs = block_size as int;
    let bs = block_size as usize;
    let mut out: Vec<u8> = Vec::new();
    let mut off: usize = blocks_start as usize;
    let n = block_sizes.len();
    let mut i: usize = 0;
    proof {
        assert(block_sizes@.skip(0) =~= block_sizes@);
        let whole = spec_data_blocks(img@, codec, gbs, blocks_start as int, block_sizes@);
        if whole is Ok {
            assert(out@ + whole.unwrap() =~= whole.unwrap());
        }
    }
    while i < n
        invariant
            i <= n,
            n == block_sizes@.len(),
            0 < bs,
            gbs == bs,
            gbs == block_size as int,
            ({
                let tail = spec_data_blocks(img@, codec, gbs, off as int, block_sizes@.skip(
                    i as int,
                ));
                let whole = spec_data_blocks(
                    img@,
                    codec,
                    gbs,
                    blocks_start as int,
                    block_sizes@,
                );
                &&& (tail is Ok ==> whole is Ok && whole.unwrap() == out@ + tail.unwrap())
                &&& (tail is Err ==> whole is Err && whole->Err_0 == tail->Err_0)
            }),
        decreases n - i,
    {
        proof {
            assert(block_sizes@.skip(i as int).first() == block_sizes@[i as int]);
            assert(block_sizes@.skip(i as int).drop_first() =~= block_sizes@.skip(i as int + 1));
        }
        let w = block_sizes[i];
        let stored = (w & 0x00ff_ffff) as usize;
        let raw = (w & BLOCK_RAW_FLAG) != 0;
        proof {
            assert((w & 0x00ff_ffff) <= 0x00ff_ffff) by (bit_vector);
        }
        if stored > bs || off > img.len() || img.len() - off < stored {
            proof {
                assert(spec_data_blocks(img@, codec, gbs, off as int, block_sizes@.skip(
                    i as int,
                )) == Err::<Seq<u8>, SqfsError>(SqfsError::Corrupt));
            }
            return Err(SqfsError::Corrupt);
        }
        let payload = copy_range(img, off, stored);
        let block = match decompress_block(&payload, raw, codec, bs) {
            Ok(bk) => bk,
            Err(e) => {
                proof {
                    assert(spec_data_blocks(img@, codec, gbs, off as int, block_sizes@.skip(
                        i as int,
                    )) == Err::<Seq<u8>, SqfsError>(e));
                }
                return Err(e);
            },
        };
        let ghost pre = out@;
        extend_bytes(&mut out, &block);
        off = off + stored;
        i = i + 1;
        proof {
            let tail = spec_data_blocks(img@, codec, gbs, off as int, block_sizes@.skip(
                i as int,
            ));
            if tail is Ok {
                assert(pre + (block@ + tail.unwrap()) =~= out@ + tail.unwrap());
            }
        }
    }
    proof {
        assert(block_sizes@.skip(n as int) =~= Seq::<u32>::empty());
        assert(spec_data_blocks(img@, codec, gbs, off as int, Seq::<u32>::empty())
            == Ok::<Seq<u8>, SqfsError>(Seq::empty()));
        assert(out@ + Seq::<u8>::empty() =~= out@);
    }
    let ghost blocks_part = out@;
    if frag_index != NO_FRAGMENT {
        if frag_index as usize >= frags.len() {
            return Err(SqfsError::Corrupt);
        }
        let f = frags[frag_index as usize];
        if f.start > img.len() as u64 || (img.len() as u64 - f.start) < f.size as u64 || f.size
            as usize > bs {
            return Err(SqfsError::Corrupt);
        }
        let payload = copy_range(img, f.start as usize, f.size as usize);
        let fb = match decompress_block(&payload, f.raw, codec, bs) {
            Ok(bk) => bk,
            Err(e) => {
                return Err(e);
            },
        };
        if out.len() as u64 > file_size as u64 {
            return Err(SqfsError::Corrupt);
        }
        let tail_len = file_size as usize - out.len();
        if frag_offset as u64 + tail_len as u64 > fb.len() as u64 {
            return Err(SqfsError::Corrupt);
        }
        let t = copy_range(&fb, frag_offset as usize, tail_len);
        extend_bytes(&mut out, &t);
        proof {
            assert(out@ =~= blocks_part + fb@.subrange(
                frag_offset as int,
                frag_offset as int + (file_size as int - blocks_part.len()),
            ));
        }
        Ok(out)
    } else {
        if out.len() as u64 != file_size as u64 {
            return Err(SqfsError::Corrupt);
        }
        Ok(out)
    }
}

/// Parse the superblock, resolve the root inode reference, and walk
/// the directory table depth first into the flat node list with full
/// paths, resolving each file's content through its block list and
/// fragment. Structurally invalid bytes are `Corrupt`; a compressed
/// region under a codec that is not compiled in is `Unsupported`.
pub fn read_image(img: &Vec<u8>) -> (r: Result<Vec<(Vec<u8>, Node)>, SqfsError>)
    ensures
        img@.len() < SUPERBLOCK_LEN ==> r is Err,
        spec_parse_superblock(img@) is Err ==> r == Err::<Vec<(Vec<u8>, Node)>, SqfsError>(
            spec_parse_superblock(img@)->Err_0,
        ),
        r is Ok ==> spec_parse_superblock(img@) is Ok,
{
    let sb = match decode_superblock(img) {
        Ok(x) => x,
        Err(e) => {
            return Err(e);
        },
    };
    let ilen = img.len() as u64;
    if sb.inode_table_start > ilen || sb.dir_table_start > ilen || sb.frag_table_start > ilen
        || sb.id_table_start > ilen || sb.bytes_used > ilen || sb.inode_table_start
        > sb.dir_table_start || sb.dir_table_start > sb.frag_table_start || sb.frag_table_start
        > sb.id_table_start || sb.id_table_start > sb.bytes_used {
        return Err(SqfsError::Corrupt);
    }
    let codec = sb.codec;
    let step = match decode_region(img, sb.inode_table_start as usize,
        sb.dir_table_start as usize, codec) {
        Ok(x) => x,
        Err(e) => {
            return Err(e);
        },
    };
    let (inode_flat, inode_map) = step;
    let step = match decode_region(img, sb.dir_table_start as usize,
        sb.frag_table_start as usize, codec) {
        Ok(x) => x,
        Err(e) => {
            return Err(e);
        },
    };
    let (dir_flat, dir_map) = step;
    let step = match decode_region(img, sb.frag_table_start as usize,
        sb.id_table_start as usize, codec) {
        Ok(x) => x,
        Err(e) => {
            return Err(e);
        },
    };
    let (frag_flat, _) = step;
    let step = match decode_region(img, sb.id_table_start as usize, sb.bytes_used as usize,
        codec) {
        Ok(x) => x,
        Err(e) => {
            return Err(e);
        },
    };
    let (id_flat, _) = step;
    if sb.id_count as u64 > (u32::MAX / 4) as u64 || id_flat.len() < 4 * sb.id_count as usize {
        return Err(SqfsError::Corrupt);
    }
    let mut ids: Vec<u32> = Vec::new();
    let nid = sb.id_count as usize;
    let idlen = id_flat.len();
    let mut k: usize = 0;
    while k < nid
        invariant
            k <= nid,
            4 * nid <= idlen,
            idlen == id_flat@.len(),
        decreases nid - k,
    {
        ids.push(read_u32_le(&id_flat, 4 * k));
        k = k + 1;
    }
    if sb.frag_count as u64 > u32::MAX as u64 {
        return Err(SqfsError::Corrupt);
    }
    let frags = match decode_fragment_table(&frag_flat, sb.frag_count as usize) {
        Ok(x) => x,
        Err(e) => {
            return Err(e);
        },
    };
    let rpos = match stream_pos(&inode_map, sb.root_block, sb.root_offset, inode_flat.len()) {
        Ok(x) => x,
        Err(e) => {
            return Err(e);
        },
    };
    let root = match decode_inode(&inode_flat, rpos, sb.block_size) {
        Ok(x) => x.0,
        Err(e) => {
            return Err(e);
        },
    };
    let mut stack: Vec<(Vec<u8>, u32, u16, u16)> = Vec::new();
    match &root.kind {
        InodeKind::Dir { start_block, offset, size, .. } => {
            stack.push((Vec::new(), *start_block, *offset, *size));
        },
        _ => {
            return Err(SqfsError::Corrupt);
        },
    }
    let mut nodes: Vec<(Vec<u8>, Node)> = Vec::new();
    let mut budget: u64 = sb.inode_count as u64 + 1;
    while stack.len() > 0
        invariant
            0 < sb.block_size,
            spec_parse_superblock(img@) is Ok,
        decreases budget,
    {
        if budget == 0 {
            return Err(SqfsError::Corrupt);
        }
        budget = budget - 1;
        let frame = match stack.pop() {
            Some(f) => f,
            None => {
                return Err(SqfsError::Corrupt);
            },
        };
        let (prefix, dblock, doffset, dsize) = frame;
        let es = if dsize == 0 {
            Vec::new()
        } else {
            let dpos = match stream_pos(&dir_map, dblock, doffset, dir_flat.len()) {
                Ok(x) => x,
                Err(e) => {
                    return Err(e);
                },
            };
            match decode_dir_run(&dir_flat, dpos, dsize as usize) {
                Ok(x) => x,
                Err(e) => {
                    return Err(e);
                },
            }
        };
        let ne = es.len();
        let mut j: usize = 0;
        while j < ne
            invariant
                j <= ne,
                ne == es@.len(),
                0 < sb.block_size,
                spec_parse_superblock(img@) is Ok,
            decreases ne - j,
        {
            let e = &es[j];
            let mut path = copy_range(&prefix, 0, prefix.len());
            if path.len() > 0 {
                path.push(crate::tree::SLASH);
            }
            extend_bytes(&mut path, &e.name);
            let ipos = match stream_pos(&inode_map, e.inode_block, e.inode_offset,
                inode_flat.len()) {
                Ok(x) => x,
                Err(er) => {
                    return Err(er);
                },
            };
            let ino = match decode_inode(&inode_flat, ipos, sb.block_size) {
                Ok(x) => x.0,
                Err(er) => {
                    return Err(er);
                },
            };
            if ino.header.uid_idx as usize >= ids.len() || ino.header.gid_idx as usize
                >= ids.len() {
                return Err(SqfsError::Corrupt);
            }
            let header = NodeHeader {
                permissions: ino.header.permissions,
                uid: ids[ino.header.uid_idx as usize],
                gid: ids[ino.header.gid_idx as usize],
                mtime: ino.header.mtime,
            };
            match &ino.kind {
                InodeKind::Dir { start_block, offset, size, .. } => {
                    let sub = copy_range(&path, 0, path.len());
                    nodes.push((path, Node { header, kind: NodeKind::Dir }));
                    stack.push((sub, *start_block, *offset, *size));
                },
                InodeKind::File {
                    blocks_start,
                    frag_index,
                    frag_offset,
                    file_size,
                    block_sizes,
                } => {
                    let content = match read_file_content(img, *blocks_start, *frag_index,
                        *frag_offset, *file_size, block_sizes, &frags, codec, sb.block_size) {
                        Ok(x) => x,
                        Err(er) => {
                            return Err(er);
                        },
                    };
                    nodes.push((path, Node { header, kind: NodeKind::File { content } }));
                },
                InodeKind::Symlink { target, .. } => {
                    let t = copy_range(target, 0, target.len());
                    nodes.push((path, Node { header, kind: NodeKind::Symlink { target: t } }));
                },
                InodeKind::CharDev { device, .. } => {
                    nodes.push(
                        (path, Node { header, kind: NodeKind::CharDevice { device: *device } }),
                    );
                },
                InodeKind::BlockDev { device, .. } => {
                    nodes.push(
                        (path, Node { header, kind: NodeKind::BlockDevice { device: *device } }),
                    );
                },
            }
            j = j + 1;
        }
    }
    Ok(nodes)
}

} // verus!

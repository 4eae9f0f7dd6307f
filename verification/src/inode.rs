//! The inode table codec: a common header followed by a tagged variant
//! layout, decoded via an explicit tag match. File inodes carry a flat
//! run of per-block size words whose count is implied by the declared
//! file size and the filesystem block size.
use vstd::prelude::*;

use crate::bytes::{combine16, combine32, copy_range, lemma_u16_le_roundtrip,
    lemma_u32_le_roundtrip, push_u16_le, push_u32_le, read_u16_le, read_u32_le, u16_le, u32_le};
use crate::error::SqfsError;

verus! {

/// The fragment index that marks a file without a fragment tail.
pub const NO_FRAGMENT: u32 = 0xffff_ffff;

/// The metadata common to every inode record.
#[derive(Clone, Copy, Debug, PartialEq, Eq, Structural)]
pub struct InodeHeader {
    pub permissions: u16,
    pub uid_idx: u16,
    pub gid_idx: u16,
    pub mtime: u32,
    pub inode_number: u32,
}

/// The variant payload of an inode record.
#[derive(Clone, Debug)]
pub enum InodeKind {
    /// A directory: where its entry run starts in the directory table,
    /// its hard-link count, the byte size of its entry run, and its
    /// parent's inode number.
    Dir { start_block: u32, offset: u16, nlink: u32, size: u16, parent: u32 },
    /// A regular file: where its data blocks start, its fragment slot
    /// (or `NO_FRAGMENT`), its offset inside the fragment block, its
    /// byte size, and one size word per stored data block.
    File { blocks_start: u32, frag_index: u32, frag_offset: u32, file_size: u32, block_sizes: Vec<
        u32,
    > },
    /// A symbolic link and its target path bytes.
    Symlink { nlink: u32, target: Vec<u8> },
    CharDev { nlink: u32, device: u32 },
    BlockDev { nlink: u32, device: u32 },
}

/// One inode record.
#[derive(Clone, Debug)]
pub struct Inode {
    pub header: InodeHeader,
    pub kind: InodeKind,
}

/// The mathematical value of a variant payload.
pub enum InodeKindV {
    Dir { start_block: u32, offset: u16, nlink: u32, size: u16, parent: u32 },
    File { blocks_start: u32, frag_index: u32, frag_offset: u32, file_size: u32, block_sizes: Seq<
        u32,
    > },
    Symlink { nlink: u32, target: Seq<u8> },
    CharDev { nlink: u32, device: u32 },
    BlockDev { nlink: u32, device: u32 },
}

/// The mathematical value of an inode record.
pub struct InodeV {
    pub header: InodeHeader,
    pub kind: InodeKindV,
}

impl View for InodeKind {
    type V = InodeKindV;

    open spec fn view(&self) -> InodeKindV {
        match self {
            InodeKind::Dir { start_block, offset, nlink, size, parent } => InodeKindV::Dir {
                start_block: *start_block,
                offset: *offset,
                nlink: *nlink,
                size: *size,
                parent: *parent,
            },
            InodeKind::File {
                blocks_start,
                frag_index,
                frag_offset,
                file_size,
                block_sizes,
            } => InodeKindV::File {
                blocks_start: *blocks_start,
                frag_index: *frag_index,
                frag_offset: *frag_offset,
                file_size: *file_size,
                block_sizes: block_sizes@,
            },
            InodeKind::Symlink { nlink, target } => InodeKindV::Symlink {
                nlink: *nlink,
                target: target@,
            },
            InodeKind::CharDev { nlink, device } => InodeKindV::CharDev {
                nlink: *nlink,
                device: *device,
            },
            InodeKind::BlockDev { nlink, device } => InodeKindV::BlockDev {
                nlink: *nlink,
                device: *device,
            },
        }
    }
}

impl View for Inode {
    type V = InodeV;

    open spec fn view(&self) -> InodeV {
        InodeV { header: self.header, kind: self.kind@ }
    }
}

/// The 16-bit type tag of a variant.
pub open spec fn spec_kind_tag(k: InodeKindV) -> u16 {
    match k {
        InodeKindV::Dir { .. } => 1,
        InodeKindV::File { .. } => 2,
        InodeKindV::Symlink { .. } => 3,
        InodeKindV::CharDev { .. } => 4,
        InodeKindV::BlockDev { .. } => 5,
    }
}

/// The bytes of the common header of an inode with tag `tag`.
pub open spec fn spec_header_bytes(tag: u16, h: InodeHeader) -> Seq<u8> {
    u16_le(tag) + u16_le(h.permissions) + u16_le(h.uid_idx) + u16_le(h.gid_idx) + u32_le(h.mtime)
        + u32_le(h.inode_number)
}

/// The size words of a file's block list, in order.
pub open spec fn spec_block_words(ws: Seq<u32>) -> Seq<u8>
    decreases ws.len(),
{
    if ws.len() == 0 {
        Seq::empty()
    } else {
        spec_block_words(ws.drop_last()) + u32_le(ws.last())
    }
}

/// The number of stored data blocks a file inode implies: every full
/// block, plus the short tail only when no fragment holds it.
pub open spec fn spec_block_count(file_size: u32, frag_index: u32, block_size: u32) -> int
    recommends
        block_size > 0,
{
    if frag_index == NO_FRAGMENT {
        (file_size + block_size - 1) as int / block_size as int
    } else {
        file_size as int / block_size as int
    }
}

/// The full on-disk record of one inode.
pub open spec fn spec_inode_bytes(ino: InodeV) -> Seq<u8> {
    spec_header_bytes(spec_kind_tag(ino.kind), ino.header) + match ino.kind {
        InodeKindV::Dir { start_block, offset, nlink, size, parent } => u32_le(start_block)
            + u32_le(nlink) + u16_le(size) + u16_le(offset) + u32_le(parent),
        InodeKindV::File { blocks_start, frag_index, frag_offset, file_size, block_sizes } => u32_le(
            blocks_start,
        ) + u32_le(frag_index) + u32_le(frag_offset) + u32_le(file_size) + spec_block_words(
            block_sizes,
        ),
        InodeKindV::Symlink { nlink, target } => u32_le(nlink) + u32_le(target.len() as u32)
            + target,
        InodeKindV::CharDev { nlink, device } => u32_le(nlink) + u32_le(device),
        InodeKindV::BlockDev { nlink, device } => u32_le(nlink) + u32_le(device),
    }
}

/// A file inode is well formed when its block list matches the count
/// its size implies, and a symlink when its target fits the length
/// word.
pub open spec fn spec_inode_ok(ino: InodeV, block_size: u32) -> bool {
    match ino.kind {
        InodeKindV::File { frag_index, file_size, block_sizes, .. } => block_sizes.len()
            == spec_block_count(file_size, frag_index, block_size),
        InodeKindV::Symlink { target, .. } => target.len() <= u32::MAX,
        _ => true,
    }
}

/// Append the size words of a file's block list.
fn push_block_words(out: &mut Vec<u8>, ws: &Vec<u32>)
    ensures
        final(out)@ == old(out)@ + spec_block_words(ws@),
{
    let n = ws.len();
    let mut i: usize = 0;
    while i < n
        invariant
            i <= n,
            n == ws@.len(),
            out@ == old(out)@ + spec_block_words(ws@.subrange(0, i as int)),
        decreases n - i,
    {
        push_u32_le(out, ws[i]);
        i = i + 1;
        proof {
            assert(ws@.subrange(0, i as int).drop_last() =~= ws@.subrange(0, i - 1));
            assert(out@ =~= old(out)@ + spec_block_words(ws@.subrange(0, i as int)));
        }
    }
    proof {
        assert(ws@.subrange(0, n as int) =~= ws@);
    }
}

/// Append the on-disk record of one inode: the bytes are a function of
/// the inode alone.
pub fn encode_inode(out: &mut Vec<u8>, ino: &Inode)
    requires
        match ino.kind {
            InodeKind::Symlink { ref target, .. } => target@.len() <= u32::MAX,
            _ => true,
        },
    ensures
        final(out)@ == old(out)@ + spec_inode_bytes(ino@),
{
    let tag: u16 = match &ino.kind {
        InodeKind::Dir { .. } => 1,
        InodeKind::File { .. } => 2,
        InodeKind::Symlink { .. } => 3,
        InodeKind::CharDev { .. } => 4,
        InodeKind::BlockDev { .. } => 5,
    };
    push_u16_le(out, tag);
    push_u16_le(out, ino.header.permissions);
    push_u16_le(out, ino.header.uid_idx);
    push_u16_le(out, ino.header.gid_idx);
    push_u32_le(out, ino.header.mtime);
    push_u32_le(out, ino.header.inode_number);
    match &ino.kind {
        InodeKind::Dir { start_block, offset, nlink, size, parent } => {
            push_u32_le(out, *start_block);
            push_u32_le(out, *nlink);
            push_u16_le(out, *size);
            push_u16_le(out, *offset);
            push_u32_le(out, *parent);
        },
        InodeKind::File { blocks_start, frag_index, frag_offset, file_size, block_sizes } => {
            push_u32_le(out, *blocks_start);
            push_u32_le(out, *frag_index);
            push_u32_le(out, *frag_offset);
            push_u32_le(out, *file_size);
            push_block_words(out, block_sizes);
        },
        InodeKind::Symlink { nlink, target } => {
            push_u32_le(out, *nlink);
            push_u32_le(out, target.len() as u32);
            crate::bytes::extend_bytes(out, target);
        },
        InodeKind::CharDev { nlink, device } => {
            push_u32_le(out, *nlink);
            push_u32_le(out, *device);
        },
        InodeKind::BlockDev { nlink, device } => {
            push_u32_le(out, *nlink);
            push_u32_le(out, *device);
        },
    }
    proof {
        assert(out@ =~= old(out)@ + spec_inode_bytes(ino@));
    }
}


/// The size words parsed from `b` starting at `pos`, `n` of them.
pub open spec fn spec_parse_words(b: Seq<u8>, pos: int, n: int) -> Seq<u32>
    decreases n,
{
    if n <= 0 {
        Seq::empty()
    } else {
        spec_parse_words(b, pos, n - 1).push(
            combine32(
                b[pos + 4 * (n - 1)],
                b[pos + 4 * (n - 1) + 1],
                b[pos + 4 * (n - 1) + 2],
                b[pos + 4 * (n - 1) + 3],
            ),
        )
    }
}

/// Parse one inode record at `pos` of the decompressed inode stream
/// `b`: the inode and the bytes consumed, or the exact error. An
/// unknown type tag, or a record running past the end of the stream,
/// is `Corrupt`.
pub open spec fn spec_parse_inode(b: Seq<u8>, pos: int, block_size: u32) -> Result<
    (InodeV, int),
    SqfsError,
>
    recommends
        block_size > 0,
{
    if pos < 0 || pos + 16 > b.len() {
        Err(SqfsError::Corrupt)
    } else {
        let tag = combine16(b[pos], b[pos + 1]);
        let header = InodeHeader {
            permissions: combine16(b[pos + 2], b[pos + 3]),
            uid_idx: combine16(b[pos + 4], b[pos + 5]),
            gid_idx: combine16(b[pos + 6], b[pos + 7]),
            mtime: combine32(b[pos + 8], b[pos + 9], b[pos + 10], b[pos + 11]),
            inode_number: combine32(b[pos + 12], b[pos + 13], b[pos + 14], b[pos + 15]),
        };
        let base = pos + 16;
        if tag == 1 {
            if base + 16 > b.len() {
                Err(SqfsError::Corrupt)
            } else {
                Ok(
                    (
                        InodeV {
                            header,
                            kind: InodeKindV::Dir {
                                start_block: combine32(
                                    b[base],
                                    b[base + 1],
                                    b[base + 2],
                                    b[base + 3],
                                ),
                                nlink: combine32(b[base + 4], b[base + 5], b[base + 6], b[base + 7]),
                                size: combine16(b[base + 8], b[base + 9]),
                                offset: combine16(b[base + 10], b[base + 11]),
                                parent: combine32(
                                    b[base + 12],
                                    b[base + 13],
                                    b[base + 14],
                                    b[base + 15],
                                ),
                            },
                        },
                        32,
                    ),
                )
            }
        } else if tag == 2 {
            if base + 16 > b.len() {
                Err(SqfsError::Corrupt)
            } else {
                let frag_index = combine32(b[base + 4], b[base + 5], b[base + 6], b[base + 7]);
                let file_size = combine32(b[base + 12], b[base + 13], b[base + 14], b[base + 15]);
                let cnt = spec_block_count(file_size, frag_index, block_size);
                if base + 16 + 4 * cnt > b.len() {
                    Err(SqfsError::Corrupt)
                } else {
                    Ok(
                        (
                            InodeV {
                                header,
                                kind: InodeKindV::File {
                                    blocks_start: combine32(
                                        b[base],
                                        b[base + 1],
                                        b[base + 2],
                                        b[base + 3],
                                    ),
                                    frag_index,
                                    frag_offset: combine32(
                                        b[base + 8],
                                        b[base + 9],
                                        b[base + 10],
                                        b[base + 11],
                                    ),
                                    file_size,
                                    block_sizes: spec_parse_words(b, base + 16, cnt),
                                },
                            },
                            32 + 4 * cnt,
                        ),
                    )
                }
            }
        } else if tag == 3 {
            if base + 8 > b.len() {
                Err(SqfsError::Corrupt)
            } else {
                let nlink = combine32(b[base], b[base + 1], b[base + 2], b[base + 3]);
                let tlen = combine32(b[base + 4], b[base + 5], b[base + 6], b[base + 7]) as int;
                if base + 8 + tlen > b.len() {
                    Err(SqfsError::Corrupt)
                } else {
                    Ok(
                        (
                            InodeV {
                                header,
                                kind: InodeKindV::Symlink {
                                    nlink,
                                    target: b.subrange(base + 8, base + 8 + tlen),
                                },
                            },
                            24 + tlen,
                        ),
                    )
                }
            }
        } else if tag == 4 || tag == 5 {
            if base + 8 > b.len() {
                Err(SqfsError::Corrupt)
            } else {
                let nlink = combine32(b[base], b[base + 1], b[base + 2], b[base + 3]);
                let device = combine32(b[base + 4], b[base + 5], b[base + 6], b[base + 7]);
                Ok(
                    (
                        InodeV {
                            header,
                            kind: if tag == 4 {
                                InodeKindV::CharDev { nlink, device }
                            } else {
                                InodeKindV::BlockDev { nlink, device }
                            },
                        },
                        24,
                    ),
                )
            }
        } else {
            Err(SqfsError::Corrupt)
        }
    }
}

/// Read `n` size words at `pos`.
fn read_words(b: &Vec<u8>, pos: usize, n: usize) -> (r: Vec<u32>)
    requires
        pos + 4 * n <= b@.len(),
    ensures
        r@ == spec_parse_words(b@, pos as int, n as int),
{
    let mut r: Vec<u32> = Vec::new();
    let mut i: usize = 0;
    let blen = b.len();
    while i < n
        invariant
            i <= n,
            blen == b@.len(),
            pos + 4 * n <= blen,
            r@ == spec_parse_words(b@, pos as int, i as int),
        decreases n - i,
    {
        let w = read_u32_le(b, pos + 4 * i);
        r.push(w);
        i = i + 1;
        proof {
            assert(r@ =~= spec_parse_words(b@, pos as int, i as int));
        }
    }
    r
}

/// Decode one inode record at `pos`, exactly as the parse function of
/// the format says: same success condition, same inode, same error.
pub fn decode_inode(b: &Vec<u8>, pos: usize, block_size: u32) -> (r: Result<
    (Inode, usize),
    SqfsError,
>)
    requires
        block_size > 0,
    ensures
        r is Ok <==> spec_parse_inode(b@, pos as int, block_size) is Ok,
        r is Ok ==> ({
            let (ino, used) = r.unwrap();
            spec_parse_inode(b@, pos as int, block_size) == Ok::<(InodeV, int), SqfsError>(
                (ino@, used as int),
            )
        }),
        r is Err ==> r.unwrap_err() == spec_parse_inode(b@, pos as int, block_size)->Err_0,
{
    let blen = b.len();
    if pos >= blen || blen - pos < 16 {
        return Err(SqfsError::Corrupt);
    }
    let tag = read_u16_le(b, pos);
    let header = InodeHeader {
        permissions: read_u16_le(b, pos + 2),
        uid_idx: read_u16_le(b, pos + 4),
        gid_idx: read_u16_le(b, pos + 6),
        mtime: read_u32_le(b, pos + 8),
        inode_number: read_u32_le(b, pos + 12),
    };
    let base = pos + 16;
    if tag == 1 {
        if blen - base < 16 {
            return Err(SqfsError::Corrupt);
        }
        let kind = InodeKind::Dir {
            start_block: read_u32_le(b, base),
            nlink: read_u32_le(b, base + 4),
            size: read_u16_le(b, base + 8),
            offset: read_u16_le(b, base + 10),
            parent: read_u32_le(b, base + 12),
        };
        Ok((Inode { header, kind }, 32))
    } else if tag == 2 {
        if blen - base < 16 {
            return Err(SqfsError::Corrupt);
        }
        let blocks_start = read_u32_le(b, base);
        let frag_index = read_u32_le(b, base + 4);
        let frag_offset = read_u32_le(b, base + 8);
        let file_size = read_u32_le(b, base + 12);
        let cnt64: u64 = if frag_index == NO_FRAGMENT {
            (file_size as u64 + block_size as u64 - 1) / block_size as u64
        } else {
            file_size as u64 / block_size as u64
        };
        proof {
            assert(cnt64 == spec_block_count(file_size, frag_index, block_size));
        }
        if cnt64 > (blen - base - 16) as u64 / 4 {
            proof {
                assert(base + 16 + 4 * spec_block_count(file_size, frag_index, block_size)
                    > blen);
            }
            return Err(SqfsError::Corrupt);
        }
        let cnt = cnt64 as usize;
        let block_sizes = read_words(b, base + 16, cnt);
        let kind = InodeKind::File { blocks_start, frag_index, frag_offset, file_size, block_sizes };
        Ok((Inode { header, kind }, 32 + 4 * cnt))
    } else if tag == 3 {
        if blen - base < 8 {
            return Err(SqfsError::Corrupt);
        }
        let nlink = read_u32_le(b, base);
        let tlen32 = read_u32_le(b, base + 4);
        if tlen32 as u64 > (blen - base - 8) as u64 {
            return Err(SqfsError::Corrupt);
        }
        let tlen = tlen32 as usize;
        let target = copy_range(b, base + 8, tlen);
        Ok((Inode { header, kind: InodeKind::Symlink { nlink, target } }, 24 + tlen))
    } else if tag == 4 || tag == 5 {
        if blen - base < 8 {
            return Err(SqfsError::Corrupt);
        }
        let nlink = read_u32_le(b, base);
        let device = read_u32_le(b, base + 4);
        let kind = if tag == 4 {
            InodeKind::CharDev { nlink, device }
        } else {
            InodeKind::BlockDev { nlink, device }
        };
        Ok((Inode { header, kind }, 24))
    } else {
        Err(SqfsError::Corrupt)
    }
}


/// Parsing the size words written for `ws` yields `ws` again.
proof fn lemma_words_parse_at(b: Seq<u8>, pos: int, ws: Seq<u32>)
    requires
        0 <= pos,
        pos + 4 * ws.len() <= b.len(),
        b.subrange(pos, pos + 4 * ws.len()) == spec_block_words(ws),
    ensures
        spec_parse_words(b, pos, ws.len() as int) == ws,
    decreases ws.len(),
{
    if ws.len() > 0 {
        let n = ws.len() as int;
        let front = ws.drop_last();
        let w = ws.last();
        assert(spec_block_words(ws) == spec_block_words(front) + u32_le(w));
        assert(spec_block_words(front).len() == 4 * front.len()) by {
            lemma_block_words_len(front);
        }
        assert(b.subrange(pos, pos + 4 * front.len()) =~= spec_block_words(front)) by {
            assert forall|q: int| 0 <= q < 4 * front.len() implies b.subrange(
                pos,
                pos + 4 * front.len(),
            )[q] == spec_block_words(front)[q] by {
                assert(b[pos + q] == b.subrange(pos, pos + 4 * n)[q]);
                assert((spec_block_words(front) + u32_le(w))[q] == spec_block_words(front)[q]);
            }
        }
        lemma_words_parse_at(b, pos, front);
        lemma_u32_le_roundtrip(w);
        assert forall|q: int| 0 <= q < 4 implies b[pos + 4 * (n - 1) + q] == u32_le(w)[q] by {
            assert(b[pos + 4 * (n - 1) + q] == b.subrange(pos, pos + 4 * n)[4 * (n - 1) + q]);
            assert((spec_block_words(front) + u32_le(w))[4 * (n - 1) + q] == u32_le(w)[q]);
        }
        assert(combine32(
            b[pos + 4 * (n - 1)],
            b[pos + 4 * (n - 1) + 1],
            b[pos + 4 * (n - 1) + 2],
            b[pos + 4 * (n - 1) + 3],
        ) == w);
        assert(spec_parse_words(b, pos, n) =~= ws);
    } else {
        assert(spec_parse_words(b, pos, 0) =~= ws);
    }
}

/// The size words of `n` blocks occupy `4 * n` bytes.
proof fn lemma_block_words_len(ws: Seq<u32>)
    ensures
        spec_block_words(ws).len() == 4 * ws.len(),
    decreases ws.len(),
{
    if ws.len() > 0 {
        lemma_block_words_len(ws.drop_last());
    }
}

/// Parsing the record written for a well-formed inode, wherever it is
/// embedded in the stream, yields that inode and its record length:
/// the round trip of the inode record layer.
pub proof fn lemma_inode_parse_at(b: Seq<u8>, pos: int, ino: InodeV, block_size: u32)
    requires
        block_size > 0,
        spec_inode_ok(ino, block_size),
        0 <= pos,
        pos + spec_inode_bytes(ino).len() <= b.len(),
        b.subrange(pos, pos + spec_inode_bytes(ino).len()) == spec_inode_bytes(ino),
    ensures
        spec_parse_inode(b, pos, block_size) == Ok::<(InodeV, int), SqfsError>(
            (ino, spec_inode_bytes(ino).len() as int),
        ),
{
    let rec = spec_inode_bytes(ino);
    let tag = spec_kind_tag(ino.kind);
    let hb = spec_header_bytes(tag, ino.header);
    assert(hb.len() == 16);
    assert(forall|q: int| 0 <= q < rec.len() ==> b[pos + q] == rec[q]) by {
        assert(forall|q: int|
            0 <= q < rec.len() ==> b.subrange(pos, pos + rec.len() as int)[q] == rec[q]);
    }
    assert(forall|q: int| 0 <= q < 16 ==> rec[q] == hb[q]);
    lemma_u16_le_roundtrip(tag);
    lemma_u16_le_roundtrip(ino.header.permissions);
    lemma_u16_le_roundtrip(ino.header.uid_idx);
    lemma_u16_le_roundtrip(ino.header.gid_idx);
    lemma_u32_le_roundtrip(ino.header.mtime);
    lemma_u32_le_roundtrip(ino.header.inode_number);
    assert(b[pos] == rec[0]) by {
        assert(b.subrange(pos, pos + rec.len() as int)[0] == rec[0]);
    }
    assert(hb[0] == u16_le(tag)[0] && hb[1] == u16_le(tag)[1]);
    assert(hb[2] == u16_le(ino.header.permissions)[0] && hb[3] == u16_le(
        ino.header.permissions,
    )[1]);
    assert(hb[4] == u16_le(ino.header.uid_idx)[0] && hb[5] == u16_le(ino.header.uid_idx)[1]);
    assert(hb[6] == u16_le(ino.header.gid_idx)[0] && hb[7] == u16_le(ino.header.gid_idx)[1]);
    assert(hb[8] == u32_le(ino.header.mtime)[0] && hb[9] == u32_le(ino.header.mtime)[1]
        && hb[10] == u32_le(ino.header.mtime)[2] && hb[11] == u32_le(ino.header.mtime)[3]);
    assert(hb[12] == u32_le(ino.header.inode_number)[0] && hb[13] == u32_le(
        ino.header.inode_number,
    )[1] && hb[14] == u32_le(ino.header.inode_number)[2] && hb[15] == u32_le(
        ino.header.inode_number,
    )[3]);
    assert(combine16(b[pos], b[pos + 1]) == tag);
    assert(combine16(b[pos + 2], b[pos + 3]) == ino.header.permissions);
    assert(combine16(b[pos + 4], b[pos + 5]) == ino.header.uid_idx);
    assert(combine16(b[pos + 6], b[pos + 7]) == ino.header.gid_idx);
    assert(combine32(b[pos + 8], b[pos + 9], b[pos + 10], b[pos + 11]) == ino.header.mtime);
    assert(combine32(b[pos + 12], b[pos + 13], b[pos + 14], b[pos + 15])
        == ino.header.inode_number);
    match ino.kind {
        InodeKindV::Dir { start_block, offset, nlink, size, parent } => {
            let body = u32_le(start_block) + u32_le(nlink) + u16_le(size) + u16_le(offset)
                + u32_le(parent);
            assert(forall|q: int| 0 <= q < 16 ==> rec[16 + q] == body[q]);
            assert(body[0] == u32_le(start_block)[0] && body[1] == u32_le(start_block)[1]
                && body[2] == u32_le(start_block)[2] && body[3] == u32_le(start_block)[3]);
            assert(body[4] == u32_le(nlink)[0] && body[5] == u32_le(nlink)[1] && body[6]
                == u32_le(nlink)[2] && body[7] == u32_le(nlink)[3]);
            assert(body[8] == u16_le(size)[0] && body[9] == u16_le(size)[1]);
            assert(body[10] == u16_le(offset)[0] && body[11] == u16_le(offset)[1]);
            assert(body[12] == u32_le(parent)[0] && body[13] == u32_le(parent)[1] && body[14]
                == u32_le(parent)[2] && body[15] == u32_le(parent)[3]);
            lemma_u32_le_roundtrip(start_block);
            lemma_u32_le_roundtrip(nlink);
            lemma_u16_le_roundtrip(size);
            lemma_u16_le_roundtrip(offset);
            lemma_u32_le_roundtrip(parent);
            assert(combine32(b[pos + 16], b[pos + 17], b[pos + 18], b[pos + 19]) == start_block);
            assert(combine32(b[pos + 20], b[pos + 21], b[pos + 22], b[pos + 23]) == nlink);
            assert(combine16(b[pos + 24], b[pos + 25]) == size);
            assert(combine16(b[pos + 26], b[pos + 27]) == offset);
            assert(combine32(b[pos + 28], b[pos + 29], b[pos + 30], b[pos + 31]) == parent);
        },
        InodeKindV::File { blocks_start, frag_index, frag_offset, file_size, block_sizes } => {
            let body = u32_le(blocks_start) + u32_le(frag_index) + u32_le(frag_offset) + u32_le(
                file_size,
            ) + spec_block_words(block_sizes);
            lemma_block_words_len(block_sizes);
            assert(forall|q: int| 0 <= q < body.len() ==> rec[16 + q] == body[q]);
            assert(body[0] == u32_le(blocks_start)[0] && body[1] == u32_le(blocks_start)[1]
                && body[2] == u32_le(blocks_start)[2] && body[3] == u32_le(blocks_start)[3]);
            assert(body[4] == u32_le(frag_index)[0] && body[5] == u32_le(frag_index)[1]
                && body[6] == u32_le(frag_index)[2] && body[7] == u32_le(frag_index)[3]);
            assert(body[8] == u32_le(frag_offset)[0] && body[9] == u32_le(frag_offset)[1]
                && body[10] == u32_le(frag_offset)[2] && body[11] == u32_le(frag_offset)[3]);
            assert(body[12] == u32_le(file_size)[0] && body[13] == u32_le(file_size)[1]
                && body[14] == u32_le(file_size)[2] && body[15] == u32_le(file_size)[3]);
            lemma_u32_le_roundtrip(blocks_start);
            lemma_u32_le_roundtrip(frag_index);
            lemma_u32_le_roundtrip(frag_offset);
            lemma_u32_le_roundtrip(file_size);
            assert(combine32(b[pos + 16], b[pos + 17], b[pos + 18], b[pos + 19]) == blocks_start);
            assert(combine32(b[pos + 20], b[pos + 21], b[pos + 22], b[pos + 23]) == frag_index);
            assert(combine32(b[pos + 24], b[pos + 25], b[pos + 26], b[pos + 27]) == frag_offset);
            assert(combine32(b[pos + 28], b[pos + 29], b[pos + 30], b[pos + 31]) == file_size);
            let cnt = spec_block_count(file_size, frag_index, block_size);
            assert(cnt == block_sizes.len());
            assert(b.subrange(pos + 32, pos + 32 + 4 * cnt) =~= spec_block_words(
                block_sizes,
            )) by {
                assert forall|q: int| 0 <= q < 4 * cnt implies b[pos + 32 + q]
                    == spec_block_words(block_sizes)[q] by {
                    assert(b[pos + (32 + q)] == rec[32 + q]);
                    assert(rec[16 + (16 + q)] == body[16 + q]);
                    assert(body[16 + q] == spec_block_words(block_sizes)[q]);
                }
            }
            lemma_words_parse_at(b, pos + 32, block_sizes);
            assert(spec_parse_words(b, pos + 32, cnt) == block_sizes);
        },
        InodeKindV::Symlink { nlink, target } => {
            let body = u32_le(nlink) + u32_le(target.len() as u32) + target;
            assert(forall|q: int| 0 <= q < body.len() ==> rec[16 + q] == body[q]);
            assert(body[0] == u32_le(nlink)[0] && body[1] == u32_le(nlink)[1] && body[2]
                == u32_le(nlink)[2] && body[3] == u32_le(nlink)[3]);
            assert(body[4] == u32_le(target.len() as u32)[0] && body[5] == u32_le(
                target.len() as u32,
            )[1] && body[6] == u32_le(target.len() as u32)[2] && body[7] == u32_le(
                target.len() as u32,
            )[3]);
            lemma_u32_le_roundtrip(nlink);
            lemma_u32_le_roundtrip(target.len() as u32);
            assert(combine32(b[pos + 16], b[pos + 17], b[pos + 18], b[pos + 19]) == nlink);
            assert(combine32(b[pos + 20], b[pos + 21], b[pos + 22], b[pos + 23])
                == target.len() as u32);
            assert(b.subrange(pos + 24, pos + 24 + target.len() as int) =~= target) by {
                assert forall|q: int| 0 <= q < target.len() implies b[pos + 24 + q] == target[q]
                by {
                    assert(b[pos + (24 + q)] == rec[24 + q]);
                    assert(rec[16 + (8 + q)] == body[8 + q]);
                    assert(body[8 + q] == target[q]);
                }
            }
        },
        InodeKindV::CharDev { nlink, device } => {
            let body = u32_le(nlink) + u32_le(device);
            assert(forall|q: int| 0 <= q < 8 ==> rec[16 + q] == body[q]);
            assert(body[0] == u32_le(nlink)[0] && body[1] == u32_le(nlink)[1] && body[2]
                == u32_le(nlink)[2] && body[3] == u32_le(nlink)[3]);
            assert(body[4] == u32_le(device)[0] && body[5] == u32_le(device)[1] && body[6]
                == u32_le(device)[2] && body[7] == u32_le(device)[3]);
            lemma_u32_le_roundtrip(nlink);
            lemma_u32_le_roundtrip(device);
            assert(combine32(b[pos + 16], b[pos + 17], b[pos + 18], b[pos + 19]) == nlink);
            assert(combine32(b[pos + 20], b[pos + 21], b[pos + 22], b[pos + 23]) == device);
        },
        InodeKindV::BlockDev { nlink, device } => {
            let body = u32_le(nlink) + u32_le(device);
            assert(forall|q: int| 0 <= q < 8 ==> rec[16 + q] == body[q]);
            assert(body[0] == u32_le(nlink)[0] && body[1] == u32_le(nlink)[1] && body[2]
                == u32_le(nlink)[2] && body[3] == u32_le(nlink)[3]);
            assert(body[4] == u32_le(device)[0] && body[5] == u32_le(device)[1] && body[6]
                == u32_le(device)[2] && body[7] == u32_le(device)[3]);
            lemma_u32_le_roundtrip(nlink);
            lemma_u32_le_roundtrip(device);
            assert(combine32(b[pos + 16], b[pos + 17], b[pos + 18], b[pos + 19]) == nlink);
            assert(combine32(b[pos + 20], b[pos + 21], b[pos + 22], b[pos + 23]) == device);
        },
    }
}

} // verus!

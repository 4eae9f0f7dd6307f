//! The directory table codec: per-directory runs of entry records,
//! addressed from directory inodes by `(start_block, offset, size)`.
//! Each entry names a child and references its inode record.
use vstd::prelude::*;

use crate::bytes::{combine16, combine32, copy_range, extend_bytes, push_u16_le, push_u32_le,
    read_u16_le, read_u32_le, u16_le, u32_le};
use crate::error::SqfsError;

verus! {

/// One directory entry: the child's inode number, the metadata
/// reference of its inode record, its type tag, and its name.
#[derive(Clone, Debug)]
pub struct DirEntry {
    pub inode_number: u32,
    pub inode_block: u32,
    pub inode_offset: u16,
    pub type_tag: u16,
    pub name: Vec<u8>,
}

/// The mathematical value of a directory entry.
pub struct DirEntryV {
    pub inode_number: u32,
    pub inode_block: u32,
    pub inode_offset: u16,
    pub type_tag: u16,
    pub name: Seq<u8>,
}

impl View for DirEntry {
    type V = DirEntryV;

    open spec fn view(&self) -> DirEntryV {
        DirEntryV {
            inode_number: self.inode_number,
            inode_block: self.inode_block,
            inode_offset: self.inode_offset,
            type_tag: self.type_tag,
            name: self.name@,
        }
    }
}

/// The on-disk record of one entry.
pub open spec fn spec_dirent_bytes(e: DirEntryV) -> Seq<u8> {
    u32_le(e.inode_number) + u32_le(e.inode_block) + u16_le(e.inode_offset) + u16_le(e.type_tag)
        + u16_le(e.name.len() as u16) + e.name
}

/// The on-disk run of a directory's entries, in order.
pub open spec fn spec_dir_run(es: Seq<DirEntryV>) -> Seq<u8>
    decreases es.len(),
{
    if es.len() == 0 {
        Seq::empty()
    } else {
        spec_dir_run(es.drop_last()) + spec_dirent_bytes(es.last())
    }
}

/// Parse directory entries from `pos` until exactly `size` bytes are
/// consumed; a record straddling the declared size, or running past the
/// stream, is `Corrupt`.
pub open spec fn spec_parse_dir_run(b: Seq<u8>, pos: int, size: int) -> Result<
    Seq<DirEntryV>,
    SqfsError,
>
    decreases size,
{
    if size == 0 {
        Ok(Seq::empty())
    } else if size < 14 || pos < 0 || pos + 14 > b.len() {
        Err(SqfsError::Corrupt)
    } else {
        let nlen = combine16(b[pos + 12], b[pos + 13]) as int;
        if 14 + nlen > size || pos + 14 + nlen > b.len() {
            Err(SqfsError::Corrupt)
        } else {
            let e = DirEntryV {
                inode_number: combine32(b[pos], b[pos + 1], b[pos + 2], b[pos + 3]),
                inode_block: combine32(b[pos + 4], b[pos + 5], b[pos + 6], b[pos + 7]),
                inode_offset: combine16(b[pos + 8], b[pos + 9]),
                type_tag: combine16(b[pos + 10], b[pos + 11]),
                name: b.subrange(pos + 14, pos + 14 + nlen),
            };
            match spec_parse_dir_run(b, pos + 14 + nlen, size - 14 - nlen) {
                Ok(rest) => Ok(seq![e] + rest),
                Err(err) => Err(err),
            }
        }
    }
}

/// Append one entry's record.
pub fn encode_dirent(out: &mut Vec<u8>, e: &DirEntry)
    requires
        e.name@.len() <= u16::MAX,
    ensures
        final(out)@ == old(out)@ + spec_dirent_bytes(e@),
{
    push_u32_le(out, e.inode_number);
    push_u32_le(out, e.inode_block);
    push_u16_le(out, e.inode_offset);
    push_u16_le(out, e.type_tag);
    push_u16_le(out, e.name.len() as u16);
    extend_bytes(out, &e.name);
    proof {
        assert(out@ =~= old(out)@ + spec_dirent_bytes(e@));
    }
}

/// Serialize a directory's entry run, in entry order: the bytes are a
/// function of the entries alone.
pub fn encode_dir_run(es: &Vec<DirEntry>) -> (r: Vec<u8>)
    requires
        forall|i: int| 0 <= i < es@.len() ==> (#[trigger] es@[i]).name@.len() <= u16::MAX,
    ensures
        r@ == spec_dir_run(es@.map_values(|e: DirEntry| e@)),
{
    let mut out: Vec<u8> = Vec::new();
    let n = es.len();
    let mut i: usize = 0;
    while i < n
        invariant
            i <= n,
            n == es@.len(),
            forall|j: int| 0 <= j < n ==> (#[trigger] es@[j]).name@.len() <= u16::MAX,
            out@ == spec_dir_run(es@.subrange(0, i as int).map_values(|e: DirEntry| e@)),
        decreases n - i,
    {
        encode_dirent(&mut out, &es[i]);
        i = i + 1;
        proof {
            let cur = es@.subrange(0, i as int).map_values(|e: DirEntry| e@);
            assert(cur.drop_last() =~= es@.subrange(0, i - 1).map_values(|e: DirEntry| e@));
            assert(cur.last() == es@[i - 1]@);
            assert(out@ == spec_dir_run(cur));
        }
    }
    proof {
        assert(es@.subrange(0, n as int) =~= es@);
    }
    out
}

/// Decode a directory's entry run, exactly as the parse function of
/// the format says: same success condition, same entries, same error.
pub fn decode_dir_run(b: &Vec<u8>, pos: usize, size: usize) -> (r: Result<Vec<DirEntry>, SqfsError>)
    ensures
        r is Ok <==> spec_parse_dir_run(b@, pos as int, size as int) is Ok,
        r is Ok ==> Some(r.unwrap()@.map_values(|e: DirEntry| e@)) == spec_parse_dir_run(
            b@,
            pos as int,
            size as int,
        ).ok(),
        r is Err ==> r.unwrap_err() == SqfsError::Corrupt,
{
    let mut out: Vec<DirEntry> = Vec::new();
    let mut p = pos;
    let mut left = size;
    let blen = b.len();
    while left > 0
        invariant
            blen == b@.len(),
            ({
                let tail = spec_parse_dir_run(b@, p as int, left as int);
                let whole = spec_parse_dir_run(b@, pos as int, size as int);
                &&& (tail is Ok ==> whole is Ok && whole.unwrap() == out@.map_values(
                    |e: DirEntry| e@,
                ) + tail.unwrap())
                &&& (tail is Err ==> whole is Err && whole->Err_0 == tail->Err_0)
            }),
        decreases left,
    {
        if left < 14 || p >= blen || blen - p < 14 {
            return Err(SqfsError::Corrupt);
        }
        let nlen = read_u16_le(b, p + 12) as usize;
        if 14 + nlen > left || blen - p - 14 < nlen {
            return Err(SqfsError::Corrupt);
        }
        let e = DirEntry {
            inode_number: read_u32_le(b, p),
            inode_block: read_u32_le(b, p + 4),
            inode_offset: read_u16_le(b, p + 8),
            type_tag: read_u16_le(b, p + 10),
            name: copy_range(b, p + 14, nlen),
        };
        let ghost pre = out@;
        out.push(e);
        p = p + 14 + nlen;
        left = left - 14 - nlen;
        proof {
            assert(out@.map_values(|e: DirEntry| e@) =~= pre.map_values(|e: DirEntry| e@)
                + seq![out@.last()@]);
            let tail = spec_parse_dir_run(b@, p as int, left as int);
            if tail is Ok {
                assert(pre.map_values(|e: DirEntry| e@) + (seq![out@.last()@] + tail.unwrap())
                    =~= out@.map_values(|e: DirEntry| e@) + tail.unwrap());
            }
        }
    }
    proof {
        assert(spec_parse_dir_run(b@, p as int, 0) == Ok::<Seq<DirEntryV>, SqfsError>(
            Seq::empty(),
        ));
        assert(out@.map_values(|e: DirEntry| e@) + Seq::<DirEntryV>::empty() =~= out@.map_values(
            |e: DirEntry| e@,
        ));
    }
    Ok(out)
}

} // verus!

//! The fragment (tail-packing) layer: descriptors for shared fragment
//! blocks, their flat on-disk table, and the writer-side packer that
//! bins file tails into shared blocks in processing order.
use vstd::prelude::*;

use crate::bytes::{combine32, combine64, extend_bytes, lemma_u64_le_roundtrip,
    lemma_u32_le_roundtrip, push_u32_le, push_u64_le, read_u32_le, read_u64_le, u32_le, u64_le};
use crate::error::SqfsError;

verus! {

/// One fragment-block descriptor: where the block's stored form starts,
/// how many bytes it occupies on disk, and whether it is stored raw.
#[derive(Clone, Copy, Debug, PartialEq, Eq, Structural)]
pub struct Fragment {
    pub start: u64,
    pub size: u32,
    pub raw: bool,
}

/// The 16-byte on-disk record of one descriptor.
pub open spec fn spec_frag_record(f: Fragment) -> Seq<u8> {
    u64_le(f.start) + u32_le(f.size) + u32_le(
        if f.raw {
            1u32
        } else {
            0u32
        },
    )
}

/// The on-disk fragment table: records in index order.
pub open spec fn spec_frag_table(fs: Seq<Fragment>) -> Seq<u8>
    decreases fs.len(),
{
    if fs.len() == 0 {
        Seq::empty()
    } else {
        spec_frag_table(fs.drop_last()) + spec_frag_record(fs.last())
    }
}

/// The table of `n` descriptors parsed from `b`, or nothing when `b` is
/// not exactly `n` records long.
pub open spec fn spec_parse_frag_table(b: Seq<u8>, n: int) -> Option<Seq<Fragment>>
    decreases n,
{
    if n < 0 {
        None
    } else if n == 0 {
        if b.len() == 0 {
            Some(Seq::empty())
        } else {
            None
        }
    } else {
        if b.len() < 16 {
            None
        } else {
            match spec_parse_frag_table(b.subrange(0, b.len() - 16), n - 1) {
                Some(front) => Some(
                    front.push(
                        Fragment {
                            start: combine64(b.subrange(b.len() - 16, b.len() - 8)),
                            size: combine32(
                                b[b.len() - 8],
                                b[b.len() - 7],
                                b[b.len() - 6],
                                b[b.len() - 5],
                            ),
                            raw: combine32(
                                b[b.len() - 4],
                                b[b.len() - 3],
                                b[b.len() - 2],
                                b[b.len() - 1],
                            ) != 0,
                        },
                    ),
                ),
                None => None,
            }
        }
    }
}

/// Append one descriptor's record.
pub fn encode_fragment(out: &mut Vec<u8>, f: &Fragment)
    ensures
        final(out)@ == old(out)@ + spec_frag_record(*f),
{
    push_u64_le(out, f.start);
    push_u32_le(out, f.size);
    push_u32_le(out, if f.raw { 1 } else { 0 });
    proof {
        assert(out@ =~= old(out)@ + spec_frag_record(*f));
    }
}

/// Serialize the whole descriptor table, in index order; the bytes are
/// a function of the descriptors alone, and parsing them back yields
/// exactly the table.
pub fn encode_fragment_table(fs: &Vec<Fragment>) -> (r: Vec<u8>)
    ensures
        r@ == spec_frag_table(fs@),
        spec_parse_frag_table(r@, fs@.len() as int) == Some(fs@),
{
    let mut out: Vec<u8> = Vec::new();
    let n = fs.len();
    let mut i: usize = 0;
    while i < n
        invariant
            i <= n,
            n == fs@.len(),
            out@ == spec_frag_table(fs@.subrange(0, i as int)),
            spec_parse_frag_table(out@, i as int) == Some(fs@.subrange(0, i as int)),
            out@.len() == 16 * i,
        decreases n - i,
    {
        let ghost pre = out@;
        let ghost prefix = fs@.subrange(0, i as int);
        encode_fragment(&mut out, &fs[i]);
        i = i + 1;
        proof {
            let cur = fs@.subrange(0, i as int);
            assert(cur.drop_last() =~= prefix);
            assert(cur.last() == fs@[i - 1]);
            assert(out@ == spec_frag_table(cur));
            let f = fs@[i - 1];
            let b = out@;
            assert(b.len() == 16 * i);
            assert(b.subrange(0, b.len() - 16) =~= pre);
            lemma_u64_le_roundtrip(f.start);
            lemma_u32_le_roundtrip(f.size);
            lemma_u32_le_roundtrip(if f.raw { 1u32 } else { 0u32 });
            let rec = spec_frag_record(f);
            assert(forall|q: int| 0 <= q < 16 ==> b[b.len() - 16 + q] == rec[q]);
            assert(b.subrange(b.len() - 16, b.len() - 8) =~= u64_le(f.start));
            assert(combine64(b.subrange(b.len() - 16, b.len() - 8)) == f.start);
            assert(combine32(b[b.len() - 8], b[b.len() - 7], b[b.len() - 6], b[b.len() - 5])
                == f.size);
            assert(combine32(b[b.len() - 4], b[b.len() - 3], b[b.len() - 2], b[b.len() - 1])
                == if f.raw { 1u32 } else { 0u32 });
            assert(spec_parse_frag_table(b, i as int) == Some(cur));
        }
    }
    proof {
        assert(fs@.subrange(0, n as int) =~= fs@);
    }
    out
}

/// Decode a descriptor table of `n` records, exactly as the parse
/// function of the format says; anything else is `Corrupt`.
#[verifier::rlimit(60)]
pub fn decode_fragment_table(b: &Vec<u8>, n: usize) -> (r: Result<Vec<Fragment>, SqfsError>)
    ensures
        r is Ok <==> spec_parse_frag_table(b@, n as int) is Some,
        r is Ok ==> Some(r.unwrap()@) == spec_parse_frag_table(b@, n as int),
        r is Err ==> r.unwrap_err() == SqfsError::Corrupt,
{
    let blen = b.len();
    if blen % 16 != 0 || blen / 16 != n {
        proof {
            if spec_parse_frag_table(b@, n as int) is Some {
                lemma_parse_frag_table_len(b@, n as int);
            }
        }
        return Err(SqfsError::Corrupt);
    }
    proof {
        assert(b@.len() == n * 16);
    }
    let mut out: Vec<Fragment> = Vec::new();
    let mut i: usize = 0;
    while i < n
        invariant
            i <= n,
            blen == b@.len(),
            b@.len() == n * 16,
            spec_parse_frag_table(b@.subrange(0, 16 * i as int), i as int) == Some(out@),
            out@.len() == i,
        decreases n - i,
    {
        proof {
            assert(16 * (i as int) + 16 <= b@.len());
        }
        let base = i * 16;
        let start = read_u64_le(b, base);
        let size = read_u32_le(b, base + 8);
        let flag = read_u32_le(b, base + 12);
        let f = Fragment { start, size, raw: flag != 0 };
        let ghost pre = out@;
        out.push(f);
        i = i + 1;
        proof {
            let cur = b@.subrange(0, 16 * i as int);
            assert(cur.len() == 16 * i);
            assert(cur.subrange(0, cur.len() - 16) =~= b@.subrange(0, 16 * (i - 1)));
            assert(cur.subrange(cur.len() - 16, cur.len() - 8) =~= b@.subrange(
                16 * (i - 1),
                16 * (i - 1) + 8,
            ));
            assert(cur[cur.len() - 8] == b@[16 * (i - 1) + 8]);
            assert(cur[cur.len() - 7] == b@[16 * (i - 1) + 9]);
            assert(cur[cur.len() - 6] == b@[16 * (i - 1) + 10]);
            assert(cur[cur.len() - 5] == b@[16 * (i - 1) + 11]);
            assert(cur[cur.len() - 4] == b@[16 * (i - 1) + 12]);
            assert(cur[cur.len() - 3] == b@[16 * (i - 1) + 13]);
            assert(cur[cur.len() - 2] == b@[16 * (i - 1) + 14]);
            assert(cur[cur.len() - 1] == b@[16 * (i - 1) + 15]);
            assert(out@ == pre.push(f));
            assert(spec_parse_frag_table(cur, i as int) == Some(out@));
        }
    }
    proof {
        assert(b@.subrange(0, 16 * n as int) =~= b@);
    }
    Ok(out)
}

/// A parseable table of `n` records is exactly `16 * n` bytes.
proof fn lemma_parse_frag_table_len(b: Seq<u8>, n: int)
    requires
        spec_parse_frag_table(b, n) is Some,
    ensures
        b.len() == 16 * n,
    decreases n,
{
    if n > 0 {
        lemma_parse_frag_table_len(b.subrange(0, b.len() - 16), n - 1);
    }
}


/// The writer-side tail packer: file tails shorter than the filesystem
/// block size accumulate in a shared fragment block; a tail that does
/// not fit the open block flushes it and starts a fresh one. Packing
/// follows processing order, trading optimal packing for determinism
/// and single-pass construction.
pub struct FragmentPacker {
    block_size: usize,
    current: Vec<u8>,
    done: Vec<Vec<u8>>,
}

impl FragmentPacker {
    /// The filesystem block size tails are packed against.
    pub closed spec fn spec_block_size(self) -> int {
        self.block_size as int
    }

    /// The decompressed contents of the flushed fragment blocks.
    pub closed spec fn done_view(self) -> Seq<Seq<u8>> {
        self.done@.map_values(|v: Vec<u8>| v@)
    }

    /// The contents of the still-open fragment block.
    pub closed spec fn current_view(self) -> Seq<u8> {
        self.current@
    }

    /// The decompressed contents of fragment block `i`, the open block
    /// counting as the last one.
    pub open spec fn block_at(self, i: int) -> Seq<u8> {
        if 0 <= i < self.done_view().len() {
            self.done_view()[i]
        } else {
            self.current_view()
        }
    }

    /// Every block, flushed or open, stays within the block size.
    pub closed spec fn wf(self) -> bool {
        &&& 0 < self.block_size
        &&& self.current@.len() <= self.block_size
        &&& forall|i: int|
            0 <= i < self.done@.len() ==> 0 < (#[trigger] self.done@[i])@.len()
                <= self.block_size
    }

    /// An empty packer for the given block size.
    pub fn new(block_size: usize) -> (r: FragmentPacker)
        requires
            block_size > 0,
        ensures
            r.wf(),
            r.spec_block_size() == block_size,
            r.done_view() == Seq::<Seq<u8>>::empty(),
            r.current_view() == Seq::<u8>::empty(),
    {
        let r = FragmentPacker { block_size, current: Vec::new(), done: Vec::new() };
        proof {
            assert(r.done_view() =~= Seq::<Seq<u8>>::empty());
        }
        r
    }

    /// Pack one file tail: it lands whole inside one fragment block, at
    /// the returned `(fragment index, offset)`, and the claimed slice
    /// always lies inside that block's decompressed extent. Blocks
    /// already flushed never change, and every block only ever grows,
    /// so slices handed out earlier stay valid.
    pub fn add_tail(&mut self, tail: &Vec<u8>) -> (r: (usize, usize))
        requires
            old(self).wf(),
            0 < tail@.len() < old(self).spec_block_size(),
        ensures
            final(self).wf(),
            final(self).spec_block_size() == old(self).spec_block_size(),
            r.0 == final(self).done_view().len(),
            r.1 + tail@.len() <= final(self).block_at(r.0 as int).len(),
            final(self).block_at(r.0 as int).subrange(
                r.1 as int,
                r.1 + tail@.len(),
            ) == tail@,
            forall|i: int|
                0 <= i <= old(self).done_view().len() ==> old(self).block_at(
                    i,
                ).is_prefix_of(final(self).block_at(i)),
            final(self).done_view().len() == old(self).done_view().len() || (final(self).done_view().len() == old(self).done_view().len() + 1 && final(self).done_view().last()
                == old(self).current_view()),
    {
        let tlen = tail.len();
        if tlen > self.block_size - self.current.len() {
            let mut fresh: Vec<u8> = Vec::new();
            core::mem::swap(&mut self.current, &mut fresh);
            self.done.push(fresh);
            proof {
                assert(self.done_view() =~= old(self).done_view().push(
                    old(self).current_view(),
                ));
            }
        }
        let ghost mid = *self;
        let offset = self.current.len();
        extend_bytes(&mut self.current, tail);
        proof {
            assert(self.done_view() == mid.done_view());
            assert(self.current_view() == mid.current_view() + tail@);
            assert(self.current_view().subrange(offset as int, offset + tail@.len() as int)
                =~= tail@);
            assert forall|i: int|
                0 <= i <= old(self).done_view().len() implies old(self).block_at(
                i,
            ).is_prefix_of(final(self).block_at(i)) by {
                if i < old(self).done_view().len() {
                    assert(final(self).block_at(i) == old(self).block_at(i));
                    assert(old(self).block_at(i).is_prefix_of(old(self).block_at(i)));
                } else {
                    assert(old(self).block_at(i) == old(self).current_view());
                    if mid.done_view().len() == old(self).done_view().len() {
                        assert(final(self).block_at(i) == old(self).current_view() + tail@);
                        assert(old(self).current_view().is_prefix_of(
                            old(self).current_view() + tail@,
                        ));
                    } else {
                        assert(final(self).block_at(i) == old(self).current_view());
                        assert(old(self).current_view().is_prefix_of(old(self).current_view()));
                    }
                }
            }
        }
        (self.done.len(), offset)
    }

    /// Close the packer: the decompressed contents of every fragment
    /// block, in index order; each is non-empty and within the block
    /// size, and each equals what `block_at` said while packing.
    pub fn finish(self) -> (r: Vec<Vec<u8>>)
        requires
            self.wf(),
        ensures
            forall|i: int|
                0 <= i < r@.len() ==> (#[trigger] r@[i])@ == self.block_at(i),
            r@.len() == self.done_view().len() + (if self.current_view().len() > 0 {
                1int
            } else {
                0int
            }),
            forall|i: int|
                0 <= i < r@.len() ==> 0 < (#[trigger] r@[i])@.len() <= self.spec_block_size(),
    {
        let mut w = self;
        if w.current.len() > 0 {
            let mut fresh: Vec<u8> = Vec::new();
            core::mem::swap(&mut w.current, &mut fresh);
            w.done.push(fresh);
        }
        w.done
    }
}

} // verus!

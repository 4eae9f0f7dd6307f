//! The metadata block codec: chunked compressed streams with
//! block-addressed random access. Every table (inode, directory,
//! fragment, id) is stored as a run of these blocks, each holding at
//! most `META_BLOCK_CAP` decompressed bytes behind a 2-byte header
//! whose high bit marks an uncompressed payload.
use vstd::prelude::*;

use crate::META_BLOCK_CAP;
use crate::bytes::{combine16, copy_range, extend_bytes, lemma_u16_le_roundtrip, push_u16_le,
    read_u16_le, u16_le};
use crate::compress::{Codec, compress_block, decompress_block, spec_block_decode,
    spec_block_payload, spec_block_raw, spec_codec_supported};
use crate::error::SqfsError;

verus! {

/// The 2-byte header of a stored metadata block: the on-disk payload
/// size, with the high bit set when the payload is stored uncompressed.
pub open spec fn spec_meta_header(len: u16, raw: bool) -> u16
    recommends
        len <= 0x7fff,
{
    if raw {
        len | 0x8000
    } else {
        len
    }
}

/// The on-disk record of one metadata block holding the logical bytes
/// `d`: header followed by the compress-or-store payload.
pub open spec fn spec_meta_record(c: Codec, d: Seq<u8>) -> Seq<u8> {
    u16_le(spec_meta_header(spec_block_payload(c, d).len() as u16, spec_block_raw(c, d)))
        + spec_block_payload(c, d)
}

/// Parse one metadata block at byte offset `pos` of `img`: the
/// decompressed bytes and the on-disk record length, or the exact error.
/// A truncated record or an oversized block is `Corrupt`; a compressed
/// payload under a codec that is not compiled in is `Unsupported`.
pub open spec fn spec_parse_meta_block(c: Codec, img: Seq<u8>, pos: int) -> Result<
    (Seq<u8>, int),
    SqfsError,
> {
    if pos < 0 || pos + 2 > img.len() {
        Err(SqfsError::Corrupt)
    } else {
        let h = combine16(img[pos], img[pos + 1]);
        let raw = (h & 0x8000) != 0;
        let sz = (h & 0x7fff) as int;
        if pos + 2 + sz > img.len() {
            Err(SqfsError::Corrupt)
        } else {
            let payload = img.subrange(pos + 2, pos + 2 + sz);
            if raw {
                if sz <= META_BLOCK_CAP {
                    Ok((payload, 2 + sz))
                } else {
                    Err(SqfsError::Corrupt)
                }
            } else if c != Codec::Gzip {
                Err(SqfsError::Unsupported)
            } else {
                match crate::compress::inflate_of(payload) {
                    Some(d) => if d.len() <= META_BLOCK_CAP {
                        Ok((d, 2 + sz))
                    } else {
                        Err(SqfsError::Corrupt)
                    },
                    None => Err(SqfsError::Corrupt),
                }
            }
        }
    }
}

/// A successful parse consumes at least the header and stays in bounds.
pub proof fn lemma_parse_meta_block_len(c: Codec, img: Seq<u8>, pos: int)
    requires
        spec_parse_meta_block(c, img, pos) is Ok,
    ensures
        2 <= spec_parse_meta_block(c, img, pos).unwrap().1,
        pos >= 0,
        pos + spec_parse_meta_block(c, img, pos).unwrap().1 <= img.len(),
{
}

/// Decode one metadata block at `pos`, exactly as the parse function of
/// the format says: same success condition, same bytes, same error.
pub fn decode_meta_block(img: &Vec<u8>, pos: usize, codec: Codec) -> (r: Result<
    (Vec<u8>, usize),
    SqfsError,
>)
    ensures
        r is Ok <==> spec_parse_meta_block(codec, img@, pos as int) is Ok,
        r is Ok ==> ({
            let (d, used) = r.unwrap();
            spec_parse_meta_block(codec, img@, pos as int) == Ok::<(Seq<u8>, int), SqfsError>(
                (d@, used as int),
            )
        }),
        r is Err ==> r.unwrap_err() == spec_parse_meta_block(codec, img@, pos as int)->Err_0,
{
    let n = img.len();
    if pos >= n || n - pos < 2 {
        return Err(SqfsError::Corrupt);
    }
    let h = read_u16_le(img, pos);
    let raw = (h & 0x8000) != 0;
    let sz16 = h & 0x7fff;
    assert(sz16 <= 0x7fff) by (bit_vector)
        requires sz16 == h & 0x7fff;
    let sz = sz16 as usize;
    if n - (pos + 2) < sz {
        return Err(SqfsError::Corrupt);
    }
    let payload = copy_range(img, pos + 2, sz);
    if raw {
        if sz <= META_BLOCK_CAP {
            Ok((payload, 2 + sz))
        } else {
            Err(SqfsError::Corrupt)
        }
    } else {
        match decompress_block(&payload, false, codec, META_BLOCK_CAP) {
            Ok(d) => Ok((d, 2 + sz)),
            Err(e) => Err(e),
        }
    }
}

/// Encode the logical bytes of one metadata block as its on-disk record.
/// The record is a function of the bytes and codec alone, and parsing it
/// back yields exactly the input.
pub fn encode_meta_block(data: &Vec<u8>, codec: Codec) -> (r: Vec<u8>)
    requires
        data@.len() <= META_BLOCK_CAP,
        spec_codec_supported(codec),
    ensures
        r@ == spec_meta_record(codec, data@),
        spec_parse_meta_block(codec, r@, 0) == Ok::<(Seq<u8>, int), SqfsError>(
            (data@, r@.len() as int),
        ),
        spec_block_decode(codec, spec_block_payload(codec, data@), spec_block_raw(codec, data@))
            == Some(data@),
        codec != Codec::Gzip ==> spec_block_raw(codec, data@),
        spec_block_payload(codec, data@).len() <= data@.len(),
{
    let packed = match compress_block(data, codec) {
        Ok(p) => p,
        Err(_) => {
            proof {
                assert(false);
            }
            (Vec::new(), true)
        },
    };
    let (payload, raw) = packed;
    let len16 = payload.len() as u16;
    let header: u16 = if raw {
        len16 | 0x8000
    } else {
        len16
    };
    let mut out: Vec<u8> = Vec::new();
    push_u16_le(&mut out, header);
    extend_bytes(&mut out, &payload);
    proof {
        let p = payload@;
        let rawg = raw;
        let h = header;
        assert(out@ =~= u16_le(h) + p);
        assert(out@ == spec_meta_record(codec, data@));
        lemma_u16_le_roundtrip(h);
        assert(out@[0] == u16_le(h)[0] && out@[1] == u16_le(h)[1]);
        assert(combine16(out@[0], out@[1]) == h);
        let len16g = len16;
        assert(len16g <= 0x7fff);
        if rawg {
            assert(((len16g | 0x8000) & 0x8000) != 0 && ((len16g | 0x8000) & 0x7fff) == len16g)
                by (bit_vector)
                requires len16g <= 0x7fff;
        } else {
            assert((len16g & 0x8000) == 0 && (len16g & 0x7fff) == len16g) by (bit_vector)
                requires len16g <= 0x7fff;
        }
        assert(out@.subrange(2, 2 + p.len() as int) =~= p);
    }
    out
}

/// Parsing an on-disk record embedded at `pos` of a longer stream yields
/// its logical bytes: the parse never looks past the record. The caller
/// supplies the codec's decode fact for the record's payload, which it
/// holds from the call that compressed it.
pub proof fn lemma_meta_parse_prefix(c: Codec, img: Seq<u8>, pos: int, d: Seq<u8>)
    requires
        d.len() <= META_BLOCK_CAP,
        spec_block_payload(c, d).len() <= 0x7fff,
        spec_block_decode(c, spec_block_payload(c, d), spec_block_raw(c, d)) == Some(d),
        c != Codec::Gzip ==> spec_block_raw(c, d),
        0 <= pos,
        pos + spec_meta_record(c, d).len() <= img.len(),
        img.subrange(pos, pos + spec_meta_record(c, d).len()) == spec_meta_record(c, d),
    ensures
        spec_parse_meta_block(c, img, pos) == Ok::<(Seq<u8>, int), SqfsError>(
            (d, spec_meta_record(c, d).len() as int),
        ),
{
    let p = spec_block_payload(c, d);
    let rawg = spec_block_raw(c, d);
    let len16 = p.len() as u16;
    let h = spec_meta_header(len16, rawg);
    let rec = spec_meta_record(c, d);
    assert(rec.len() == 2 + p.len());
    assert(img[pos] == rec[0] && img[pos + 1] == rec[1]);
    lemma_u16_le_roundtrip(h);
    assert(combine16(img[pos], img[pos + 1]) == h);
    assert(len16 <= 0x7fff);
    if rawg {
        assert(((len16 | 0x8000) & 0x8000) != 0 && ((len16 | 0x8000) & 0x7fff) == len16)
            by (bit_vector)
            requires len16 <= 0x7fff;
    } else {
        assert((len16 & 0x8000) == 0 && (len16 & 0x7fff) == len16) by (bit_vector)
            requires len16 <= 0x7fff;
    }
    let sz = (h & 0x7fff) as int;
    assert(sz == p.len());
    assert(img.subrange(pos + 2, pos + 2 + sz) =~= p) by {
        assert forall|i: int| 0 <= i < sz implies img.subrange(pos + 2, pos + 2 + sz)[i] == p[i]
        by {
            assert(img[pos + 2 + i] == rec[2 + i]);
        }
    }
    if rawg {
        assert(p == d);
        assert(sz <= META_BLOCK_CAP);
    } else {
        assert(c == Codec::Gzip);
        assert(crate::compress::inflate_of(p) == Some(d));
    }
}

/// A block the writer has emitted: non-empty, within capacity, and its
/// stored payload decodes back to it under this codec.
pub open spec fn spec_block_ok(c: Codec, b: Seq<u8>) -> bool {
    &&& 0 < b.len() <= META_BLOCK_CAP
    &&& spec_block_payload(c, b).len() <= 0x7fff
    &&& spec_block_decode(c, spec_block_payload(c, b), spec_block_raw(c, b)) == Some(b)
    &&& (c != Codec::Gzip ==> spec_block_raw(c, b))
}

/// The on-disk bytes of a run of metadata blocks, first block first.
pub open spec fn spec_records(c: Codec, blocks: Seq<Seq<u8>>) -> Seq<u8>
    decreases blocks.len(),
{
    if blocks.len() == 0 {
        Seq::empty()
    } else {
        spec_meta_record(c, blocks.first()) + spec_records(c, blocks.drop_first())
    }
}

/// The logical bytes a run of blocks carries, in order.
pub open spec fn spec_flat(blocks: Seq<Seq<u8>>) -> Seq<u8>
    decreases blocks.len(),
{
    if blocks.len() == 0 {
        Seq::empty()
    } else {
        blocks.first() + spec_flat(blocks.drop_first())
    }
}

/// Appending one more block appends its record.
pub proof fn lemma_records_push(c: Codec, blocks: Seq<Seq<u8>>, b: Seq<u8>)
    ensures
        spec_records(c, blocks.push(b)) == spec_records(c, blocks) + spec_meta_record(c, b),
        spec_flat(blocks.push(b)) == spec_flat(blocks) + b,
    decreases blocks.len(),
{
    reveal_with_fuel(spec_records, 2);
    reveal_with_fuel(spec_flat, 2);
    if blocks.len() == 0 {
        assert(blocks.push(b).drop_first() =~= Seq::<Seq<u8>>::empty());
        assert(spec_records(c, blocks.push(b)) =~= spec_records(c, blocks) + spec_meta_record(
            c,
            b,
        ));
        assert(spec_flat(blocks.push(b)) =~= spec_flat(blocks) + b);
    } else {
        let bp = blocks.push(b);
        assert(bp.drop_first() =~= blocks.drop_first().push(b));
        assert(bp.first() == blocks.first());
        lemma_records_push(c, blocks.drop_first(), b);
        assert(bp.len() != 0);
        assert(spec_records(c, bp) == spec_meta_record(c, bp.first()) + spec_records(
            c,
            bp.drop_first(),
        ));
        assert(spec_records(c, blocks) == spec_meta_record(c, blocks.first()) + spec_records(
            c,
            blocks.drop_first(),
        ));
        assert(spec_records(c, bp) =~= spec_records(c, blocks) + spec_meta_record(c, b));
        assert(spec_flat(bp) == bp.first() + spec_flat(bp.drop_first()));
        assert(spec_flat(blocks) == blocks.first() + spec_flat(blocks.drop_first()));
        assert(spec_flat(bp) =~= spec_flat(blocks) + b);
    }
}

/// Parse a whole run of metadata blocks from `pos` to the end of `img`,
/// concatenating their logical bytes.
pub open spec fn spec_decode_stream(c: Codec, img: Seq<u8>, pos: int) -> Result<Seq<u8>, SqfsError>
    decreases img.len() - pos
    when 0 <= pos <= img.len()
{
    if pos == img.len() {
        Ok(Seq::empty())
    } else {
        match spec_parse_meta_block(c, img, pos) {
            Ok((d, used)) => match spec_decode_stream(c, img, pos + used) {
                Ok(rest) => Ok(d + rest),
                Err(e) => Err(e),
            },
            Err(e) => Err(e),
        }
    }
}

/// Decoding the records of well-formed blocks gives back exactly the
/// bytes the blocks carry: the round trip of the metadata stream layer.
pub proof fn lemma_records_decode(c: Codec, blocks: Seq<Seq<u8>>, img: Seq<u8>, pos: int)
    requires
        forall|i: int| 0 <= i < blocks.len() ==> spec_block_ok(c, blocks[i]),
        0 <= pos <= img.len(),
        img.subrange(pos, img.len() as int) == spec_records(c, blocks),
    ensures
        spec_decode_stream(c, img, pos) == Ok::<Seq<u8>, SqfsError>(spec_flat(blocks)),
    decreases blocks.len(),
{
    if blocks.len() == 0 {
        assert(spec_records(c, blocks).len() == 0);
        assert(img.subrange(pos, img.len() as int).len() == img.len() - pos);
        assert(img.len() - pos == 0);
    } else {
        let b0 = blocks.first();
        assert(spec_block_ok(c, b0));
        let rec = spec_meta_record(c, b0);
        let rest = spec_records(c, blocks.drop_first());
        assert(img.subrange(pos, img.len() as int) == rec + rest);
        assert(rec.len() + rest.len() == img.len() - pos);
        assert(img.subrange(pos, pos + rec.len() as int) =~= rec) by {
            assert forall|i: int| 0 <= i < rec.len() implies img.subrange(
                pos,
                pos + rec.len() as int,
            )[i] == rec[i] by {
                assert(img[pos + i] == img.subrange(pos, img.len() as int)[i]);
                assert((rec + rest)[i] == rec[i]);
            }
        }
        lemma_meta_parse_prefix(c, img, pos, b0);
        let used = rec.len() as int;
        assert(img.subrange(pos + used, img.len() as int) =~= rest) by {
            assert forall|i: int| 0 <= i < rest.len() implies img.subrange(
                pos + used,
                img.len() as int,
            )[i] == rest[i] by {
                assert(img[pos + used + i] == img.subrange(pos, img.len() as int)[used + i]);
                assert((rec + rest)[used + i] == rest[i]);
            }
        }
        assert(forall|i: int|
            0 <= i < blocks.drop_first().len() ==> spec_block_ok(c, blocks.drop_first()[i]));
        lemma_records_decode(c, blocks.drop_first(), img, pos + used);
        assert(pos < img.len());
        assert(spec_decode_stream(c, img, pos) == Ok::<Seq<u8>, SqfsError>(
            b0 + spec_flat(blocks.drop_first()),
        ));
    }
}

/// A reading session over the metadata region of one image, with the
/// per-session decompression cache: blocks are decoded lazily, cached by
/// their `block_start`, and never evicted within the session.
pub struct MetaReader {
    image: Vec<u8>,
    codec: Codec,
    cache_keys: Vec<usize>,
    cache_vals: Vec<Vec<u8>>,
}

impl MetaReader {
    /// The bytes this session reads from.
    pub closed spec fn spec_image(self) -> Seq<u8> {
        self.image@
    }

    /// The codec this session decodes with.
    pub closed spec fn spec_codec(self) -> Codec {
        self.codec
    }

    /// One cache entry holds exactly what decoding its block from the
    /// image gives.
    pub closed spec fn cache_entry_ok(self, i: int) -> bool {
        &&& spec_parse_meta_block(self.codec, self.image@, self.cache_keys@[i] as int) is Ok
        &&& spec_parse_meta_block(
            self.codec,
            self.image@,
            self.cache_keys@[i] as int,
        ).unwrap().0 == self.cache_vals@[i]@
    }

    /// Every cache entry holds exactly what decoding its block from the
    /// image gives; this is why a hit cannot alter observable results.
    pub closed spec fn wf(self) -> bool {
        &&& self.cache_keys@.len() == self.cache_vals@.len()
        &&& forall|i: int| 0 <= i < self.cache_keys@.len() ==> self.cache_entry_ok(i)
    }

    /// Open a session over `image` with an empty cache.
    pub fn new(image: Vec<u8>, codec: Codec) -> (r: MetaReader)
        ensures
            r.wf(),
            r.spec_image() == image@,
            r.spec_codec() == codec,
    {
        MetaReader { image, codec, cache_keys: Vec::new(), cache_vals: Vec::new() }
    }

    /// The decompressed bytes of the block starting at `block_start`.
    /// The result is a function of the image, codec and `block_start`
    /// alone: whether it is served from the cache or freshly decoded
    /// cannot be observed.
    pub fn block_bytes(&mut self, block_start: usize) -> (r: Result<Vec<u8>, SqfsError>)
        requires
            old(self).wf(),
        ensures
            final(self).wf(),
            final(self).spec_image() == old(self).spec_image(),
            final(self).spec_codec() == old(self).spec_codec(),
            r is Ok <==> spec_parse_meta_block(
                old(self).spec_codec(),
                old(self).spec_image(),
                block_start as int,
            ) is Ok,
            r is Ok ==> r.unwrap()@ == spec_parse_meta_block(
                old(self).spec_codec(),
                old(self).spec_image(),
                block_start as int,
            ).unwrap().0,
            r is Err ==> r.unwrap_err() == spec_parse_meta_block(
                old(self).spec_codec(),
                old(self).spec_image(),
                block_start as int,
            )->Err_0,
    {
        let nkeys = self.cache_keys.len();
        let mut i: usize = 0;
        while i < nkeys
            invariant
                self.wf(),
                *self == *old(self),
                nkeys == self.cache_keys@.len(),
            decreases nkeys - i,
        {
            if self.cache_keys[i] == block_start {
                proof {
                    assert(self.cache_entry_ok(i as int));
                }
                return Ok(self.cache_vals[i].clone());
            }
            i = i + 1;
        }
        match decode_meta_block(&self.image, block_start, self.codec) {
            Ok((d, _used)) => {
                self.cache_keys.push(block_start);
                let out = d.clone();
                self.cache_vals.push(d);
                proof {
                    assert forall|j: int|
                        0 <= j < self.cache_keys@.len() implies self.cache_entry_ok(j) by {
                        if j < self.cache_keys@.len() - 1 {
                            assert(old(self).cache_entry_ok(j));
                            assert(self.cache_keys@[j] == old(self).cache_keys@[j]);
                            assert(self.cache_vals@[j] == old(self).cache_vals@[j]);
                        }
                    }
                }
                Ok(out)
            },
            Err(e) => Err(e),
        }
    }

    /// Dereference a metadata reference `(block_start, offset)` for `len`
    /// bytes. The slice must lie inside the one block: a value spanning
    /// two blocks is a format error, reported as `Corrupt`.
    pub fn read_ref(&mut self, block_start: usize, offset: usize, len: usize) -> (r: Result<
        Vec<u8>,
        SqfsError,
    >)
        requires
            old(self).wf(),
        ensures
            final(self).wf(),
            final(self).spec_image() == old(self).spec_image(),
            final(self).spec_codec() == old(self).spec_codec(),
            ({
                let parsed = spec_parse_meta_block(
                    old(self).spec_codec(),
                    old(self).spec_image(),
                    block_start as int,
                );
                match parsed {
                    Ok((d, _)) => {
                        if offset + len <= d.len() {
                            r is Ok && r.unwrap()@ == d.subrange(
                                offset as int,
                                offset as int + len as int,
                            )
                        } else {
                            r == Err::<Vec<u8>, SqfsError>(SqfsError::Corrupt)
                        }
                    },
                    Err(e) => r == Err::<Vec<u8>, SqfsError>(e),
                }
            }),
    {
        match self.block_bytes(block_start) {
            Ok(d) => {
                if offset <= d.len() && len <= d.len() - offset {
                    Ok(copy_range(&d, offset, len))
                } else {
                    Err(SqfsError::Corrupt)
                }
            },
            Err(e) => Err(e),
        }
    }
}

/// A writing session for one metadata region: logical bytes accumulate
/// in an 8 KiB buffer that is flushed as one on-disk block whenever it
/// fills; callers take `(block_start, offset)` references before writing
/// the bytes they want addressed.
pub struct MetaWriter {
    out: Vec<u8>,
    buf: Vec<u8>,
    codec: Codec,
    blocks: Ghost<Seq<Seq<u8>>>,
}

impl MetaWriter {
    /// The on-disk bytes emitted so far.
    pub closed spec fn spec_out(self) -> Seq<u8> {
        self.out@
    }

    /// The bytes still sitting in the unflushed buffer.
    pub closed spec fn spec_buf(self) -> Seq<u8> {
        self.buf@
    }

    /// The codec this session compresses with.
    pub closed spec fn spec_codec(self) -> Codec {
        self.codec
    }

    /// The blocks flushed so far.
    pub closed spec fn spec_blocks(self) -> Seq<Seq<u8>> {
        self.blocks@
    }

    /// All logical bytes written so far, flushed or not.
    pub open spec fn stream(self) -> Seq<u8> {
        spec_flat(self.spec_blocks()) + self.spec_buf()
    }

    /// The emitted bytes are exactly the records of the flushed blocks,
    /// each of which decodes back to its logical bytes; the compress-or-
    /// store rule keeps the emitted bytes within a small factor of the
    /// logical stream.
    pub closed spec fn wf(self) -> bool {
        &&& self.buf@.len() <= META_BLOCK_CAP
        &&& spec_codec_supported(self.codec)
        &&& self.out@ == spec_records(self.codec, self.blocks@)
        &&& self.out@.len() <= 3 * spec_flat(self.blocks@).len()
        &&& forall|i: int|
            0 <= i < self.blocks@.len() ==> spec_block_ok(self.codec, self.blocks@[i])
    }

    /// Open a writing session under a compiled-in codec.
    pub fn new(codec: Codec) -> (r: MetaWriter)
        requires
            spec_codec_supported(codec),
        ensures
            r.wf(),
            r.spec_codec() == codec,
            r.stream() == Seq::<u8>::empty(),
            r.spec_out() == Seq::<u8>::empty(),
            r.spec_blocks() == Seq::<Seq<u8>>::empty(),
            r.spec_buf() == Seq::<u8>::empty(),
    {
        let r = MetaWriter {
            out: Vec::new(),
            buf: Vec::new(),
            codec,
            blocks: Ghost(Seq::empty()),
        };
        proof {
            assert(r.stream() =~= Seq::<u8>::empty());
        }
        r
    }

    /// The metadata reference the next written byte will get: the byte
    /// offset the next flushed block starts at, and the offset inside
    /// that block's decompressed bytes.
    pub fn current_ref(&self) -> (r: (usize, usize))
        requires
            self.wf(),
        ensures
            r.0 == self.spec_out().len(),
            r.1 == self.spec_buf().len(),
            r.1 <= META_BLOCK_CAP,
    {
        (self.out.len(), self.buf.len())
    }

    /// The metadata reference for the next record, flushing first when
    /// the buffer is full so the in-block offset stays below the block
    /// capacity, as the reference invariant demands.
    pub fn ref_here(&mut self) -> (r: (usize, usize))
        requires
            old(self).wf(),
        ensures
            final(self).wf(),
            final(self).spec_codec() == old(self).spec_codec(),
            final(self).stream() == old(self).stream(),
            r.0 == final(self).spec_out().len(),
            r.1 == final(self).spec_buf().len(),
            r.1 < META_BLOCK_CAP,
            r.0 <= old(self).spec_out().len() + 2 + old(self).spec_buf().len(),
    {
        if self.buf.len() == META_BLOCK_CAP {
            self.flush();
        }
        (self.out.len(), self.buf.len())
    }

    /// Flush the buffered bytes as one on-disk block.
    fn flush(&mut self)
        requires
            old(self).wf(),
            0 < old(self).spec_buf().len(),
        ensures
            final(self).wf(),
            final(self).spec_codec() == old(self).spec_codec(),
            final(self).spec_buf() == Seq::<u8>::empty(),
            final(self).spec_blocks() == old(self).spec_blocks().push(old(self).spec_buf()),
            final(self).stream() == old(self).stream(),
            final(self).spec_out().len() <= old(self).spec_out().len() + 2 + old(self).spec_buf().len(),
    {
        let rec = encode_meta_block(&self.buf, self.codec);
        extend_bytes(&mut self.out, &rec);
        proof {
            self.blocks@ = self.blocks@.push(self.buf@);
        }
        self.buf = Vec::new();
        proof {
            lemma_records_push(self.codec, old(self).blocks@, old(self).buf@);
            assert(final(self).stream() =~= old(self).stream());
        }
    }

    /// Append logical bytes to the stream, flushing full blocks.
    pub fn write_bytes(&mut self, bytes: &Vec<u8>)
        requires
            old(self).wf(),
        ensures
            final(self).wf(),
            final(self).spec_codec() == old(self).spec_codec(),
            final(self).stream() == old(self).stream() + bytes@,
            final(self).spec_out().len() + final(self).spec_buf().len() <= 3 * final(self).stream().len(),
    {
        let n = bytes.len();
        let mut i: usize = 0;
        while i < n
            invariant
                i <= n,
                n == bytes@.len(),
                self.wf(),
                self.spec_codec() == old(self).spec_codec(),
                self.stream() == old(self).stream() + bytes@.subrange(0, i as int),
            decreases n - i,
        {
            if self.buf.len() == META_BLOCK_CAP {
                self.flush();
            }
            let ghost pre = *self;
            self.buf.push(bytes[i]);
            i = i + 1;
            proof {
                assert(self.stream() =~= pre.stream() + seq![bytes@[i - 1]]);
                assert(self.stream() =~= old(self).stream() + bytes@.subrange(0, i as int));
            }
        }
        proof {
            assert(bytes@.subrange(0, n as int) =~= bytes@);
        }
    }

    /// Close the session: flush what remains and hand back the on-disk
    /// region. The bytes are a function of the logical stream and codec
    /// alone, and decoding them gives back exactly the stream.
    pub fn finish(self) -> (r: Vec<u8>)
        requires
            self.wf(),
        ensures
            spec_decode_stream(self.spec_codec(), r@, 0) == Ok::<Seq<u8>, SqfsError>(
                self.stream(),
            ),
            r@.len() <= 3 * self.stream().len() + 2,
            r@ == spec_records(
                self.spec_codec(),
                if self.spec_buf().len() == 0 {
                    self.spec_blocks()
                } else {
                    self.spec_blocks().push(self.spec_buf())
                },
            ),
    {
        let mut w = self;
        if w.buf.len() > 0 {
            w.flush();
        }
        proof {
            assert(w.out@.subrange(0, w.out@.len() as int) =~= w.out@);
            lemma_records_decode(w.codec, w.blocks@, w.out@, 0);
            assert(spec_flat(w.blocks@) =~= w.stream());
            assert(w.stream() =~= self.stream());
        }
        w.out
    }
}

} // verus!

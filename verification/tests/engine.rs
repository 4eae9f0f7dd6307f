use sqfs::compress::{compress_block, decompress_block, Codec};
use sqfs::error::SqfsError;
use sqfs::fragment::{decode_fragment_table, encode_fragment_table, Fragment, FragmentPacker};
use sqfs::image::{read_image, write_image, decode_superblock};
use sqfs::metadata::{decode_meta_block, encode_meta_block, MetaReader, MetaWriter};
use sqfs::node::{Node, NodeHeader, NodeKind};
use sqfs::tree::{normalize, Tree};

fn header(perm: u16) -> NodeHeader {
    NodeHeader { permissions: perm, uid: 1000, gid: 100, mtime: 7 }
}

fn file_node(perm: u16, content: &[u8]) -> Node {
    Node { header: header(perm), kind: NodeKind::File { content: content.to_vec() } }
}

fn dir_node(perm: u16) -> Node {
    Node { header: header(perm), kind: NodeKind::Dir }
}

fn kind_label(k: &NodeKind) -> &'static str {
    match k {
        NodeKind::File { .. } => "file",
        NodeKind::Symlink { .. } => "symlink",
        NodeKind::Dir => "dir",
        NodeKind::CharDevice { .. } => "char",
        NodeKind::BlockDevice { .. } => "block",
    }
}

fn content_of(k: &NodeKind) -> Vec<u8> {
    match k {
        NodeKind::File { content } => content.clone(),
        NodeKind::Symlink { target } => target.clone(),
        NodeKind::CharDevice { device } | NodeKind::BlockDevice { device } => {
            device.to_le_bytes().to_vec()
        }
        NodeKind::Dir => Vec::new(),
    }
}

/// Writing then re-reading an image yields the same set of
/// (path, type, permissions, content) tuples.
#[test]
fn round_trip_mixed_nodes() {
    let mut tree = Tree::new();
    let big: Vec<u8> = (0..20000u32).map(|i| (i % 251) as u8).collect();
    tree.push_node(&b"/docs/big.bin".to_vec(), file_node(0o644, &big)).unwrap();
    tree.push_node(&b"/docs/small.txt".to_vec(), file_node(0o600, b"hello world"))
        .unwrap();
    tree.push_node(&b"/empty.dat".to_vec(), file_node(0o444, b"")).unwrap();
    tree.push_node(
        &b"/links/here".to_vec(),
        Node {
            header: header(0o777),
            kind: NodeKind::Symlink { target: b"../docs/small.txt".to_vec() },
        },
    )
    .unwrap();
    tree.push_node(
        &b"/dev/null0".to_vec(),
        Node { header: header(0o666), kind: NodeKind::CharDevice { device: 259 } },
    )
    .unwrap();
    tree.push_node(
        &b"/dev/sda0".to_vec(),
        Node { header: header(0o660), kind: NodeKind::BlockDevice { device: 2049 } },
    )
    .unwrap();
    tree.push_node(&b"/sub".to_vec(), dir_node(0o711)).unwrap();

    let img = write_image(&tree, Codec::Gzip, 4096).unwrap();
    let nodes = read_image(&img).unwrap();

    let mut got: Vec<(Vec<u8>, String, u16, Vec<u8>)> = nodes
        .iter()
        .map(|(p, n)| {
            (p.clone(), kind_label(&n.kind).to_string(), n.header.permissions, content_of(&n.kind))
        })
        .collect();
    got.sort();
    let mut want: Vec<(Vec<u8>, String, u16, Vec<u8>)> = vec![
        (b"docs".to_vec(), "dir".to_string(), 0o755, Vec::new()),
        (b"docs/big.bin".to_vec(), "file".to_string(), 0o644, big.clone()),
        (b"docs/small.txt".to_vec(), "file".to_string(), 0o600, b"hello world".to_vec()),
        (b"empty.dat".to_vec(), "file".to_string(), 0o444, Vec::new()),
        (b"links".to_vec(), "dir".to_string(), 0o755, Vec::new()),
        (b"links/here".to_vec(), "symlink".to_string(), 0o777, b"../docs/small.txt".to_vec()),
        (b"dev".to_vec(), "dir".to_string(), 0o755, Vec::new()),
        (b"dev/null0".to_vec(), "char".to_string(), 0o666, 259u32.to_le_bytes().to_vec()),
        (b"dev/sda0".to_vec(), "block".to_string(), 0o660, 2049u32.to_le_bytes().to_vec()),
        (b"sub".to_vec(), "dir".to_string(), 0o711, Vec::new()),
    ];
    want.sort();
    assert_eq!(got, want);
}

/// Round trip also holds for a file spanning several blocks with an
/// uncompressed codec, and uids and gids survive.
#[test]
fn round_trip_no_compression() {
    let mut tree = Tree::new();
    let body: Vec<u8> = (0..9000u32).map(|i| (i * 7 % 256) as u8).collect();
    tree.push_node(&b"/a".to_vec(), file_node(0o640, &body)).unwrap();
    let img = write_image(&tree, Codec::NoCompression, 4096).unwrap();
    let nodes = read_image(&img).unwrap();
    assert_eq!(nodes.len(), 1);
    assert_eq!(nodes[0].0, b"a".to_vec());
    assert_eq!(nodes[0].1.header.uid, 1000);
    assert_eq!(nodes[0].1.header.gid, 100);
    match &nodes[0].1.kind {
        NodeKind::File { content } => assert_eq!(content, &body),
        _ => panic!("expected a file"),
    }
}

/// Serializing the same logical node set twice yields byte-identical
/// images, independent of insertion order.
#[test]
fn reproducible_images() {
    let mut t1 = Tree::new();
    t1.push_node(&b"/b/two".to_vec(), file_node(0o644, b"2222")).unwrap();
    t1.push_node(&b"/a/one".to_vec(), file_node(0o644, b"1111")).unwrap();
    t1.push_node(&b"/a".to_vec(), dir_node(0o700)).unwrap();

    let mut t2 = Tree::new();
    t2.push_node(&b"/a".to_vec(), dir_node(0o700)).unwrap();
    t2.push_node(&b"/a/one".to_vec(), file_node(0o644, b"1111")).unwrap();
    t2.push_node(&b"/b/two".to_vec(), file_node(0o644, b"2222")).unwrap();

    let i1 = write_image(&t1, Codec::Gzip, 4096).unwrap();
    let i2 = write_image(&t2, Codec::Gzip, 4096).unwrap();
    assert_eq!(i1, i2);
    let i3 = write_image(&t1, Codec::Gzip, 4096).unwrap();
    assert_eq!(i1, i3);
}

/// Inserting entries at /a/b/c and /a/b/d synthesizes exactly one
/// node-absent row for `a` and one for `a/b`, and nothing else.
#[test]
fn tree_synthesis() {
    let mut tree = Tree::new();
    tree.push_node(&b"/a/b/c".to_vec(), file_node(0o644, b"c")).unwrap();
    tree.push_node(&b"/a/b/d".to_vec(), file_node(0o644, b"d")).unwrap();
    let paths: Vec<Vec<Vec<u8>>> = tree
        .entries
        .iter()
        .map(|e| e.comps.clone())
        .collect();
    assert_eq!(
        paths,
        vec![
            vec![b"a".to_vec()],
            vec![b"a".to_vec(), b"b".to_vec()],
            vec![b"a".to_vec(), b"b".to_vec(), b"c".to_vec()],
            vec![b"a".to_vec(), b"b".to_vec(), b"d".to_vec()],
        ]
    );
    assert!(tree.entries[0].node.is_none());
    assert!(tree.entries[1].node.is_none());
    assert!(tree.entries[2].node.is_some());
    assert!(tree.entries[3].node.is_some());
}

/// Pushing below a plain file, or pushing the same path twice with
/// differing content, fails with PathConflict; an identical push is
/// accepted.
#[test]
fn conflict_detection() {
    let mut tree = Tree::new();
    tree.push_node(&b"/x".to_vec(), file_node(0o644, b"x")).unwrap();
    assert_eq!(
        tree.push_node(&b"/x/y".to_vec(), file_node(0o644, b"y")),
        Err(SqfsError::PathConflict)
    );
    tree.push_node(&b"/p/q".to_vec(), file_node(0o644, b"old")).unwrap();
    assert_eq!(
        tree.push_node(&b"/p/q".to_vec(), file_node(0o644, b"new")),
        Err(SqfsError::PathConflict)
    );
    assert_eq!(tree.push_node(&b"/p/q".to_vec(), file_node(0o644, b"old")), Ok(()));
    // a directory may not be replaced by a file while it has children
    assert_eq!(
        tree.push_node(&b"/p".to_vec(), file_node(0o644, b"p")),
        Err(SqfsError::PathConflict)
    );
}

/// A block whose compressed form is not smaller is stored raw and
/// returned unmodified, never run through the decompressor.
#[test]
fn anti_bloat_flag() {
    let tiny = b"\x01\x02\x03".to_vec();
    let (payload, raw) = compress_block(&tiny, Codec::Gzip).unwrap();
    assert!(raw);
    assert_eq!(payload, tiny);
    let back = decompress_block(&payload, raw, Codec::Gzip, 8192).unwrap();
    assert_eq!(back, tiny);

    let repetitive = vec![7u8; 4096];
    let (payload, raw) = compress_block(&repetitive, Codec::Gzip).unwrap();
    assert!(!raw);
    assert!(payload.len() < repetitive.len());
    let back = decompress_block(&payload, raw, Codec::Gzip, 8192).unwrap();
    assert_eq!(back, repetitive);
}

/// A tail shorter than the block size lands whole inside one fragment
/// block, and the claimed slice lies inside the block's extent.
#[test]
fn fragment_packing_bounds() {
    let mut p = FragmentPacker::new(4096);
    let t1 = vec![1u8; 3000];
    let t2 = vec![2u8; 3000];
    let t3 = vec![3u8; 100];
    let (i1, o1) = p.add_tail(&t1);
    let (i2, o2) = p.add_tail(&t2);
    let (i3, o3) = p.add_tail(&t3);
    assert_eq!((i1, o1), (0, 0));
    assert_eq!((i2, o2), (1, 0));
    assert_eq!((i3, o3), (1, 3000));
    let blocks = p.finish();
    assert_eq!(blocks.len(), 2);
    assert!(o1 + t1.len() <= blocks[i1].len());
    assert!(o3 + t3.len() <= blocks[i3].len());
    assert_eq!(&blocks[i3][o3..o3 + 100], &t3[..]);
}

/// A file smaller than the block size resolves entirely from one
/// fragment slice.
#[test]
fn small_file_uses_fragment() {
    let mut tree = Tree::new();
    tree.push_node(&b"/s".to_vec(), file_node(0o644, b"short")).unwrap();
    let img = write_image(&tree, Codec::Gzip, 4096).unwrap();
    let sb = decode_superblock(&img).unwrap();
    assert_eq!(sb.frag_count, 1);
    let nodes = read_image(&img).unwrap();
    match &nodes[0].1.kind {
        NodeKind::File { content } => assert_eq!(content, &b"short".to_vec()),
        _ => panic!("expected a file"),
    }
}

/// Decoding the same metadata block twice yields identical bytes, with
/// or without a warm cache.
#[test]
fn metadata_cache_idempotent() {
    let mut w = MetaWriter::new(Codec::Gzip);
    let body: Vec<u8> = (0..10000u32).map(|i| (i % 13) as u8).collect();
    w.write_bytes(&body);
    let region = w.finish();
    let mut warm = MetaReader::new(region.clone(), Codec::Gzip);
    let first = warm.block_bytes(0).unwrap();
    let second = warm.block_bytes(0).unwrap();
    assert_eq!(first, second);
    let mut cold = MetaReader::new(region, Codec::Gzip);
    assert_eq!(cold.block_bytes(0).unwrap(), first);
    assert_eq!(first.len(), 8192);
    assert_eq!(cold.read_ref(0, 5, 8).unwrap(), body[5..13].to_vec());
}

/// One metadata block encodes and decodes exactly.
#[test]
fn metadata_block_round_trip() {
    let data: Vec<u8> = (0..5000u32).map(|i| (i % 17) as u8).collect();
    let rec = encode_meta_block(&data, Codec::Gzip);
    let (back, used) = decode_meta_block(&rec, 0, Codec::Gzip).unwrap();
    assert_eq!(back, data);
    assert_eq!(used, rec.len());
    let raw_rec = encode_meta_block(&data, Codec::NoCompression);
    let (back, _) = decode_meta_block(&raw_rec, 0, Codec::NoCompression).unwrap();
    assert_eq!(back, data);
    assert!(decode_meta_block(&rec, 1, Codec::Gzip).is_err());
}

/// A raw metadata block whose declared decompressed size exceeds the
/// 8 KiB capacity is rejected as Corrupt, as is a truncated record.
#[test]
fn oversized_metadata_block_is_corrupt() {
    let declared: u16 = 0x8000 | 8193;
    let mut rec = declared.to_le_bytes().to_vec();
    rec.extend(std::iter::repeat(0u8).take(8193));
    assert_eq!(decode_meta_block(&rec, 0, Codec::Gzip).err(), Some(SqfsError::Corrupt));
    let ok_rec = encode_meta_block(&vec![1u8; 100], Codec::NoCompression);
    let truncated = ok_rec[..ok_rec.len() - 1].to_vec();
    assert_eq!(
        decode_meta_block(&truncated, 0, Codec::NoCompression).err(),
        Some(SqfsError::Corrupt)
    );
}

/// The fragment descriptor table round trips and rejects a bad length.
#[test]
fn fragment_table_round_trip() {
    let fs = vec![
        Fragment { start: 78, size: 1000, raw: false },
        Fragment { start: 1078, size: 4096, raw: true },
    ];
    let bytes = encode_fragment_table(&fs);
    assert_eq!(bytes.len(), 32);
    let back = decode_fragment_table(&bytes, 2).unwrap();
    assert_eq!(back, fs);
    assert_eq!(decode_fragment_table(&bytes, 3), Err(SqfsError::Corrupt));
}

/// Path normalization resolves dot and dot-dot components and strips
/// the root and repeated separators.
#[test]
fn path_normalization() {
    let comps = normalize(&b"/a//b/./../c".to_vec());
    assert_eq!(comps, vec![b"a".to_vec(), b"c".to_vec()]);
    let empty = normalize(&b"/./x/..".to_vec());
    assert!(empty.is_empty());
    let rel = normalize(&b"plain/name".to_vec());
    assert_eq!(rel, vec![b"plain".to_vec(), b"name".to_vec()]);
}

/// Rebuilding a forest from a read-back node list and re-serializing
/// gives the same image: the insert-then-rewrite cycle is stable.
#[test]
fn rebuild_from_nodes() {
    let mut tree = Tree::new();
    tree.push_node(&b"/d/f".to_vec(), file_node(0o644, b"payload")).unwrap();
    tree.push_node(&b"/d".to_vec(), dir_node(0o750)).unwrap();
    let img = write_image(&tree, Codec::Gzip, 4096).unwrap();
    let nodes = read_image(&img).unwrap();
    let tree2 = Tree::from_nodes(nodes).unwrap();
    let img2 = write_image(&tree2, Codec::Gzip, 4096).unwrap();
    assert_eq!(img, img2);
}

/// Unsupported codecs are refused on write; bad magic is Corrupt on
/// read; a truncated image is Corrupt.
#[test]
fn error_taxonomy() {
    let tree = Tree::new();
    assert_eq!(write_image(&tree, Codec::Xz, 4096), Err(SqfsError::Unsupported));
    assert_eq!(write_image(&tree, Codec::Zstd, 4096), Err(SqfsError::Unsupported));
    let mut img = write_image(&tree, Codec::Gzip, 4096).unwrap();
    assert_eq!(read_image(&img).unwrap().len(), 0);
    img[0] ^= 0xff;
    assert_eq!(read_image(&img).err(), Some(SqfsError::Corrupt));
    assert_eq!(read_image(&b"sq".to_vec()).err(), Some(SqfsError::Corrupt));
}

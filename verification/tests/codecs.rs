use sqfs::dir::{decode_dir_run, encode_dir_run, DirEntry};
use sqfs::image::{encode_superblock, decode_superblock, Superblock};
use sqfs::compress::Codec;
use sqfs::inode::{decode_inode, encode_inode, Inode, InodeHeader, InodeKind, NO_FRAGMENT};

fn sample_header(n: u32) -> InodeHeader {
    InodeHeader { permissions: 0o644, uid_idx: 0, gid_idx: 1, mtime: 99, inode_number: n }
}

/// Every inode variant encodes and decodes back to itself.
#[test]
fn inode_record_round_trip() {
    let block_size = 4096u32;
    let inos = vec![
        Inode {
            header: sample_header(1),
            kind: InodeKind::Dir { start_block: 0, offset: 0, nlink: 2, size: 33, parent: 1 },
        },
        Inode {
            header: sample_header(2),
            kind: InodeKind::File {
                blocks_start: 78,
                frag_index: 0,
                frag_offset: 16,
                file_size: 2 * 4096 + 5,
                block_sizes: vec![100, 200],
            },
        },
        Inode {
            header: sample_header(3),
            kind: InodeKind::File {
                blocks_start: 78,
                frag_index: NO_FRAGMENT,
                frag_offset: 0,
                file_size: 4097,
                block_sizes: vec![4096, 1],
            },
        },
        Inode {
            header: sample_header(4),
            kind: InodeKind::Symlink { nlink: 1, target: b"../target".to_vec() },
        },
        Inode { header: sample_header(5), kind: InodeKind::CharDev { nlink: 1, device: 259 } },
        Inode { header: sample_header(6), kind: InodeKind::BlockDev { nlink: 1, device: 2049 } },
    ];
    let mut stream: Vec<u8> = Vec::new();
    let mut positions: Vec<usize> = Vec::new();
    for ino in &inos {
        positions.push(stream.len());
        encode_inode(&mut stream, ino);
    }
    for (ino, pos) in inos.iter().zip(positions.iter()) {
        let (back, _) = decode_inode(&stream, *pos, block_size).unwrap();
        assert_eq!(format!("{back:?}"), format!("{ino:?}"));
    }
    // an unknown tag is rejected
    let mut bad = stream.clone();
    bad[positions[0]] = 9;
    assert_eq!(
        decode_inode(&bad, positions[0], block_size).err(),
        Some(sqfs::error::SqfsError::Corrupt)
    );
}

/// A directory entry run encodes and decodes back to itself.
#[test]
fn dir_run_round_trip() {
    let es = vec![
        DirEntry {
            inode_number: 2,
            inode_block: 0,
            inode_offset: 0,
            type_tag: 1,
            name: b"child".to_vec(),
        },
        DirEntry {
            inode_number: 3,
            inode_block: 0,
            inode_offset: 32,
            type_tag: 2,
            name: b"file.txt".to_vec(),
        },
    ];
    let run = encode_dir_run(&es);
    let back = decode_dir_run(&run, 0, run.len()).unwrap();
    assert_eq!(format!("{back:?}"), format!("{es:?}"));
    // a run that stops mid-record is rejected
    assert!(decode_dir_run(&run, 0, run.len() - 1).is_err());
}

/// The superblock encodes and decodes back to itself.
#[test]
fn superblock_round_trip() {
    let sb = Superblock {
        block_size: 131072,
        codec: Codec::Gzip,
        inode_count: 12,
        mtime: 11,
        frag_count: 3,
        id_count: 2,
        inode_table_start: 1000,
        dir_table_start: 2000,
        frag_table_start: 3000,
        id_table_start: 4000,
        root_block: 5,
        root_offset: 6,
        bytes_used: 5000,
    };
    let bytes = encode_superblock(&sb);
    let back = decode_superblock(&bytes).unwrap();
    assert_eq!(back, sb);
}

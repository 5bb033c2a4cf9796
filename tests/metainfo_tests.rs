use rusty_bit::bencode::{decode, encode};
use rusty_bit::torrent::{FileType, Info, MetainfoError, PieceLocationMap, Torrent, Hashes, TorrentFile, split_piece};
use sha1::{Digest, Sha1};

fn sha(b: &[u8]) -> [u8; 20] {
    Sha1::digest(b).into()
}

fn info_bytes() -> Vec<u8> {
    let mut pieces = Vec::new();
    pieces.extend_from_slice(&sha(b"abcd"));
    pieces.extend_from_slice(&sha(b"efgh"));
    pieces.extend_from_slice(&sha(b"ijkl"));
    let mut info = b"d6:lengthi12e4:name1:a12:piece lengthi4e6:pieces60:".to_vec();
    info.extend_from_slice(&pieces);
    info.push(b'e');
    info
}

fn metainfo() -> Vec<u8> {
    let mut m = b"d8:announce21:http://tracker.test/a4:info".to_vec();
    m.extend_from_slice(&info_bytes());
    m.push(b'e');
    m
}

#[test]
fn single_file_metainfo_pieces_and_hash() {
    let t = Torrent::from_bytes(&metainfo()).unwrap();
    assert_eq!(t.announce, "http://tracker.test/a");
    assert_eq!(t.info.name, "a");
    assert_eq!(t.info.piece_length, 4);
    assert_eq!(t.info.piece_count(), 3);
    let total = t.info.total_length().unwrap();
    assert_eq!(total, 12);
    assert_eq!(t.info.piece_lengths(total), vec![4, 4, 4]);
    assert_eq!(t.info.pieces.0[1], sha(b"efgh"));
    assert_eq!(t.info_bytes, info_bytes());
    let expected: [u8; 20] = [203, 55, 59, 118, 52, 247, 51, 139, 25, 227, 143, 165, 24, 247, 166, 176, 125, 184, 138, 88];
    assert_eq!(t.calc_hash(), expected);
}

#[test]
fn info_hash_is_stable_and_matches_slice() {
    let t = Torrent::from_bytes(&metainfo()).unwrap();
    let first = t.calc_hash();
    let second = t.calc_hash();
    assert_eq!(first, second);
    assert_eq!(first, sha(&info_bytes()));
    let (v, _) = decode(&info_bytes()).unwrap();
    assert_eq!(encode(&v), info_bytes());
}

#[test]
fn metainfo_errors() {
    assert!(matches!(Torrent::from_bytes(b"d8:announce"), Err(MetainfoError::Decode(_))));
    assert_eq!(Torrent::from_bytes(b"d8:announce1:xe").err(), Some(MetainfoError::Schema));
    assert_eq!(Torrent::from_bytes(b"i1e").err(), Some(MetainfoError::Schema));
    // twenty bytes of digests for three pieces of content
    let mut m = b"d8:announce1:x4:infod6:lengthi12e4:name1:a12:piece lengthi4e6:pieces20:".to_vec();
    m.extend_from_slice(&[0u8; 20]);
    m.extend_from_slice(b"ee");
    assert_eq!(Torrent::from_bytes(&m).err(), Some(MetainfoError::Schema));
    // a digest string whose length is no multiple of 20
    let mut m = b"d8:announce1:x4:infod6:lengthi12e4:name1:a12:piece lengthi4e6:pieces3:".to_vec();
    m.extend_from_slice(b"abcee");
    assert_eq!(Torrent::from_bytes(&m).err(), Some(MetainfoError::Schema));
}

#[test]
fn multi_file_metainfo() {
    let mut m = b"d8:announce1:x4:infod5:filesld6:lengthi5e4:pathl1:aeed6:lengthi15e4:pathl3:dir1:beee4:name3:top12:piece lengthi8e6:pieces60:".to_vec();
    m.extend_from_slice(&[7u8; 60]);
    m.extend_from_slice(b"ee");
    let t = Torrent::from_bytes(&m).unwrap();
    match &t.info.file_type {
        FileType::MultiFile { files } => {
            assert_eq!(files.len(), 2);
            assert_eq!(files[0].length, 5);
            assert_eq!(files[1].path, vec!["dir".to_string(), "b".to_string()]);
        }
        _ => panic!("expected the multi-file form"),
    }
    assert_eq!(t.info.total_length(), Some(20));
}

fn seg(file: usize, offset: usize, length: usize) -> PieceLocationMap {
    PieceLocationMap { file, offset, length }
}

fn two_file_torrent() -> Torrent {
    let files = vec![
        TorrentFile { length: 5, path: vec!["a".to_string()] },
        TorrentFile { length: 15, path: vec!["b".to_string()] },
    ];
    Torrent::new(
        Info {
            name: "t".to_string(),
            piece_length: 8,
            pieces: Hashes(vec![[0u8; 20]; 3]),
            file_type: FileType::MultiFile { files },
        },
        "x".to_string(),
    )
}

#[test]
fn layout_of_two_files() {
    let t = two_file_torrent();
    let map = t.genereate_piece_mapping(3, 20);
    assert_eq!(map.len(), 3);
    assert_eq!(map[0], vec![seg(0, 0, 5), seg(1, 0, 3)]);
    assert_eq!(map[1], vec![seg(1, 3, 8)]);
    assert_eq!(map[2], vec![seg(1, 11, 4)]);
}

#[test]
fn layout_sums_to_piece_lengths() {
    let t = two_file_torrent();
    let map = t.genereate_piece_mapping(3, 20);
    let lens = t.info.piece_lengths(20);
    assert_eq!(lens, vec![8, 8, 4]);
    let mut all = 0;
    for (i, segs) in map.iter().enumerate() {
        let sum: usize = segs.iter().map(|s| s.length).sum();
        assert_eq!(sum, lens[i]);
        all += sum;
    }
    assert_eq!(all, 20);
}

#[test]
fn layout_skips_empty_files() {
    let files = vec![
        TorrentFile { length: 3, path: vec!["a".to_string()] },
        TorrentFile { length: 0, path: vec!["empty".to_string()] },
        TorrentFile { length: 3, path: vec!["c".to_string()] },
    ];
    let t = Torrent::new(
        Info {
            name: "t".to_string(),
            piece_length: 4,
            pieces: Hashes(vec![[0u8; 20]; 2]),
            file_type: FileType::MultiFile { files },
        },
        "x".to_string(),
    );
    let map = t.genereate_piece_mapping(2, 6);
    assert_eq!(map[0], vec![seg(0, 0, 3), seg(2, 0, 1)]);
    assert_eq!(map[1], vec![seg(2, 1, 2)]);
}

#[test]
fn split_piece_across_files() {
    let segs = vec![seg(0, 0, 5), seg(1, 0, 3)];
    let writes = split_piece(&segs, b"abcdefgh");
    assert_eq!(writes.len(), 2);
    assert_eq!(writes[0].file, 0);
    assert_eq!(writes[0].bytes, b"abcde".to_vec());
    assert_eq!(writes[1].file, 1);
    assert_eq!(writes[1].offset, 0);
    assert_eq!(writes[1].bytes, b"fgh".to_vec());
}

#[test]
fn pieces_missing_on_disk() {
    let t = Torrent::from_bytes(&metainfo()).unwrap();
    let on_disk = vec![b"abcd".to_vec(), vec![0u8; 4], b"ijkx".to_vec()];
    assert_eq!(t.pieces_to_be_downloaded(&on_disk), vec![1, 2]);
    let complete = vec![b"abcd".to_vec(), b"efgh".to_vec(), b"ijkl".to_vec()];
    assert_eq!(t.pieces_to_be_downloaded(&complete), Vec::<usize>::new());
}

#[test]
fn hashes_from_bytes() {
    let h = Hashes::from_bytes(&[1u8; 40]).unwrap();
    assert_eq!(h.0.len(), 2);
    assert!(Hashes::from_bytes(&[1u8; 21]).is_none());
}

#[test]
fn built_torrent_hashes_canonical_info() {
    let info = Info {
        name: "a".to_string(),
        piece_length: 4,
        pieces: Hashes(vec![sha(b"abcd"), sha(b"efgh"), sha(b"ijkl")]),
        file_type: FileType::SingleFile { length: 12 },
    };
    let t = Torrent::new(info, "http://tracker.test/a".to_string());
    assert_eq!(t.info_bytes, info_bytes());
    let expected: [u8; 20] = [203, 55, 59, 118, 52, 247, 51, 139, 25, 227, 143, 165, 24, 247, 166, 176, 125, 184, 138, 88];
    assert_eq!(t.calc_hash(), expected);
}

#[test]
fn built_multi_file_info_bytes() {
    let t = two_file_torrent();
    let mut expected = b"d5:filesld6:lengthi5e4:pathl1:aeed6:lengthi15e4:pathl1:beee4:name1:t12:piece lengthi8e6:pieces60:".to_vec();
    expected.extend_from_slice(&[0u8; 60]);
    expected.push(b'e');
    assert_eq!(t.info_bytes, expected);
}

#[test]
fn file_paths_on_disk() {
    let t = two_file_torrent();
    let root = "Downloaded".to_string();
    assert_eq!(
        t.file_paths(&root),
        vec![
            vec!["Downloaded".to_string(), "t".to_string(), "a".to_string()],
            vec!["Downloaded".to_string(), "t".to_string(), "b".to_string()],
        ]
    );
    let single = Torrent::from_bytes(&metainfo()).unwrap();
    assert_eq!(single.file_paths(&root), vec![vec!["Downloaded".to_string(), "a".to_string()]]);
}

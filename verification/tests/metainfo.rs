use mktorrent::checksum::sha256::Digest;
use mktorrent::metainfo::{
    Directory, EncodeError, File, Info, PathElement, PieceLength, Torrent, MAX_FILE_PATH_DEPTH,
};

// Encodes the object to bencode and converts it to a String.
//
// # Panics
//
// This function will panic if the encoding fails or the resulting bencode
// is not valid UTF-8.
fn bytes_to_str(ret: Result<Vec<u8>, EncodeError>) -> String {
    String::from_utf8(ret.unwrap()).unwrap()
}

#[test]
fn file_encode() {
    let f = File {
        length: 1024,
        pieces_root: Digest::new([b'a'; 32]),
    };

    assert_eq!(
        bytes_to_str(f.to_bencode()),
        "d0:d6:lengthi1024e11:pieces root32:aaaaaaaaaaaaaaaaaaaaaaaaaaaaaaaaee",
    );
}

#[test]
fn file_encode_zerolen() {
    let f = File {
        length: 0,
        pieces_root: Digest::new([b'a'; 32]),
    };

    assert_eq!(bytes_to_str(f.to_bencode()), "d0:d6:lengthi0eee",);
}

fn dir_chain(depth: usize) -> PathElement {
    let f = File {
        length: 0,
        pieces_root: Digest::new([b'a'; 32]),
    };
    let mut p = PathElement::File(f);
    for _ in 0..depth {
        p = PathElement::Directory(Directory {
            entries: vec![(b"a_dir".to_vec(), p)],
        });
    }
    p
}

#[test]
fn torrent_encode_maxdepth() {
    let mut t = Torrent {
        announce: "http://announce.example.com:8080".to_string(),
        info: Info {
            name: "my display name".to_string(),
            piece_length: PieceLength { layers: 0 },
            file_tree: Directory { entries: Vec::new() },
        },
        piece_layers: Vec::new(),
    };

    // test with the tree at max depth
    t.info.file_tree = match dir_chain(MAX_FILE_PATH_DEPTH) {
        PathElement::Directory(d) => d,
        _ => unreachable!(),
    };
    t.to_bencode().unwrap();

    // Test that 1 past max depth is NestingTooDeep.
    t.info.file_tree = match dir_chain(MAX_FILE_PATH_DEPTH + 1) {
        PathElement::Directory(d) => d,
        _ => unreachable!(),
    };
    let err = t.to_bencode().unwrap_err();
    if !format!("{:?}", err).contains("NestingTooDeep") {
        panic!("should be NestingTooDeep, instead: {:?}", err)
    }
}

#[test]
fn directory_encode() {
    let d = Directory {
        entries: vec![
            (
                b"dir1".to_vec(),
                PathElement::Directory(Directory {
                    entries: vec![(
                        b"file3".to_vec(),
                        PathElement::File(File {
                            length: 0,
                            pieces_root: Digest::new([b'b'; 32]),
                        }),
                    )],
                }),
            ),
            (
                b"file1".to_vec(),
                PathElement::File(File {
                    length: 1024,
                    pieces_root: Digest::new([b'a'; 32]),
                }),
            ),
            (
                b"file2".to_vec(),
                PathElement::File(File {
                    length: 0,
                    pieces_root: Digest::new([b'b'; 32]),
                }),
            ),
        ],
    };

    assert_eq!(
        bytes_to_str(d.to_bencode()),
        "d4:dir1d5:file3d0:d6:lengthi0eeee5:file1d0:d6:lengthi1024e11:pieces root32:aaaaaaaaaaaaaaaaaaaaaaaaaaaaaaaaee5:file2d0:d6:lengthi0eeee",
    );
}

#[test]
fn torrent_encode() {
    let t = Torrent {
        announce: "http://announce.example.com:8080".to_string(),
        info: Info {
            name: "my display name".to_string(),
            piece_length: PieceLength { layers: 5 },
            file_tree: Directory {
                entries: vec![(
                    b"file1".to_vec(),
                    PathElement::File(File {
                        length: 1024,
                        pieces_root: Digest::new([b'a'; 32]),
                    }),
                )],
            },
        },
        piece_layers: vec![(
            Digest::new([b'a'; 32]),
            vec![Digest::new([b'b'; 32]), Digest::new([b'c'; 32])],
        )],
    };

    assert_eq!(
        bytes_to_str(t.to_bencode()),
        "d8:announce32:http://announce.example.com:80804:infod9:file treed5:file1d0:d6:lengthi1024e11:pieces root32:aaaaaaaaaaaaaaaaaaaaaaaaaaaaaaaaeee12:meta versioni2e4:name15:my display name12:piece lengthi524288ee12:piece layersd32:aaaaaaaaaaaaaaaaaaaaaaaaaaaaaaaa64:bbbbbbbbbbbbbbbbbbbbbbbbbbbbbbbbccccccccccccccccccccccccccccccccee",
    );
}

#[test]
fn piece_length() {
    let tests = [14u32, 15, 25];

    for t in tests {
        assert_eq!(
            1u64 << t,
            PieceLength::from_bytes(1u64 << t).unwrap().bytes()
        )
    }

    assert_eq!(PieceLength::from_bytes(0), None);
    assert_eq!(PieceLength::from_bytes(1 << 4), None);
    assert_eq!(PieceLength::from_bytes(1 << 13), None);
    assert_eq!(
        PieceLength::from_bytes(1 << 14),
        Some(PieceLength { layers: 0 })
    );
}

#[test]
fn torrent_add_file() {
    let mut torrent = Torrent::new("".to_string(), "".to_string(), PieceLength { layers: 0 });
    assert_eq!(true, torrent.add_file("a.txt", File::default(), Vec::new()));
    assert_eq!(torrent.piece_layers.len(), 0); // empty pieces_layer results in it not being added

    // adding the same file results in a conflict
    assert_eq!(false, torrent.add_file("a.txt", File::default(), Vec::new()));

    // adding a different file does not
    assert_eq!(true, torrent.add_file("b.txt", File::default(), Vec::new()));

    // directories work
    assert_eq!(true, torrent.add_file("c/d.txt", File::default(), Vec::new()));

    // cannot use an existing file as a directory
    assert_eq!(
        false,
        torrent.add_file("c/d.txt/e", File::default(), Vec::new())
    );

    // non-empty pieces_layer is added to pieces_layers
    assert_eq!(
        true,
        torrent.add_file(
            "c/f.txt",
            File {
                pieces_root: Digest::new([b'a'; 32]),
                length: 1,
            },
            vec![Digest::default(), Digest::default()]
        )
    );
    let entry = torrent
        .piece_layers
        .iter()
        .find(|e| e.0 == Digest::new([b'a'; 32]))
        .unwrap();
    assert_eq!(entry.1, vec![Digest::default(), Digest::default()]);
}

#[test]
fn add_file_keeps_sorted_order_in_encoding() {
    // directory keys are emitted in sorted order however they arrive
    let mut torrent = Torrent::new(
        "ann".to_string(),
        "name".to_string(),
        PieceLength { layers: 0 },
    );
    assert!(torrent.add_file("zebra", File::default(), Vec::new()));
    assert!(torrent.add_file("apple", File::default(), Vec::new()));
    assert!(torrent.add_file("mango", File::default(), Vec::new()));
    let s = bytes_to_str(torrent.to_bencode());
    let apple = s.find("5:apple").unwrap();
    let mango = s.find("5:mango").unwrap();
    let zebra = s.find("5:zebra").unwrap();
    assert!(apple < mango && mango < zebra);
}

#[test]
fn get_entry_finds_added_files() {
    let mut torrent = Torrent::new("".to_string(), "".to_string(), PieceLength { layers: 0 });
    assert!(torrent.add_file("c/d.txt", File::default(), Vec::new()));

    let c = torrent.info.file_tree.get_entry(b"c").unwrap();
    assert!(matches!(c, PathElement::Directory(_)));
    let d = c.get_entry(b"d.txt").unwrap();
    match d {
        PathElement::File(f) => assert_eq!(f.length, 0),
        PathElement::Directory(_) => panic!("expected a file"),
    }
    // a file is not a directory: looking below it finds nothing
    assert!(d.get_entry(b"e").is_none());
    assert!(torrent.info.file_tree.get_entry(b"missing").is_none());
}

#[test]
fn add_file_replaces_layer_for_same_root() {
    let mut torrent = Torrent::new("".to_string(), "".to_string(), PieceLength { layers: 0 });
    let root = Digest::new([b'r'; 32]);
    let f = File {
        length: 99999,
        pieces_root: root,
    };
    assert!(torrent.add_file("one", f, vec![Digest::new([1; 32])]));
    assert!(torrent.add_file("two", f, vec![Digest::new([2; 32])]));
    assert_eq!(torrent.piece_layers.len(), 1);
    assert_eq!(torrent.piece_layers[0].1, vec![Digest::new([2; 32])]);
}

use mktorrent::checksum::merkle::{root_hash, zero_root, Hasher};
use mktorrent::checksum::sha256::Digest;
use mktorrent::checksum::torrent2::PieceV2Hasher;
use mktorrent::checksum::{checksum_file, checksum_file_multithreaded};
use mktorrent::metainfo::{File, PieceLength};

#[test]
fn test_finish_reset() {
    // test that finish resets the hasher
    let a = Digest::new([b'a'; 32]);
    let b = Digest::new([b'b'; 32]);
    let mut h = Hasher::new();
    h.add_block(&a);
    assert_eq!(h.finish_tree(&Digest::default()), a);
    h.add_block(&b);
    assert_eq!(h.finish_tree(&Digest::default()), b);
}

#[test]
fn test_no_blocks() {
    // no blocks returns a zeroed Digest
    assert_eq!(root_hash(0, &Vec::new()), Digest::default());
}

#[test]
fn test_single_block() {
    // acts as an identity function
    let d = Digest::new([b'a'; 32]);
    assert_eq!(root_hash(0, &vec![d]), d);
}

#[test]
fn test_two_blocks() {
    // returns the hash of a + b
    let a = Digest::new([b'a'; 32]);
    let b = Digest::new([b'b'; 32]);
    assert_eq!(
        root_hash(0, &vec![a, b]),
        Digest::new([
            253, 210, 166, 77, 1, 79, 44, 64, 109, 46, 206, 103, 194, 50, 18, 169, 43, 53, 99, 20,
            244, 222, 180, 43, 36, 195, 149, 41, 110, 227, 4, 210,
        ])
    );
}

#[test]
fn test_five_blocks() {
    // forms a merkle tree adding 3 zeroed Digests to complete the tree
    let a = Digest::new([b'a'; 32]);
    let b = Digest::new([b'b'; 32]);
    let c = Digest::new([b'c'; 32]);
    let d = Digest::new([b'd'; 32]);
    let e = Digest::new([b'e'; 32]);
    assert_eq!(
        root_hash(0, &vec![a, b, c, d, e]),
        Digest::new([
            222, 68, 145, 88, 43, 139, 111, 195, 30, 55, 91, 172, 218, 123, 131, 66, 207, 14, 90,
            238, 92, 245, 212, 7, 254, 132, 100, 221, 80, 132, 186, 238,
        ])
    );
}

#[test]
fn checksum_file_empty() {
    let piece_length = PieceLength::from_bytes(64 << 10).unwrap();
    let (f, pieces_layer) = checksum_file(piece_length, &[]);

    assert_eq!(
        f,
        File {
            length: 0,
            pieces_root: Digest::new([0; 32]),
        }
    );
    assert_eq!(pieces_layer, Vec::new());
}

#[test]
fn checksum_file_zeros() {
    const L: usize = 65 << 10;
    let input_file = [0u8; L];
    let piece_length = PieceLength::from_bytes(32 << 10).unwrap();
    let (f, pieces_layer) = checksum_file_multithreaded(piece_length, input_file.as_slice());
    assert_eq!(
        f,
        File {
            length: 65 << 10,
            pieces_root: Digest::new([
                230, 159, 27, 131, 197, 211, 213, 133, 84, 248, 147, 160, 97, 88, 105, 146, 81,
                144, 15, 69, 203, 145, 187, 180, 46, 23, 211, 74, 172, 184, 160, 31,
            ]),
        }
    );

    assert_eq!(
        pieces_layer,
        vec![
            Digest::new([
                195, 109, 13, 214, 168, 134, 225, 252, 231, 88, 182, 181, 197, 49, 183, 3, 161,
                242, 30, 143, 100, 83, 120, 92, 57, 9, 49, 207, 143, 168, 167, 109,
            ]),
            Digest::new([
                195, 109, 13, 214, 168, 134, 225, 252, 231, 88, 182, 181, 197, 49, 183, 3, 161,
                242, 30, 143, 100, 83, 120, 92, 57, 9, 49, 207, 143, 168, 167, 109,
            ]),
            Digest::new([
                118, 213, 104, 91, 215, 13, 55, 194, 193, 92, 75, 88, 26, 143, 165, 141, 178, 34,
                112, 190, 188, 193, 9, 178, 238, 100, 156, 170, 146, 39, 134, 82,
            ]),
        ]
    );
}

#[test]
fn checksum_file_lessthan_block() {
    let input_file = "test".as_bytes();
    let piece_length = PieceLength::from_bytes(32 << 10).unwrap();
    let (f, pieces_layer) = checksum_file_multithreaded(piece_length, input_file);
    assert_eq!(
        f,
        File {
            length: 4,
            pieces_root: Digest::new([
                159, 134, 208, 129, 136, 76, 125, 101, 154, 47, 234, 160, 197, 90, 208, 21, 163,
                191, 79, 27, 43, 11, 130, 44, 209, 93, 108, 21, 176, 240, 10, 8,
            ]),
        }
    );

    assert_eq!(pieces_layer, Vec::new());
}

#[test]
fn engines_agree_on_mixed_input() {
    // determinism: the sequential and parallel engines return identical
    // results for the same bytes and piece length
    let mut data = Vec::new();
    for i in 0..(70 << 10) as usize {
        data.push((i % 251) as u8);
    }
    let piece_length = PieceLength::from_bytes(16 << 10).unwrap();
    let seq = checksum_file(piece_length, data.as_slice());
    let par = checksum_file_multithreaded(piece_length, data.as_slice());
    assert_eq!(seq, par);
}

#[test]
fn empty_input_any_piece_length() {
    // zero-length input yields the zero root and no layer, whatever the
    // piece length
    for layers in [0u8, 1, 5, 20] {
        let (f, layer) = checksum_file(PieceLength { layers }, &[]);
        assert_eq!(f.length, 0);
        assert_eq!(f.pieces_root, Digest::new([0; 32]));
        assert!(layer.is_empty());
        let (f2, layer2) = checksum_file_multithreaded(PieceLength { layers }, &[]);
        assert_eq!(f, f2);
        assert_eq!(layer, layer2);
    }
}

#[test]
fn single_piece_exact_folds_into_root() {
    // input of exactly one piece: the sole piece digest is the pieces
    // root and no piece-digest list is returned
    let data = [7u8; 16384];
    let piece_length = PieceLength { layers: 0 };
    let (f, layer) = checksum_file(piece_length, data.as_slice());
    assert_eq!(f.length, 16384);
    assert!(layer.is_empty());

    let mut h = PieceV2Hasher::new(piece_length);
    h.update(data.as_slice());
    let piece_digest = h.finish();
    assert_eq!(f.pieces_root, piece_digest);
}

#[test]
fn sub_piece_uses_whole_tree_padding() {
    // a file shorter than one piece pads only to the next power of two,
    // which differs from the full-piece shape when the piece has layers
    let data = [9u8; 100];
    let piece_length = PieceLength { layers: 1 };
    let (f, layer) = checksum_file(piece_length, data.as_slice());
    assert!(layer.is_empty());

    let mut h = PieceV2Hasher::new(piece_length);
    h.update(data.as_slice());
    let first_piece = h.finish_first_piece();
    assert_eq!(f.pieces_root, first_piece);

    let mut h2 = PieceV2Hasher::new(piece_length);
    h2.update(data.as_slice());
    let full_piece = h2.finish();
    assert_ne!(f.pieces_root, full_piece);
}

#[test]
fn piece_hasher_reset_is_fresh() {
    // after finish, the hasher produces the same digest as a fresh one
    let data = [3u8; 20000];
    let piece_length = PieceLength { layers: 1 };
    let mut h = PieceV2Hasher::new(piece_length);
    h.update(data.as_slice());
    let first = h.finish();
    h.update(data.as_slice());
    let second = h.finish();
    assert_eq!(first, second);
}

#[test]
fn zero_root_doubles_by_layer() {
    // the padded root of an all-zero tree combines the previous layer
    // with itself
    let z0 = zero_root(0);
    assert_eq!(z0, Digest::default());
    let z1 = zero_root(1);
    let combined = root_hash(0, &vec![z0, z0]);
    assert_eq!(z1, combined);
}

//! Per-file checksum engines for torrent v2: a piece hasher composing the
//! block hasher with the merkle accumulator, a sequential driver, and a
//! parallel driver that partitions the input into independent piece ranges.

use vstd::prelude::*;
use vstd::arithmetic::power2::{pow2, lemma_pow2_pos, lemma_pow2_adds, lemma_pow2_strictly_increases};
use vstd::arithmetic::div_mod::{
    lemma_basic_div, lemma_div_is_ordered, lemma_div_multiples_vanish, lemma_fundamental_div_mod,
    lemma_fundamental_div_mod_converse, lemma_mod_bound,
};
use vstd::slice::slice_subrange;

use rayon::iter::{IndexedParallelIterator, IntoParallelIterator, ParallelIterator};

use crate::checksum::merkle::{
    self, digest_views, finish_target, padded_to, subtree_root, zero_root_spec,
};
use crate::checksum::sha256::{self, sha256_of, zero_digest, Digest};
use crate::metainfo::{piece_len_bytes, File, PieceLength};

verus! {

/// The fixed hashing granularity beneath a piece: 16KiB.
pub const BLOCK_SIZE: usize = 16384;

/// Number of blocks needed to hold `len` bytes (the last may be partial).
pub open spec fn block_count(len: nat) -> nat {
    (len + 16383) / 16384
}

/// The bytes of block `i`, clipped to the end of the data.
pub open spec fn block_at(data: Seq<u8>, i: int) -> Seq<u8> {
    data.subrange(
        16384 * i,
        if 16384 * (i + 1) <= data.len() {
            16384 * (i + 1)
        } else {
            data.len() as int
        },
    )
}

/// Digests of the completed 16KiB blocks of `data`.
pub open spec fn full_block_digests(data: Seq<u8>) -> Seq<Seq<u8>> {
    Seq::new(data.len() / 16384, |i: int| sha256_of(data.subrange(16384 * i, 16384 * (i + 1))))
}

/// Digests of all blocks of `data`, a trailing partial block included.
pub open spec fn block_digests(data: Seq<u8>) -> Seq<Seq<u8>> {
    Seq::new(block_count(data.len()), |i: int| sha256_of(block_at(data, i)))
}

/// The digest of one piece: the merkle root of its block digests, padded
/// with zero digests up to the full piece shape of 2^layers blocks.
pub open spec fn piece_root(data: Seq<u8>, layers: nat) -> Seq<u8> {
    subtree_root(padded_to(block_digests(data), zero_digest(), pow2(layers)))
}

/// The root of a file shorter than one piece: its sole incomplete piece is
/// padded only up to the next power of two, not to the full piece shape.
pub open spec fn sub_piece_root(data: Seq<u8>) -> Seq<u8> {
    subtree_root(
        padded_to(block_digests(data), zero_digest(), finish_target(block_count(data.len()))),
    )
}

/// Number of pieces needed to hold `len` bytes.
pub open spec fn piece_count(len: nat, layers: nat) -> nat {
    (((len + piece_len_bytes(layers) - 1) as int) / (piece_len_bytes(layers) as int)) as nat
}

/// The bytes of piece `i`, clipped to the end of the data.
pub open spec fn piece_at(data: Seq<u8>, layers: nat, i: int) -> Seq<u8> {
    let pb = piece_len_bytes(layers) as int;
    data.subrange(
        pb * i,
        if pb * (i + 1) <= data.len() {
            pb * (i + 1)
        } else {
            data.len() as int
        },
    )
}

/// The ordered piece digests of a file.
pub open spec fn piece_digests(data: Seq<u8>, layers: nat) -> Seq<Seq<u8>> {
    Seq::new(
        piece_count(data.len(), layers),
        |i: int| piece_root(piece_at(data, layers, i), layers),
    )
}

/// The file's pieces root: the zero digest for empty data, the padded root
/// of the sole incomplete piece for sub-piece data, and otherwise the
/// merkle root over the piece digests, padded with roots of all-zero
/// pieces.
pub open spec fn file_root(data: Seq<u8>, layers: nat) -> Seq<u8> {
    if data.len() == 0 {
        zero_digest()
    } else if data.len() < piece_len_bytes(layers) {
        sub_piece_root(data)
    } else {
        subtree_root(
            padded_to(
                piece_digests(data, layers),
                zero_root_spec(layers),
                finish_target(piece_count(data.len(), layers)),
            ),
        )
    }
}

/// The piece-digest list recorded for serialization: present only when the
/// file has more than one piece.
pub open spec fn layer_digests(data: Seq<u8>, layers: nat) -> Seq<Seq<u8>> {
    if piece_count(data.len(), layers) >= 2 {
        piece_digests(data, layers)
    } else {
        Seq::empty()
    }
}

/// Digests exactly one piece of a file: feeds 16KiB blocks through the
/// block hasher into a merkle accumulator. Its ghost view is the bytes
/// written since the last reset.
#[derive(Clone)]
pub struct PieceV2Hasher {
    piece_length: PieceLength,
    block_hasher: sha256::Hasher,
    merkle: merkle::Hasher,
    written: Ghost<Seq<u8>>,
}

impl PieceV2Hasher {
    /// The bytes written since the last reset.
    pub closed spec fn written(self) -> Seq<u8> {
        self.written@
    }

    pub closed spec fn piece_length(self) -> PieceLength {
        self.piece_length
    }

    /// The merkle accumulator holds the digests of the completed blocks,
    /// the block hasher the trailing partial block, and the total stays
    /// within one piece.
    pub closed spec fn wf(self) -> bool {
        &&& self.piece_length.layers <= 49
        &&& self.merkle.wf()
        &&& self.merkle.blocks() == full_block_digests(self.written@)
        &&& self.block_hasher@ == self.written@.skip(16384 * (self.written@.len() as int / 16384))
        &&& self.written@.len() <= piece_len_bytes(self.piece_length.layers as nat)
    }

    pub fn new(piece_length: PieceLength) -> (r: Self)
        requires
            piece_length.layers <= 49,
        ensures
            r.wf(),
            r.written() == Seq::<u8>::empty(),
            r.piece_length() == piece_length,
    {
        let r = PieceV2Hasher {
            piece_length,
            block_hasher: sha256::Hasher::new(),
            merkle: merkle::Hasher::new(),
            written: Ghost(Seq::empty()),
        };
        proof {
            assert(full_block_digests(Seq::<u8>::empty()) =~= Seq::<Seq<u8>>::empty());
            assert(Seq::<u8>::empty().skip(0) =~= Seq::<u8>::empty());
        }
        r
    }

    /// Resets the hasher, making it equivalent to a fresh one with the same
    /// piece length.
    pub fn reset(&mut self)
        requires
            old(self).wf(),
        ensures
            final(self).wf(),
            final(self).written() == Seq::<u8>::empty(),
            final(self).piece_length() == old(self).piece_length(),
    {
        self.block_hasher = sha256::Hasher::new();
        self.merkle.reset();
        proof {
            self.written@ = Seq::empty();
            assert(full_block_digests(Seq::<u8>::empty()) =~= Seq::<Seq<u8>>::empty());
            assert(Seq::<u8>::empty().skip(0) =~= Seq::<u8>::empty());
        }
    }

    /// The merkle accumulator never holds more block digests than fit in
    /// one piece.
    proof fn lemma_block_cap(self)
        requires
            self.wf(),
        ensures
            self.merkle.blocks().len() <= pow2(self.piece_length.layers as nat),
            pow2(self.piece_length.layers as nat) < pow2(255),
            block_count(self.written@.len()) <= pow2(self.piece_length.layers as nat),
    {
        let layers = self.piece_length.layers as nat;
        let w = self.written@.len() as int;
        lemma_pow2_adds(14, layers);
        assert(pow2(14) == 16384) by {
            vstd::arithmetic::power2::lemma2_to64();
        }
        // written <= 16384 * 2^layers
        assert(w <= 16384 * pow2(layers));
        lemma_div_is_ordered(w, 16384 * pow2(layers) as int, 16384);
        lemma_div_multiples_vanish(pow2(layers) as int, 16384);
        lemma_div_is_ordered(w + 16383, 16384 * pow2(layers) as int + 16383, 16384);
        lemma_fundamental_div_mod_converse(
            16384 * pow2(layers) as int + 16383,
            16384,
            pow2(layers) as int,
            16383,
        );
        lemma_pow2_strictly_increases(layers, 255);
    }

    /// Consumes input in order, splitting it into 16KiB-aligned chunks;
    /// whenever a chunk completes a block, the block's digest is fed into
    /// the merkle accumulator.
    pub fn update(&mut self, data: &[u8])
        requires
            old(self).wf(),
            old(self).written().len() + data@.len() <= piece_len_bytes(
                old(self).piece_length().layers as nat,
            ),
        ensures
            final(self).wf(),
            final(self).written() == old(self).written() + data@,
            final(self).piece_length() == old(self).piece_length(),
    {
        let len = data.len();
        let mut p: usize = 0;
        while p < len
            invariant
                self.wf(),
                self.piece_length() == old(self).piece_length(),
                0 <= p <= len,
                len == data@.len(),
                self.written@ == old(self).written() + data@.take(p as int),
                self.written@.len() + (len - p) <= piece_len_bytes(
                    self.piece_length().layers as nat,
                ),
            decreases len - p,
        {
            let ghost w = self.written@;
            let ghost nf = w.len() as int / 16384;
            proof {
                self.lemma_block_cap();
            }
            let pos = self.block_hasher.len();
            let needed = BLOCK_SIZE - pos;
            let avail = len - p;
            let n = if needed < avail {
                needed
            } else {
                avail
            };
            let chunk = slice_subrange(data, p, p + n);
            self.block_hasher.update(chunk);
            proof {
                self.written@ = self.written@ + chunk@;
            }
            let ghost w2 = self.written@;
            if pos + n == BLOCK_SIZE {
                proof {
                    // exactly one block completed
                    assert(w2.len() == 16384 * (nf + 1));
                    assert(w2.skip(16384 * nf) =~= w.skip(16384 * nf) + chunk@);
                }
                let d = self.block_hasher.finish();
                self.merkle.add_block(&d);
                proof {
                    assert(w2.len() as int / 16384 == nf + 1);
                    assert(d@ == sha256_of(w2.subrange(16384 * nf, 16384 * (nf + 1)))) by {
                        assert(w2.subrange(16384 * nf, 16384 * (nf + 1)) =~= w.skip(16384 * nf)
                            + chunk@);
                    }
                    assert forall|i: int| 0 <= i < nf implies full_block_digests(w2)[i]
                        == full_block_digests(w)[i] by {
                        assert(w2.subrange(16384 * i, 16384 * (i + 1)) =~= w.subrange(
                            16384 * i,
                            16384 * (i + 1),
                        ));
                    }
                    assert(full_block_digests(w2) =~= full_block_digests(w).push(d@));
                    assert(w2.skip(16384 * (w2.len() as int / 16384)) =~= Seq::<u8>::empty());
                }
            } else {
                proof {
                    assert(w2.len() == 16384 * nf + (pos + n));
                    assert(w2.len() as int / 16384 == nf);
                    assert forall|i: int| 0 <= i < nf implies full_block_digests(w2)[i]
                        == full_block_digests(w)[i] by {
                        assert(w2.subrange(16384 * i, 16384 * (i + 1)) =~= w.subrange(
                            16384 * i,
                            16384 * (i + 1),
                        ));
                    }
                    assert(full_block_digests(w2) =~= full_block_digests(w));
                    assert(w2.skip(16384 * nf) =~= w.skip(16384 * nf) + chunk@);
                }
            }
            p = p + n;
            proof {
                assert(old(self).written() + data@.take(p as int) =~= w2);
            }
        }
        proof {
            assert(data@.take(len as int) =~= data@);
        }
    }

    /// Folds any trailing partial block into the merkle accumulator, after
    /// which the accumulator holds the digests of every block of the bytes
    /// written, the last block partial if the length requires it.
    fn finish_block(&mut self)
        requires
            old(self).wf(),
        ensures
            final(self).piece_length == old(self).piece_length,
            final(self).written@ == old(self).written@,
            final(self).piece_length() == old(self).piece_length(),
            final(self).merkle.wf(),
            final(self).merkle.blocks() == block_digests(old(self).written@),
            final(self).block_hasher@.len() == 0,
    {
        let ghost w = self.written@;
        let ghost nf = w.len() as int / 16384;
        proof {
            self.lemma_block_cap();
        }
        let pos = self.block_hasher.len();
        if pos == 0 {
            proof {
                // no partial block: every block of the input is complete
                assert(w.len() == 16384 * nf);
                assert(block_digests(w) =~= full_block_digests(w));
            }
        } else {
            let d = self.block_hasher.finish();
            self.merkle.add_block(&d);
            proof {
                assert(d@ == sha256_of(block_at(w, nf))) by {
                    assert(block_at(w, nf) =~= w.skip(16384 * nf));
                }
                assert(block_digests(w) =~= full_block_digests(w).push(d@));
            }
        }
    }

    /// Returns the digest of the piece written so far and resets the hasher
    /// for the next piece: the block digests are padded with zero digests
    /// up to the full piece shape of 2^layers blocks. A piece never holds
    /// more blocks than that, so the digest always exists.
    pub fn finish(&mut self) -> (r: Digest)
        requires
            old(self).wf(),
        ensures
            final(self).wf(),
            final(self).written() == Seq::<u8>::empty(),
            final(self).piece_length() == old(self).piece_length(),
            r@ == piece_root(old(self).written(), old(self).piece_length().layers as nat),
    {
        proof {
            self.lemma_block_cap();
        }
        self.finish_block();
        let zero = Digest::zero();
        let layers = self.piece_length.layers;
        let opt = self.merkle.finish_layer(&zero, layers);
        proof {
            assert(block_digests(old(self).written@).len() == block_count(
                old(self).written@.len(),
            ));
            assert(opt is Some);
        }
        let r = opt.unwrap();
        proof {
            self.written@ = Seq::empty();
            assert(self.block_hasher@ =~= Seq::<u8>::empty());
            assert(full_block_digests(Seq::<u8>::empty()) =~= Seq::<Seq<u8>>::empty());
            assert(Seq::<u8>::empty().skip(0) =~= Seq::<u8>::empty());
        }
        r
    }

    /// Used only when the whole file is shorter than one piece: pads the
    /// block digests up to the next power of two instead of the full piece
    /// shape, because a sole incomplete piece has no declared layer. The
    /// result is the file's pieces root directly.
    pub fn finish_first_piece(&mut self) -> (r: Digest)
        requires
            old(self).wf(),
        ensures
            final(self).wf(),
            final(self).written() == Seq::<u8>::empty(),
            final(self).piece_length() == old(self).piece_length(),
            r@ == sub_piece_root(old(self).written()),
    {
        proof {
            self.lemma_block_cap();
        }
        self.finish_block();
        let zero = Digest::zero();
        let r = self.merkle.finish_tree(&zero);
        proof {
            assert(block_digests(old(self).written@).len() == block_count(
                old(self).written@.len(),
            ));
            self.written@ = Seq::empty();
            assert(self.block_hasher@ =~= Seq::<u8>::empty());
            assert(full_block_digests(Seq::<u8>::empty()) =~= Seq::<Seq<u8>>::empty());
            assert(Seq::<u8>::empty().skip(0) =~= Seq::<u8>::empty());
        }
        r
    }
}

proof fn lemma_digest_views_push(s: Seq<Digest>, d: Digest)
    ensures
        digest_views(s.push(d)) == digest_views(s).push(d@),
{
    assert forall|j: int| 0 <= j < s.len() + 1 implies digest_views(s.push(d))[j] == digest_views(
        s,
    ).push(d@)[j] by {
        if j < s.len() {
            assert(s.push(d)[j] == s[j]);
        } else {
            assert(s.push(d)[j] == d);
        }
    }
    assert(digest_views(s.push(d)) =~= digest_views(s).push(d@));
}

/// Relates the engines' piece counting to ceiling division: for `i` below
/// the piece count, piece `i` starts inside the data.
proof fn lemma_piece_index(len: nat, pb: nat, i: nat)
    requires
        pb >= 1,
        i < (len + pb - 1) as int / pb as int,
    ensures
        pb * i < len,
{
    let c = (len + pb - 1) as int / pb as int;
    lemma_fundamental_div_mod((len + pb - 1) as int, pb as int);
    lemma_mod_bound((len + pb - 1) as int, pb as int);
    assert(pb * c <= len + pb - 1);
    assert(pb * (i + 1) <= pb * c) by (nonlinear_arith)
        requires
            i + 1 <= c,
            pb >= 1,
    ;
    assert(pb * (i + 1) == pb * i + pb) by (nonlinear_arith);
}

/// Computes the number of pieces needed to hold `len` bytes.
fn num_pieces(len: usize, pb: u64) -> (r: u64)
    requires
        pb >= 1,
    ensures
        r == (len + pb - 1) as int / pb as int,
        r <= len,
{
    let l = len as u64;
    let q = l / pb;
    let m = l % pb;
    proof {
        lemma_fundamental_div_mod(l as int, pb as int);
        lemma_mod_bound(l as int, pb as int);
        if m > 0 {
            assert(pb * (q as int + 1) == pb * q + pb) by (nonlinear_arith);
            lemma_fundamental_div_mod_converse(
                (len + pb - 1) as int,
                pb as int,
                q as int + 1,
                m as int - 1,
            );
            assert(q as int + 1 <= len) by (nonlinear_arith)
                requires
                    len == pb * q + m,
                    pb >= 1,
                    m >= 1,
                    q >= 0,
            ;
        } else {
            lemma_fundamental_div_mod_converse(
                (len + pb - 1) as int,
                pb as int,
                q as int,
                pb as int - 1,
            );
            assert(q as int <= len) by (nonlinear_arith)
                requires
                    len == pb * q,
                    pb >= 1,
                    q >= 0,
            ;
        }
    }
    if m > 0 {
        q + 1
    } else {
        q
    }
}

/// Digests the piece with the given index of a file held in memory.
pub fn hash_piece_at(data: &[u8], piece_length: PieceLength, idx: usize) -> (r: Digest)
    requires
        piece_length.layers <= 49,
        idx < piece_count(data@.len(), piece_length.layers as nat),
    ensures
        r@ == piece_digests(data@, piece_length.layers as nat)[idx as int],
{
    let ghost layers = piece_length.layers as nat;
    let pb = piece_length.bytes();
    let dlen = data.len();
    proof {
        lemma_piece_index(data@.len(), pb as nat, idx as nat);
        assert(pb * (idx as int + 1) == pb * idx + pb) by (nonlinear_arith);
        assert(pb * idx == (idx as u64) as int * pb as int) by (nonlinear_arith);
    }
    let start = (idx as u64) * pb;
    let start_us = start as usize;
    let rem = dlen - start_us;
    let n = if pb <= rem as u64 {
        pb as usize
    } else {
        rem
    };
    let piece = slice_subrange(data, start_us, start_us + n);
    proof {
        assert(piece@ =~= piece_at(data@, layers, idx as int));
    }
    let mut h = PieceV2Hasher::new(piece_length);
    h.update(piece);
    proof {
        assert(Seq::<u8>::empty() + piece@ =~= piece@);
    }
    h.finish()
}

/// Relies on rayon's indexed parallel iterator over the piece indexes:
/// `map` applies the verified per-piece hash to each index and `collect`
/// gathers the results in index order, whatever order the workers ran in,
/// so the list equals the piece digests computed sequentially.
#[verifier::external_body]
fn par_piece_digests(data: &[u8], piece_length: PieceLength, count: usize, batch: usize) -> (r:
    Vec<Digest>)
    requires
        piece_length.layers <= 49,
        count == piece_count(data@.len(), piece_length.layers as nat),
        batch >= 1,
    ensures
        digest_views(r@) == piece_digests(data@, piece_length.layers as nat),
{
    (0..count).into_par_iter().with_min_len(batch).map(
        |idx| hash_piece_at(data, piece_length, idx),
    ).collect()
}

/// Determinism: the sequential and the parallel engine both return the
/// result pinned by `file_root` and `layer_digests`, so for any byte
/// sequence and piece length their results coincide.
pub proof fn lemma_engines_agree(
    data: Seq<u8>,
    layers: nat,
    seq_root: Seq<u8>,
    seq_layers: Seq<Seq<u8>>,
    par_root: Seq<u8>,
    par_layers: Seq<Seq<u8>>,
)
    requires
        seq_root == file_root(data, layers),
        seq_layers == layer_digests(data, layers),
        par_root == file_root(data, layers),
        par_layers == layer_digests(data, layers),
    ensures
        seq_root == par_root,
        seq_layers == par_layers,
{
}

/// Empty input yields the zero pieces root and an empty piece-digest list,
/// for any piece length.
pub proof fn lemma_empty_input(layers: nat)
    ensures
        file_root(Seq::empty(), layers) == zero_digest(),
        layer_digests(Seq::empty(), layers) == Seq::<Seq<u8>>::empty(),
{
    lemma_pow2_pos(layers + 14);
    lemma_basic_div(piece_len_bytes(layers) as int - 1, piece_len_bytes(layers) as int);
}

/// Input of exactly one piece yields a single piece digest that is itself
/// the file's pieces root, and no piece-digest list is recorded.
pub proof fn lemma_single_piece_exact(data: Seq<u8>, layers: nat)
    requires
        data.len() == piece_len_bytes(layers),
    ensures
        piece_digests(data, layers) == seq![piece_root(data, layers)],
        file_root(data, layers) == piece_root(data, layers),
        layer_digests(data, layers) == Seq::<Seq<u8>>::empty(),
{
    let pb = piece_len_bytes(layers) as int;
    lemma_pow2_pos(layers + 14);
    lemma_fundamental_div_mod_converse(2 * pb - 1, pb, 1, pb - 1);
    assert(piece_count(data.len(), layers) == 1);
    assert(piece_at(data, layers, 0) =~= data);
    assert(piece_digests(data, layers) =~= seq![piece_root(data, layers)]);
    assert(pow2(0) == 1) by {
        vstd::arithmetic::power2::lemma2_to64();
    }
    assert(merkle::clog2(1) == 0);
    assert(padded_to(piece_digests(data, layers), zero_root_spec(layers), 1) =~= seq![
        piece_root(data, layers),
    ]);
    assert(subtree_root(seq![piece_root(data, layers)]) == piece_root(data, layers));
}

/// Input shorter than one piece yields a pieces root computed by padding
/// the whole tree to a single root, and no piece-digest list.
pub proof fn lemma_sub_piece(data: Seq<u8>, layers: nat)
    requires
        0 < data.len() < piece_len_bytes(layers),
    ensures
        file_root(data, layers) == sub_piece_root(data),
        layer_digests(data, layers) == Seq::<Seq<u8>>::empty(),
{
    let pb = piece_len_bytes(layers) as int;
    lemma_pow2_pos(layers + 14);
    lemma_fundamental_div_mod_converse(
        data.len() + pb - 1,
        pb,
        1,
        data.len() as int - 1,
    );
    assert(piece_count(data.len(), layers) == 1);
}

/// Produces the file metainfo and the piece-digest list for serialization,
/// reading the pieces strictly in order. The list is returned only when
/// the file has more than one piece; a single-piece result folds into the
/// pieces root.
pub fn checksum_file(piece_length: PieceLength, data: &[u8]) -> (r: (File, Vec<Digest>))
    requires
        piece_length.layers <= 49,
    ensures
        r.0.length == data@.len(),
        r.0.pieces_root@ == file_root(data@, piece_length.layers as nat),
        digest_views(r.1@) == layer_digests(data@, piece_length.layers as nat),
{
    let ghost layers = piece_length.layers as nat;
    let pb = piece_length.bytes();
    if data.len() == 0 {
        let f = File { length: 0, pieces_root: Digest::zero() };
        proof {
            lemma_basic_div((pb - 1) as int, pb as int);
            assert(digest_views(Seq::<Digest>::empty()) =~= Seq::<Seq<u8>>::empty());
        }
        return (f, Vec::new());
    }
    if (data.len() as u64) < pb {
        // the sole piece is incomplete: its padded root is the file root
        let mut h = PieceV2Hasher::new(piece_length);
        h.update(data);
        proof {
            assert(Seq::<u8>::empty() + data@ =~= data@);
        }
        let root = h.finish_first_piece();
        proof {
            lemma_fundamental_div_mod_converse(
                (data@.len() + pb - 1) as int,
                pb as int,
                1,
                data@.len() as int - 1,
            );
            assert(digest_views(Seq::<Digest>::empty()) =~= Seq::<Seq<u8>>::empty());
        }
        return (File { length: data.len() as u64, pieces_root: root }, Vec::new());
    }
    let count64 = num_pieces(data.len(), pb);
    let count = count64 as usize;
    let mut digests: Vec<Digest> = Vec::new();
    let mut i: usize = 0;
    proof {
        assert(digest_views(Seq::<Digest>::empty()) =~= piece_digests(data@, layers).take(0));
    }
    while i < count
        invariant
            piece_length.layers <= 49,
            layers == piece_length.layers as nat,
            count == piece_count(data@.len(), layers),
            0 <= i <= count,
            digest_views(digests@) == piece_digests(data@, layers).take(i as int),
        decreases count - i,
    {
        let d = hash_piece_at(data, piece_length, i);
        let ghost pre = digests@;
        digests.push(d);
        proof {
            lemma_digest_views_push(pre, d);
            assert(piece_digests(data@, layers).take(i as int).push(
                piece_digests(data@, layers)[i as int],
            ) =~= piece_digests(data@, layers).take(i + 1));
        }
        i += 1;
    }
    proof {
        assert(piece_digests(data@, layers).take(count as int) =~= piece_digests(data@, layers));
    }
    let root = merkle::root_hash(piece_length.layers, &digests);
    let f = File { length: data.len() as u64, pieces_root: root };
    if count > 1 {
        (f, digests)
    } else {
        proof {
            assert(digest_views(Seq::<Digest>::empty()) =~= Seq::<Seq<u8>>::empty());
        }
        (f, Vec::new())
    }
}

/// Produces the same result as `checksum_file` by partitioning the data
/// into independent piece ranges and hashing them concurrently. Files
/// with at most one piece are delegated to the sequential engine.
pub fn checksum_file_multithreaded(piece_length: PieceLength, data: &[u8]) -> (r: (
    File,
    Vec<Digest>,
))
    requires
        piece_length.layers <= 49,
    ensures
        r.0.length == data@.len(),
        r.0.pieces_root@ == file_root(data@, piece_length.layers as nat),
        digest_views(r.1@) == layer_digests(data@, piece_length.layers as nat),
{
    let ghost layers = piece_length.layers as nat;
    let pb = piece_length.bytes();
    let count64 = num_pieces(data.len(), pb);
    if count64 <= 1 {
        return checksum_file(piece_length, data);
    }
    // group pieces into batches of roughly 128MiB as a throughput tuning;
    // the result does not depend on it
    let batch64 = 134217728u64 / pb;
    proof {
        assert(batch64 <= 8192) by (nonlinear_arith)
            requires
                batch64 == 134217728int / pb as int,
                pb >= 16384,
        {
            lemma_fundamental_div_mod(134217728, pb as int);
            lemma_mod_bound(134217728, pb as int);
        }
    }
    let batch = if batch64 == 0 {
        1
    } else {
        batch64 as usize
    };
    let count = count64 as usize;
    let digests = par_piece_digests(data, piece_length, count, batch);
    proof {
        // more than one piece: the data is longer than one piece
        lemma_fundamental_div_mod((data@.len() + pb - 1) as int, pb as int);
        lemma_mod_bound((data@.len() + pb - 1) as int, pb as int);
        assert(data@.len() >= pb) by (nonlinear_arith)
            requires
                data@.len() + pb - 1 == pb * count64 + ((data@.len() + pb - 1) as int % pb as int),
                (data@.len() + pb - 1) as int % pb as int >= 0,
                count64 >= 2,
                pb >= 1,
        ;
        assert(digest_views(digests@).len() == digests@.len());
        assert(digests@.len() == piece_count(data@.len(), layers));
    }
    let root = merkle::root_hash(piece_length.layers, &digests);
    (File { length: data.len() as u64, pieces_root: root }, digests)
}

} // verus!

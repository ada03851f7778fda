//! The in-memory torrent model defined in BEP 0052: the file tree, the
//! piece-length codec, the piece-digest registry, and the canonical
//! bencode serialization of the whole.

use vstd::prelude::*;
use vstd::arithmetic::power2::{pow2, lemma_pow2_pos, lemma_pow2_adds, lemma_pow2_strictly_increases};
use vstd::bits::{lemma_u64_shl_is_mul, lemma_u64_pow2_no_overflow};

use vstd::string::StringSliceAdditionalSpecFns;
use vstd::utf8::encode_utf8;

use crate::bencode::{bint, bstr, push_bint, push_bstr};
use crate::checksum::sha256::{zero_digest, Digest};

verus! {

/// Piece size in bytes for a piece-length exponent: 16384 * 2^layers.
pub open spec fn piece_len_bytes(layers: nat) -> nat {
    pow2(layers + 14)
}

/// The piece length of a v2 torrent, measured as the number of merkle
/// layers between a 16KiB block and a full piece.
#[derive(Clone, Copy, Debug, PartialEq, Eq, PartialOrd, Ord, Structural)]
pub struct PieceLength {
    pub layers: u8,
}

impl PieceLength {
    /// Takes a number of bytes and returns a piece length. Returns None
    /// unless the count is a power of two of at least 16KiB (2^14).
    pub fn from_bytes(n: u64) -> (r: Option<Self>)
        ensures
            match r {
                Some(pl) => pl.layers <= 49 && n == piece_len_bytes(pl.layers as nat),
                None => !(exists|k: nat| k >= 14 && n == pow2(k)),
            },
    {
        match log2(n) {
            Some(c) => {
                if c >= 14 {
                    Some(PieceLength { layers: c - 14 })
                } else {
                    proof {
                        if exists|k: nat| k >= 14 && n == pow2(k) {
                            let k = choose|k: nat| k >= 14 && n == pow2(k);
                            lemma_pow2_strictly_increases(c as nat, k);
                        }
                    }
                    None
                }
            },
            None => None,
        }
    }

    pub fn bytes(&self) -> (r: u64)
        requires
            self.layers <= 49,
        ensures
            r == piece_len_bytes(self.layers as nat),
            r >= 16384,
    {
        proof {
            lemma_u64_pow2_no_overflow(self.layers as nat + 14);
            lemma_u64_shl_is_mul(1u64, (self.layers + 14) as u64);
            lemma_pow2_pos(self.layers as nat + 14);
            assert(pow2(14) == 16384) by {
                vstd::arithmetic::power2::lemma2_to64();
            }
            if self.layers > 0 {
                lemma_pow2_strictly_increases(14, self.layers as nat + 14);
            }
        }
        1u64 << (self.layers as u64 + 14)
    }
}

impl Default for PieceLength {
    fn default() -> (r: Self)
        ensures
            r.layers == 0,
    {
        PieceLength { layers: 0 }
    }
}

/// Returns log2 of the number if and only if it is a perfect power of two.
fn log2(n: u64) -> (r: Option<u8>)
    ensures
        match r {
            Some(c) => c <= 63 && n == pow2(c as nat),
            None => !(exists|k: nat| n == pow2(k)),
        },
{
    if n == 0 {
        proof {
            if exists|k: nat| n == pow2(k) {
                let k = choose|k: nat| n == pow2(k);
                lemma_pow2_pos(k);
            }
        }
        return None;
    }
    let mut m = n;
    let mut count: u8 = 0;
    proof {
        assert(pow2(0) == 1) by {
            vstd::arithmetic::power2::lemma2_to64();
        }
    }
    while m & 1 != 1
        invariant
            m >= 1,
            count <= 63,
            n == m * pow2(count as nat),
        decreases m,
    {
        proof {
            assert(m & 1 == m % 2) by (bit_vector);
            assert(m >> 1 == m / 2) by (bit_vector);
            // m is even, so another doubling still fits below 2^64
            assert(m / 2 >= 1);
            lemma_pow2_adds(count as nat, 1);
            assert(pow2(1) == 2) by {
                vstd::arithmetic::power2::lemma2_to64();
            }
            assert((m / 2) * pow2(count as nat + 1) == m * pow2(count as nat)) by (nonlinear_arith)
                requires
                    m % 2 == 0,
                    pow2(count as nat + 1) == 2 * pow2(count as nat),
            ;
            assert(count + 1 <= 63) by {
                if count as nat + 1 > 63 {
                    assert(count as nat + 1 == 64);
                    assert(pow2(64) == 0x10000000000000000) by {
                        vstd::arithmetic::power2::lemma2_to64_rest();
                    }
                    assert((m / 2) * pow2(64) >= pow2(64)) by (nonlinear_arith)
                        requires
                            m / 2 >= 1,
                    ;
                }
            }
        }
        m >>= 1;
        count = count + 1;
    }
    // m is odd; n is a power of two exactly when m == 1
    if m >> 1 == 0 {
        proof {
            assert(m >> 1 == m / 2) by (bit_vector);
            assert(m == 1);
        }
        Some(count)
    } else {
        proof {
            assert(m >> 1 == m / 2) by (bit_vector);
            assert(m & 1 == m % 2) by (bit_vector);
            assert(m >= 3);
            if exists|k: nat| n == pow2(k) {
                let k = choose|k: nat| n == pow2(k);
                lemma_pow2_pos(count as nat);
                if k <= count as nat {
                    lemma_pow2_le(k, count as nat);
                    assert(m * pow2(count as nat) > pow2(count as nat)) by (nonlinear_arith)
                        requires
                            m >= 3,
                            pow2(count as nat) >= 1,
                    ;
                } else {
                    lemma_pow2_adds(count as nat, (k - count) as nat);
                    assert(pow2(k) == pow2(count as nat) * pow2((k - count) as nat));
                    assert(m == pow2((k - count) as nat)) by (nonlinear_arith)
                        requires
                            n == m * pow2(count as nat),
                            n == pow2(k),
                            pow2(k) == pow2(count as nat) * pow2((k - count) as nat),
                            pow2(count as nat) >= 1,
                    ;
                    lemma_pow2_adds((k - count - 1) as nat, 1);
                    assert(pow2(1) == 2) by {
                        vstd::arithmetic::power2::lemma2_to64();
                    }
                    assert(m % 2 == 0) by (nonlinear_arith)
                        requires
                            m == pow2((k - count - 1) as nat) * 2,
                    ;
                }
            }
        }
        None
    }
}

proof fn lemma_pow2_le(e1: nat, e2: nat)
    requires
        e1 <= e2,
    ensures
        pow2(e1) <= pow2(e2),
{
    if e1 < e2 {
        lemma_pow2_strictly_increases(e1, e2);
    }
}

/// The metainfo of a single file: its length and the merkle root over its
/// piece digests. The root is the zero digest exactly when the length is 0.
#[derive(Clone, Copy, Debug, PartialEq, Eq)]
pub struct File {
    pub length: u64,
    pub pieces_root: Digest,
}

impl Default for File {
    fn default() -> (r: Self)
        ensures
            r.length == 0,
            r.pieces_root@ == zero_digest(),
    {
        File { length: 0, pieces_root: Digest::zero() }
    }
}

/// Strict lexicographic order on byte strings, the canonical bencode key
/// order.
pub open spec fn lex_lt(a: Seq<u8>, b: Seq<u8>) -> bool
    decreases a.len(),
{
    if b.len() == 0 {
        false
    } else if a.len() == 0 {
        true
    } else if a[0] < b[0] {
        true
    } else if a[0] > b[0] {
        false
    } else {
        lex_lt(a.drop_first(), b.drop_first())
    }
}

/// Byte strings that agree on their first byte and on the rest are equal.
proof fn lemma_eq_from_head_tail(a: Seq<u8>, b: Seq<u8>)
    requires
        a.len() > 0,
        b.len() > 0,
        a[0] == b[0],
        a.drop_first() == b.drop_first(),
    ensures
        a == b,
{
    assert(a.drop_first().len() == a.len() - 1);
    assert(b.drop_first().len() == b.len() - 1);
    assert(a.len() == b.len());
    assert forall|i: int| 0 <= i < a.len() implies a[i] == b[i] by {
        if i > 0 {
            assert(a.subrange(1, a.len() as int)[i - 1] == a[i]);
            assert(b.subrange(1, b.len() as int)[i - 1] == b[i]);
            assert(a.drop_first()[i - 1] == b.drop_first()[i - 1]);
        }
    }
    assert(a =~= b);
}

/// Two byte strings are equal, or one is lexicographically below the other.
pub proof fn lemma_lex_trichotomy(a: Seq<u8>, b: Seq<u8>)
    ensures
        lex_lt(a, b) || lex_lt(b, a) || a == b,
    decreases a.len(),
{
    if a.len() == 0 && b.len() == 0 {
        assert(a =~= b);
    } else if a.len() != 0 && b.len() != 0 && a[0] == b[0] {
        lemma_lex_trichotomy(a.drop_first(), b.drop_first());
        if a.drop_first() == b.drop_first() {
            lemma_eq_from_head_tail(a, b);
        }
    }
}

pub proof fn lemma_lex_asymmetric(a: Seq<u8>, b: Seq<u8>)
    requires
        lex_lt(a, b),
    ensures
        !lex_lt(b, a),
        a != b,
    decreases a.len(),
{
    if a.len() != 0 && b.len() != 0 && a[0] == b[0] {
        lemma_lex_asymmetric(a.drop_first(), b.drop_first());
        if a == b {
            assert(a.drop_first() =~= b.drop_first());
        }
    } else if a.len() == 0 {
        if a == b {
            assert(b.len() == 0);
        }
    }
}

pub proof fn lemma_lex_transitive(a: Seq<u8>, b: Seq<u8>, c: Seq<u8>)
    requires
        lex_lt(a, b),
        lex_lt(b, c),
    ensures
        lex_lt(a, c),
    decreases a.len(),
{
    if a.len() != 0 && b.len() != 0 && c.len() != 0 && a[0] == b[0] && b[0] == c[0] {
        lemma_lex_transitive(a.drop_first(), b.drop_first(), c.drop_first());
    }
}

/// Comparison outcome for byte strings.
#[derive(Clone, Copy, Debug, PartialEq, Eq, Structural)]
pub enum NameOrder {
    Before,
    Same,
    After,
}

/// Compares two byte strings in lexicographic order.
pub fn name_cmp(a: &[u8], b: &[u8]) -> (r: NameOrder)
    ensures
        r == NameOrder::Before <==> lex_lt(a@, b@),
        r == NameOrder::Same <==> a@ == b@,
        r == NameOrder::After <==> lex_lt(b@, a@),
{
    let mut i: usize = 0;
    proof {
        assert(a@.skip(0) =~= a@);
        assert(b@.skip(0) =~= b@);
    }
    while i < a.len() && i < b.len()
        invariant
            0 <= i <= a@.len(),
            0 <= i <= b@.len(),
            forall|j: int| 0 <= j < i ==> a@[j] == b@[j],
            lex_lt(a@, b@) == lex_lt(a@.skip(i as int), b@.skip(i as int)),
            lex_lt(b@, a@) == lex_lt(b@.skip(i as int), a@.skip(i as int)),
            (a@ == b@) == (a@.skip(i as int) == b@.skip(i as int)),
        decreases a@.len() - i,
    {
        let x = a[i];
        let y = b[i];
        if x < y {
            proof {
                lemma_lex_asymmetric(a@.skip(i as int), b@.skip(i as int));
            }
            return NameOrder::Before;
        }
        if x > y {
            proof {
                lemma_lex_asymmetric(b@.skip(i as int), a@.skip(i as int));
            }
            return NameOrder::After;
        }
        proof {
            assert(a@.skip(i as int).drop_first() =~= a@.skip(i + 1));
            assert(b@.skip(i as int).drop_first() =~= b@.skip(i + 1));
            if a@.skip(i as int) == b@.skip(i as int) {
                assert(a@.skip(i + 1) =~= b@.skip(i + 1));
            }
            if a@.skip(i + 1) == b@.skip(i + 1) {
                lemma_eq_from_head_tail(a@.skip(i as int), b@.skip(i as int));
            }
        }
        i += 1;
    }
    proof {
        if a@.len() == b@.len() {
            assert(a@.skip(i as int).len() == 0);
            assert(b@.skip(i as int).len() == 0);
            assert(a@.skip(i as int) =~= b@.skip(i as int));
        } else {
            lemma_lex_asymmetric(
                if a@.len() < b@.len() {
                    a@.skip(i as int)
                } else {
                    b@.skip(i as int)
                },
                if a@.len() < b@.len() {
                    b@.skip(i as int)
                } else {
                    a@.skip(i as int)
                },
            );
        }
    }
    if a.len() == b.len() {
        NameOrder::Same
    } else if a.len() < b.len() {
        NameOrder::Before
    } else {
        NameOrder::After
    }
}

/// The mathematical shape of a file tree: a file's length and pieces root,
/// or a directory's named children in stored order.
pub ghost enum Node {
    Dir(Seq<(Seq<u8>, Node)>),
    File(u64, Seq<u8>),
}

/// A tagged union of the two things a path can name.
#[derive(Debug)]
pub enum PathElement {
    Directory(Directory),
    File(File),
}

/// An ordered-by-name mapping from path-segment name to element. Names are
/// the UTF-8 bytes of the segments; the entries are kept strictly sorted.
#[derive(Debug)]
pub struct Directory {
    pub entries: Vec<(Vec<u8>, PathElement)>,
}

impl Default for Directory {
    fn default() -> (r: Self)
        ensures
            r@ == Seq::<(Seq<u8>, Node)>::empty(),
    {
        let d = Directory { entries: Vec::new() };
        proof {
            assert(entries_view(d.entries@) =~= Seq::<(Seq<u8>, Node)>::empty());
        }
        d
    }
}

pub open spec fn entries_view(s: Seq<(Vec<u8>, PathElement)>) -> Seq<(Seq<u8>, Node)>
    decreases s,
{
    if s.len() == 0 {
        Seq::empty()
    } else {
        seq![(s[0].0@, s[0].1@)] + entries_view(s.drop_first())
    }
}

impl View for PathElement {
    type V = Node;

    open spec fn view(&self) -> Node
        decreases self,
    {
        match self {
            PathElement::Directory(d) => Node::Dir(entries_view(d.entries@)),
            PathElement::File(f) => Node::File(f.length, f.pieces_root@),
        }
    }
}

impl View for Directory {
    type V = Seq<(Seq<u8>, Node)>;

    open spec fn view(&self) -> Seq<(Seq<u8>, Node)> {
        entries_view(self.entries@)
    }
}

pub proof fn lemma_entries_view(s: Seq<(Vec<u8>, PathElement)>)
    ensures
        entries_view(s).len() == s.len(),
        forall|i: int|
            0 <= i < s.len() ==> #[trigger] entries_view(s)[i] == (s[i].0@, s[i].1@),
    decreases s.len(),
{
    if s.len() == 0 {
        assert(entries_view(s) == Seq::<(Seq<u8>, Node)>::empty());
    } else {
        lemma_entries_view(s.drop_first());
        assert(entries_view(s) == seq![(s[0].0@, s[0].1@)] + entries_view(s.drop_first()));
        assert(entries_view(s).len() == s.len());
        assert forall|i: int| 0 <= i < s.len() implies #[trigger] entries_view(s)[i] == (
        s[i].0@,
        s[i].1@,
        ) by {
            if i > 0 {
                assert(entries_view(s)[i] == entries_view(s.drop_first())[i - 1]);
                assert(s.drop_first()[i - 1] == s[i]);
            }
        }
    }
}

/// Directory entries are strictly sorted by name and the children are
/// themselves well-formed.
pub open spec fn dir_entries_wf(es: Seq<(Seq<u8>, Node)>) -> bool
    decreases es,
{
    &&& forall|i: int, j: int|
        0 <= i < j < es.len() ==> lex_lt((#[trigger] es[i]).0, (#[trigger] es[j]).0)
    &&& forall|i: int| 0 <= i < es.len() ==> node_wf((#[trigger] es[i]).1)
}

pub open spec fn node_wf(n: Node) -> bool
    decreases n,
{
    match n {
        Node::Dir(es) => dir_entries_wf(es),
        Node::File(_, _) => true,
    }
}

proof fn lemma_lex_irreflexive(a: Seq<u8>)
    ensures
        !lex_lt(a, a),
    decreases a.len(),
{
    if a.len() > 0 {
        lemma_lex_irreflexive(a.drop_first());
    }
}

/// The position at which `name` sits, or would be inserted, in a run of
/// entries: the number of leading entries whose names are below it.
pub open spec fn entry_index(es: Seq<(Seq<u8>, Node)>, name: Seq<u8>) -> int
    decreases es.len(),
{
    if es.len() == 0 {
        0
    } else if lex_lt(es[0].0, name) {
        1 + entry_index(es.drop_first(), name)
    } else {
        0
    }
}

proof fn lemma_entry_index_bounds(es: Seq<(Seq<u8>, Node)>, name: Seq<u8>)
    ensures
        0 <= entry_index(es, name) <= es.len(),
        forall|k: int| 0 <= k < entry_index(es, name) ==> lex_lt((#[trigger] es[k]).0, name),
        entry_index(es, name) < es.len() ==> !lex_lt(es[entry_index(es, name)].0, name),
    decreases es.len(),
{
    if es.len() > 0 {
        lemma_entry_index_bounds(es.drop_first(), name);
        if lex_lt(es[0].0, name) {
            let p = entry_index(es, name);
            assert forall|k: int| 0 <= k < p implies lex_lt((#[trigger] es[k]).0, name) by {
                if k > 0 {
                    assert(es.drop_first()[k - 1] == es[k]);
                }
            }
            if p < es.len() {
                assert(es.drop_first()[p - 1] == es[p]);
            }
        }
    }
}

/// The same index, produced by a linear scan of the stored entries.
proof fn lemma_entry_index_from_scan(es: Seq<(Seq<u8>, Node)>, name: Seq<u8>, j: int)
    requires
        0 <= j <= es.len(),
        forall|k: int| 0 <= k < j ==> lex_lt((#[trigger] es[k]).0, name),
        j < es.len() ==> !lex_lt(es[j].0, name),
    ensures
        entry_index(es, name) == j,
    decreases es.len(),
{
    if es.len() > 0 {
        if j == 0 {
        } else {
            assert(lex_lt(es[0].0, name));
            assert forall|k: int| 0 <= k < j - 1 implies lex_lt(
                (#[trigger] es.drop_first()[k]).0,
                name,
            ) by {
                assert(es.drop_first()[k] == es[k + 1]);
            }
            if j - 1 < es.drop_first().len() {
                assert(es.drop_first()[j - 1] == es[j]);
            }
            lemma_entry_index_from_scan(es.drop_first(), name, j - 1);
        }
    }
}

/// Inserts a file at the path `segs[i..]` below a run of entries: missing
/// intermediate directories are created, an existing element at the full
/// path or a file in the middle of it is a conflict and yields None.
pub open spec fn tree_insert(es: Seq<(Seq<u8>, Node)>, segs: Seq<Seq<u8>>, i: int, f: Node) -> Option<
    Seq<(Seq<u8>, Node)>,
>
    decreases segs.len() - i,
{
    if i < 0 || i >= segs.len() {
        None
    } else {
        let pos = entry_index(es, segs[i]);
        let found = pos < es.len() && es[pos].0 == segs[i];
        if i == segs.len() - 1 {
            if found {
                None
            } else {
                Some(es.insert(pos, (segs[i], f)))
            }
        } else if found {
            match es[pos].1 {
                Node::Dir(inner) => match tree_insert(inner, segs, i + 1, f) {
                    Some(inner2) => Some(es.update(pos, (segs[i], Node::Dir(inner2)))),
                    None => None,
                },
                Node::File(_, _) => None,
            }
        } else {
            match tree_insert(Seq::empty(), segs, i + 1, f) {
                Some(inner2) => Some(es.insert(pos, (segs[i], Node::Dir(inner2)))),
                None => None,
            }
        }
    }
}

/// Inserting below an empty run of entries always succeeds and builds a
/// well-formed chain of directories.
proof fn lemma_tree_insert_fresh(segs: Seq<Seq<u8>>, i: int, f: Node)
    requires
        0 <= i < segs.len(),
        node_wf(f),
    ensures
        tree_insert(Seq::empty(), segs, i, f) is Some,
        dir_entries_wf(tree_insert(Seq::empty(), segs, i, f).unwrap()),
    decreases segs.len() - i,
{
    let es = Seq::<(Seq<u8>, Node)>::empty();
    assert(entry_index(es, segs[i]) == 0);
    if i == segs.len() - 1 {
        let es2 = es.insert(0, (segs[i], f));
        es.insert_ensures(0, (segs[i], f));
        assert(es2.len() == 1);
        assert(es2[0] == (segs[i], f));
    } else {
        lemma_tree_insert_fresh(segs, i + 1, f);
        let inner2 = tree_insert(Seq::empty(), segs, i + 1, f).unwrap();
        let es2 = es.insert(0, (segs[i], Node::Dir(inner2)));
        es.insert_ensures(0, (segs[i], Node::Dir(inner2)));
        assert(es2.len() == 1);
        assert(es2[0] == (segs[i], Node::Dir(inner2)));
    }
}

/// Inserting a well-formed element at its scan position keeps the entries
/// strictly sorted and well-formed.
proof fn lemma_wf_insert(es: Seq<(Seq<u8>, Node)>, name: Seq<u8>, n: Node)
    requires
        dir_entries_wf(es),
        node_wf(n),
        !(entry_index(es, name) < es.len() && es[entry_index(es, name)].0 == name),
    ensures
        dir_entries_wf(es.insert(entry_index(es, name), (name, n))),
{
    lemma_entry_index_bounds(es, name);
    let pos = entry_index(es, name);
    let es2 = es.insert(pos, (name, n));
    es.insert_ensures(pos, (name, n));
    if pos < es.len() {
        lemma_lex_trichotomy(es[pos].0, name);
    }
    assert forall|i: int, j: int| 0 <= i < j < es2.len() implies lex_lt(
        (#[trigger] es2[i]).0,
        (#[trigger] es2[j]).0,
    ) by {
        if i < pos && j < pos {
            assert(es2[i] == es[i] && es2[j] == es[j]);
        } else if i < pos && j == pos {
            assert(es2[i] == es[i]);
        } else if i < pos && j > pos {
            assert(es2[i] == es[i] && es2[j] == es[j - 1]);
            if j - 1 > i {
            }
        } else if i == pos && j > pos {
            assert(es2[j] == es[j - 1]);
            if j - 1 > pos {
                lemma_lex_transitive(name, es[pos].0, es[j - 1].0);
            }
        } else {
            assert(es2[i] == es[i - 1] && es2[j] == es[j - 1]);
        }
    }
    assert forall|i: int| 0 <= i < es2.len() implies node_wf((#[trigger] es2[i]).1) by {
        if i < pos {
            assert(es2[i] == es[i]);
        } else if i > pos {
            assert(es2[i] == es[i - 1]);
        }
    }
}

/// Replacing an element in place, name unchanged, keeps the entries sorted;
/// well-formedness follows when the new element is well-formed.
proof fn lemma_wf_update(es: Seq<(Seq<u8>, Node)>, pos: int, n: Node)
    requires
        dir_entries_wf(es),
        node_wf(n),
        0 <= pos < es.len(),
    ensures
        dir_entries_wf(es.update(pos, (es[pos].0, n))),
{
    let es2 = es.update(pos, (es[pos].0, n));
    assert forall|i: int, j: int| 0 <= i < j < es2.len() implies lex_lt(
        (#[trigger] es2[i]).0,
        (#[trigger] es2[j]).0,
    ) by {
        assert(es2[i].0 == es[i].0 && es2[j].0 == es[j].0);
        assert(lex_lt(es[i].0, es[j].0));
    }
    assert forall|i: int| 0 <= i < es2.len() implies node_wf((#[trigger] es2[i]).1) by {
        if i != pos {
            assert(es2[i] == es[i]);
        }
    }
}

/// Inserting an entry into the stored vector matches inserting its view.
proof fn lemma_view_insert(s: Seq<(Vec<u8>, PathElement)>, pos: int, e: (Vec<u8>, PathElement))
    requires
        0 <= pos <= s.len(),
    ensures
        entries_view(s.insert(pos, e)) == entries_view(s).insert(pos, (e.0@, e.1@)),
{
    lemma_entries_view(s);
    lemma_entries_view(s.insert(pos, e));
    s.insert_ensures(pos, e);
    entries_view(s).insert_ensures(pos, (e.0@, e.1@));
    let lhs = entries_view(s.insert(pos, e));
    let rhs = entries_view(s).insert(pos, (e.0@, e.1@));
    assert forall|i: int| 0 <= i < lhs.len() implies lhs[i] == rhs[i] by {
        if i < pos {
            assert(s.insert(pos, e)[i] == s[i]);
            assert(rhs[i] == entries_view(s)[i]);
        } else if i == pos {
        } else {
            assert(s.insert(pos, e)[i] == s[i - 1]);
            assert(rhs[i] == entries_view(s)[i - 1]);
        }
    }
    assert(lhs =~= rhs);
}

/// Removing an entry and reinserting one at the same position matches
/// updating the view in place.
proof fn lemma_view_reinsert(s: Seq<(Vec<u8>, PathElement)>, pos: int, e: (Vec<u8>, PathElement))
    requires
        0 <= pos < s.len(),
    ensures
        entries_view(s.remove(pos).insert(pos, e)) == entries_view(s).update(pos, (e.0@, e.1@)),
{
    let t = s.remove(pos).insert(pos, e);
    lemma_entries_view(s);
    lemma_entries_view(t);
    s.remove_ensures(pos);
    s.remove(pos).insert_ensures(pos, e);
    let rhs = entries_view(s).update(pos, (e.0@, e.1@));
    assert forall|i: int| 0 <= i < t.len() implies entries_view(t)[i] == rhs[i] by {
        if i < pos {
            assert(t[i] == s.remove(pos)[i]);
            assert(s.remove(pos)[i] == s[i]);
        } else if i > pos {
            assert(t[i] == s.remove(pos)[i - 1]);
            assert(s.remove(pos)[i - 1] == s[i]);
        }
    }
    assert(entries_view(t) =~= rhs);
}

/// Finds the scan position of `name` among the stored entries, and whether
/// an entry of exactly that name sits there.
fn find_entry(entries: &Vec<(Vec<u8>, PathElement)>, name: &[u8]) -> (r: (usize, bool))
    ensures
        r.0 == entry_index(entries_view(entries@), name@),
        r.1 == (r.0 < entries@.len() && entries_view(entries@)[r.0 as int].0 == name@),
{
    let ghost es = entries_view(entries@);
    proof {
        lemma_entries_view(entries@);
    }
    let n = entries.len();
    let mut j: usize = 0;
    while j < n
        invariant
            0 <= j <= n,
            n == entries@.len(),
            es == entries_view(entries@),
            es.len() == n,
            forall|k: int| 0 <= k < j ==> lex_lt((#[trigger] es[k]).0, name@),
        decreases n - j,
    {
        proof {
            lemma_entries_view(entries@);
        }
        let c = name_cmp(entries[j].0.as_slice(), name);
        match c {
            NameOrder::Before => {
                j += 1;
            },
            NameOrder::Same => {
                proof {
                    lemma_lex_irreflexive(name@);
                    lemma_entry_index_from_scan(es, name@, j as int);
                }
                return (j, true);
            },
            NameOrder::After => {
                proof {
                    lemma_lex_asymmetric(name@, es[j as int].0);
                    lemma_entry_index_from_scan(es, name@, j as int);
                }
                return (j, false);
            },
        }
    }
    proof {
        lemma_entry_index_from_scan(es, name@, j as int);
    }
    (j, false)
}

/// Inserts a file at the path `segs[i..]` below this directory, creating
/// intermediate directories; reports a conflict, leaving the directory
/// unchanged, when the path runs into an existing file or its last segment
/// is already taken.
fn insert_into(dir: &mut Directory, segs: &Vec<Vec<u8>>, i: usize, f: File) -> (ok: bool)
    requires
        dir_entries_wf(old(dir)@),
        i < segs@.len(),
    ensures
        dir_entries_wf(final(dir)@),
        match tree_insert(
            old(dir)@,
            segs.deep_view(),
            i as int,
            Node::File(f.length, f.pieces_root@),
        ) {
            Some(es2) => ok && final(dir)@ == es2,
            None => !ok && final(dir)@ == old(dir)@,
        },
    decreases segs@.len() - i,
{
    let ghost es = entries_view(dir.entries@);
    let ghost name = segs.deep_view()[i as int];
    let ghost fnode = Node::File(f.length, f.pieces_root@);
    proof {
        lemma_entries_view(dir.entries@);
        lemma_entry_index_bounds(es, name);
        assert(segs@[i as int]@ == name);
    }
    let (pos, found) = find_entry(&dir.entries, segs[i].as_slice());
    if i == segs.len() - 1 {
        if found {
            return false;
        }
        let name_vec = vstd::slice::slice_to_vec(segs[i].as_slice());
        dir.entries.insert(pos, (name_vec, PathElement::File(f)));
        proof {
            lemma_view_insert(old(dir).entries@, pos as int, (name_vec, PathElement::File(f)));
            lemma_wf_insert(es, name, fnode);
        }
        return true;
    }
    if found {
        let is_dir = match &dir.entries[pos].1 {
            PathElement::Directory(_) => true,
            PathElement::File(_) => false,
        };
        if !is_dir {
            // the path runs into an existing file
            return false;
        }
        let entry = dir.entries.remove(pos);
        let entry_name = entry.0;
        match entry.1 {
            PathElement::Directory(mut sub) => {
                let ghost inner = entries_view(sub.entries@);
                proof {
                    assert(es[pos as int].1 == Node::Dir(inner));
                    assert(node_wf(es[pos as int].1));
                }
                let ok = insert_into(&mut sub, segs, i + 1, f);
                let ghost sub2 = entries_view(sub.entries@);
                dir.entries.insert(pos, (entry_name, PathElement::Directory(sub)));
                proof {
                    lemma_view_reinsert(
                        old(dir).entries@,
                        pos as int,
                        (entry_name, PathElement::Directory(sub)),
                    );
                    assert(entry_name@ == es[pos as int].0);
                    if ok {
                        lemma_wf_update(es, pos as int, Node::Dir(sub2));
                        assert(final(dir)@ == es.update(pos as int, (name, Node::Dir(sub2))));
                    } else {
                        assert(sub2 == inner);
                        assert(final(dir)@ =~= es);
                    }
                }
                ok
            },
            PathElement::File(_) => {
                proof {
                    assert(false);
                }
                false
            },
        }
    } else {
        let mut sub = Directory { entries: Vec::new() };
        proof {
            assert(entries_view(sub.entries@) =~= Seq::<(Seq<u8>, Node)>::empty());
            lemma_tree_insert_fresh(segs.deep_view(), i as int + 1, fnode);
        }
        let ok = insert_into(&mut sub, segs, i + 1, f);
        let ghost sub2 = entries_view(sub.entries@);
        proof {
            assert(ok);
        }
        let name_vec = vstd::slice::slice_to_vec(segs[i].as_slice());
        dir.entries.insert(pos, (name_vec, PathElement::Directory(sub)));
        proof {
            lemma_view_insert(
                old(dir).entries@,
                pos as int,
                (name_vec, PathElement::Directory(sub)),
            );
            lemma_wf_insert(es, name, Node::Dir(sub2));
        }
        true
    }
}

impl Directory {
    /// Returns the element stored under `name`, if any.
    pub fn get_entry(&self, name: &[u8]) -> (r: Option<&PathElement>)
        ensures
            match r {
                Some(e) => entry_index(self@, name@) < self@.len() && self@[entry_index(
                    self@,
                    name@,
                )].0 == name@ && e@ == self@[entry_index(self@, name@)].1,
                None => !(entry_index(self@, name@) < self@.len() && self@[entry_index(
                    self@,
                    name@,
                )].0 == name@),
            },
    {
        proof {
            lemma_entries_view(self.entries@);
            lemma_entry_index_bounds(self@, name@);
        }
        let (pos, found) = find_entry(&self.entries, name);
        if found {
            Some(&self.entries[pos].1)
        } else {
            None
        }
    }

    /// Inserts a file at the path below this directory; see `tree_insert`.
    pub fn insert_path(&mut self, segs: &Vec<Vec<u8>>, f: File) -> (ok: bool)
        requires
            dir_entries_wf(old(self)@),
            segs@.len() >= 1,
        ensures
            dir_entries_wf(final(self)@),
            match tree_insert(
                old(self)@,
                segs.deep_view(),
                0,
                Node::File(f.length, f.pieces_root@),
            ) {
                Some(es2) => ok && final(self)@ == es2,
                None => !ok && final(self)@ == old(self)@,
            },
    {
        insert_into(self, segs, 0, f)
    }
}

impl PathElement {
    /// Returns the element stored under `name` when this is a directory,
    /// otherwise None.
    pub fn get_entry(&self, name: &[u8]) -> (r: Option<&PathElement>)
        ensures
            match *self {
                PathElement::File(_) => r is None,
                PathElement::Directory(d) => match r {
                    Some(e) => entry_index(d@, name@) < d@.len() && d@[entry_index(d@, name@)].0
                        == name@ && e@ == d@[entry_index(d@, name@)].1,
                    None => !(entry_index(d@, name@) < d@.len() && d@[entry_index(d@, name@)].0
                        == name@),
                },
            },
    {
        match self {
            PathElement::Directory(d) => d.get_entry(name),
            PathElement::File(_) => None,
        }
    }
}

/// Splits a byte string into its '/'-separated segments; there is always
/// at least one, and empty segments are kept.
pub open spec fn split_segs(b: Seq<u8>) -> Seq<Seq<u8>>
    decreases b.len(),
{
    if b.len() == 0 {
        seq![Seq::<u8>::empty()]
    } else {
        let rest = split_segs(b.drop_first());
        if b[0] == 47 {
            seq![Seq::<u8>::empty()] + rest
        } else {
            rest.update(0, seq![b[0]] + rest[0])
        }
    }
}

proof fn lemma_split_segs_len(b: Seq<u8>)
    ensures
        split_segs(b).len() >= 1,
    decreases b.len(),
{
    if b.len() > 0 {
        lemma_split_segs_len(b.drop_first());
    }
}

/// Prepending slash-free bytes extends the first segment of a split.
proof fn lemma_split_prepend(cur: Seq<u8>, rest: Seq<u8>)
    requires
        forall|k: int| 0 <= k < cur.len() ==> cur[k] != 47,
    ensures
        split_segs(cur + rest) == split_segs(rest).update(0, cur + split_segs(rest)[0]),
    decreases cur.len(),
{
    lemma_split_segs_len(rest);
    if cur.len() == 0 {
        assert(cur + rest =~= rest);
        assert(cur + split_segs(rest)[0] =~= split_segs(rest)[0]);
        assert(split_segs(rest).update(0, split_segs(rest)[0]) =~= split_segs(rest));
    } else {
        assert((cur + rest).drop_first() =~= cur.drop_first() + rest);
        lemma_split_prepend(cur.drop_first(), rest);
        let sr = split_segs(rest);
        let inner = sr.update(0, cur.drop_first() + sr[0]);
        assert((cur + rest)[0] == cur[0]);
        assert(split_segs(cur + rest) == inner.update(0, seq![cur[0]] + inner[0]));
        assert(seq![cur[0]] + (cur.drop_first() + sr[0]) =~= cur + sr[0]);
        assert(inner.update(0, seq![cur[0]] + inner[0]) =~= sr.update(0, cur + sr[0]));
    }
}

proof fn lemma_bytes_deep_view(v: Vec<u8>)
    ensures
        v.deep_view() == v@,
{
    assert(v.deep_view() =~= v@);
}

proof fn lemma_segs_deep_view_push(s1: Seq<Vec<u8>>, s2: Seq<Vec<u8>>, dv1: Seq<Seq<u8>>, x: Seq<
    u8,
>)
    requires
        s2 == s1.push(s2.last()),
        s2.len() == s1.len() + 1,
        s2.last()@ == x,
        dv1 == Seq::new(s1.len(), |i: int| s1[i].deep_view()),
    ensures
        Seq::new(s2.len(), |i: int| s2[i].deep_view()) == dv1.push(x),
{
    let dv2 = Seq::new(s2.len(), |i: int| s2[i].deep_view());
    assert forall|j: int| 0 <= j < s2.len() implies dv2[j] == dv1.push(x)[j] by {
        lemma_bytes_deep_view(s2[j]);
        if j < s1.len() {
            assert(s2[j] == s1[j]);
            lemma_bytes_deep_view(s1[j]);
        }
    }
    assert(dv2 =~= dv1.push(x));
}

/// Splits a path into its '/'-separated segments as byte strings.
fn split_path(path: &str) -> (r: Vec<Vec<u8>>)
    ensures
        r.deep_view() == split_segs(path.spec_bytes()),
        r@.len() >= 1,
{
    let bytes = path.as_bytes();
    let n = bytes.len();
    let mut segs: Vec<Vec<u8>> = Vec::new();
    let mut cur: Vec<u8> = Vec::new();
    let mut p: usize = 0;
    proof {
        assert(cur@ + bytes@.skip(0) =~= bytes@);
        assert(segs.deep_view() =~= Seq::<Seq<u8>>::empty());
        assert(Seq::<Seq<u8>>::empty() + split_segs(bytes@) =~= split_segs(bytes@));
    }
    while p < n
        invariant
            0 <= p <= n,
            n == bytes@.len(),
            bytes@ == path.spec_bytes(),
            forall|k: int| 0 <= k < cur@.len() ==> cur@[k] != 47,
            split_segs(bytes@) == segs.deep_view() + split_segs(cur@ + bytes@.skip(p as int)),
        decreases n - p,
    {
        let b = bytes[p];
        let ghost pre_segs = segs.deep_view();
        let ghost pre_cur = cur@;
        proof {
            assert(bytes@.skip(p as int) =~= seq![bytes@[p as int]] + bytes@.skip(p + 1));
        }
        if b == 47 {
            proof {
                lemma_split_prepend(pre_cur, seq![47u8] + bytes@.skip(p + 1));
                lemma_split_segs_len(bytes@.skip(p + 1));
                let sr = split_segs(seq![47u8] + bytes@.skip(p + 1));
                assert((seq![47u8] + bytes@.skip(p + 1)).drop_first() =~= bytes@.skip(p + 1));
                assert(sr == seq![Seq::<u8>::empty()] + split_segs(bytes@.skip(p + 1)));
                assert(pre_cur + sr[0] =~= pre_cur);
                assert(sr.update(0, pre_cur) =~= seq![pre_cur] + split_segs(bytes@.skip(p + 1)));
                assert(pre_cur + seq![47u8] + bytes@.skip(p + 1) =~= pre_cur + (seq![47u8]
                    + bytes@.skip(p + 1)));
            }
            let ghost s1 = segs@;
            segs.push(cur);
            cur = Vec::new();
            proof {
                lemma_segs_deep_view_push(s1, segs@, pre_segs, pre_cur);
                assert(segs.deep_view() =~= Seq::new(segs@.len(), |i: int| segs@[i].deep_view()));
                assert(segs.deep_view() == pre_segs.push(pre_cur));
                assert(cur@ + bytes@.skip(p + 1) =~= bytes@.skip(p + 1));
                assert(pre_segs + (seq![pre_cur] + split_segs(bytes@.skip(p + 1)))
                    =~= pre_segs.push(pre_cur) + split_segs(bytes@.skip(p + 1)));
            }
        } else {
            cur.push(b);
            proof {
                assert(cur@ + bytes@.skip(p + 1) =~= pre_cur + bytes@.skip(p as int));
            }
        }
        p += 1;
    }
    let ghost pre_segs = segs.deep_view();
    let ghost pre_cur = cur@;
    proof {
        assert(bytes@.skip(n as int) =~= Seq::<u8>::empty());
        assert(pre_cur + bytes@.skip(n as int) =~= pre_cur);
        lemma_split_prepend(pre_cur, Seq::empty());
        assert(split_segs(Seq::<u8>::empty()) == seq![Seq::<u8>::empty()]);
        assert(pre_cur + Seq::<u8>::empty() =~= pre_cur);
        assert(split_segs(Seq::<u8>::empty()).update(0, pre_cur) =~= seq![pre_cur]);
    }
    let ghost s1 = segs@;
    segs.push(cur);
    proof {
        lemma_segs_deep_view_push(s1, segs@, pre_segs, pre_cur);
        assert(segs.deep_view() =~= Seq::new(segs@.len(), |i: int| segs@[i].deep_view()));
        assert(segs.deep_view() == pre_segs.push(pre_cur));
        assert(pre_segs + seq![pre_cur] =~= pre_segs.push(pre_cur));
    }
    segs
}

/// The registry of piece-digest lists, keyed by pieces root and kept
/// strictly sorted by key bytes.
pub open spec fn layers_wf(s: Seq<(Digest, Vec<Digest>)>) -> bool {
    forall|i: int, j: int|
        0 <= i < j < s.len() ==> lex_lt((#[trigger] s[i]).0@, (#[trigger] s[j]).0@)
}

/// The position at which a key sits, or would be inserted, in the registry.
pub open spec fn layer_index(s: Seq<(Digest, Vec<Digest>)>, key: Seq<u8>) -> int
    decreases s.len(),
{
    if s.len() == 0 {
        0
    } else if lex_lt(s[0].0@, key) {
        1 + layer_index(s.drop_first(), key)
    } else {
        0
    }
}

/// The registry after recording a piece-digest list: an entry of the same
/// key is replaced, otherwise the new entry enters at its sorted position.
pub open spec fn layers_insert(
    s: Seq<(Digest, Vec<Digest>)>,
    key: Digest,
    val: Vec<Digest>,
) -> Seq<(Digest, Vec<Digest>)> {
    let pos = layer_index(s, key@);
    if pos < s.len() && s[pos].0@ == key@ {
        s.update(pos, (key, val))
    } else {
        s.insert(pos, (key, val))
    }
}

proof fn lemma_layer_index_bounds(s: Seq<(Digest, Vec<Digest>)>, key: Seq<u8>)
    ensures
        0 <= layer_index(s, key) <= s.len(),
        forall|k: int| 0 <= k < layer_index(s, key) ==> lex_lt((#[trigger] s[k]).0@, key),
        layer_index(s, key) < s.len() ==> !lex_lt(s[layer_index(s, key)].0@, key),
    decreases s.len(),
{
    if s.len() > 0 {
        lemma_layer_index_bounds(s.drop_first(), key);
        if lex_lt(s[0].0@, key) {
            let p = layer_index(s, key);
            assert forall|k: int| 0 <= k < p implies lex_lt((#[trigger] s[k]).0@, key) by {
                if k > 0 {
                    assert(s.drop_first()[k - 1] == s[k]);
                }
            }
            if p < s.len() {
                assert(s.drop_first()[p - 1] == s[p]);
            }
        }
    }
}

proof fn lemma_layer_index_from_scan(s: Seq<(Digest, Vec<Digest>)>, key: Seq<u8>, j: int)
    requires
        0 <= j <= s.len(),
        forall|k: int| 0 <= k < j ==> lex_lt((#[trigger] s[k]).0@, key),
        j < s.len() ==> !lex_lt(s[j].0@, key),
    ensures
        layer_index(s, key) == j,
    decreases s.len(),
{
    if s.len() > 0 && j > 0 {
        assert forall|k: int| 0 <= k < j - 1 implies lex_lt(
            (#[trigger] s.drop_first()[k]).0@,
            key,
        ) by {
            assert(s.drop_first()[k] == s[k + 1]);
        }
        if j - 1 < s.drop_first().len() {
            assert(s.drop_first()[j - 1] == s[j]);
        }
        lemma_layer_index_from_scan(s.drop_first(), key, j - 1);
    }
}

/// Recording a piece-digest list keeps the registry sorted.
proof fn lemma_layers_insert_wf(s: Seq<(Digest, Vec<Digest>)>, key: Digest, val: Vec<Digest>)
    requires
        layers_wf(s),
    ensures
        layers_wf(layers_insert(s, key, val)),
{
    lemma_layer_index_bounds(s, key@);
    let pos = layer_index(s, key@);
    if pos < s.len() && s[pos].0@ == key@ {
        let s2 = s.update(pos, (key, val));
        assert forall|i: int, j: int| 0 <= i < j < s2.len() implies lex_lt(
            (#[trigger] s2[i]).0@,
            (#[trigger] s2[j]).0@,
        ) by {
            assert(s2[i].0@ == s[i].0@ && s2[j].0@ == s[j].0@);
            assert(lex_lt(s[i].0@, s[j].0@));
        }
    } else {
        let s2 = s.insert(pos, (key, val));
        s.insert_ensures(pos, (key, val));
        if pos < s.len() {
            lemma_lex_trichotomy(s[pos].0@, key@);
        }
        assert forall|i: int, j: int| 0 <= i < j < s2.len() implies lex_lt(
            (#[trigger] s2[i]).0@,
            (#[trigger] s2[j]).0@,
        ) by {
            if i < pos && j < pos {
                assert(s2[i] == s[i] && s2[j] == s[j]);
            } else if i < pos && j == pos {
                assert(s2[i] == s[i]);
            } else if i < pos && j > pos {
                assert(s2[i] == s[i] && s2[j] == s[j - 1]);
            } else if i == pos && j > pos {
                assert(s2[j] == s[j - 1]);
                if j - 1 > pos {
                    lemma_lex_transitive(key@, s[pos].0@, s[j - 1].0@);
                }
            } else {
                assert(s2[i] == s[i - 1] && s2[j] == s[j - 1]);
            }
        }
    }
}

/// Finds the scan position of a key in the registry, and whether an entry
/// of exactly that key sits there.
fn layer_find(s: &Vec<(Digest, Vec<Digest>)>, key: &Digest) -> (r: (usize, bool))
    ensures
        r.0 == layer_index(s@, key@),
        r.1 == (r.0 < s@.len() && s@[r.0 as int].0@ == key@),
{
    let n = s.len();
    let mut j: usize = 0;
    while j < n
        invariant
            0 <= j <= n,
            n == s@.len(),
            forall|k: int| 0 <= k < j ==> lex_lt((#[trigger] s@[k]).0@, key@),
        decreases n - j,
    {
        let c = name_cmp(s[j].0.as_array().as_slice(), key.as_array().as_slice());
        match c {
            NameOrder::Before => {
                j += 1;
            },
            NameOrder::Same => {
                proof {
                    lemma_lex_irreflexive(key@);
                    lemma_layer_index_from_scan(s@, key@, j as int);
                }
                return (j, true);
            },
            NameOrder::After => {
                proof {
                    lemma_lex_asymmetric(key@, s@[j as int].0@);
                    lemma_layer_index_from_scan(s@, key@, j as int);
                }
                return (j, false);
            },
        }
    }
    proof {
        lemma_layer_index_from_scan(s@, key@, j as int);
    }
    (j, false)
}

/// The display name, piece length and file tree of a torrent.
#[derive(Debug)]
pub struct Info {
    pub name: String,
    pub piece_length: PieceLength,
    pub file_tree: Directory,
}

/// A torrent metainfo file as defined in BEP 0052.
#[derive(Debug)]
pub struct Torrent {
    pub announce: String,
    pub info: Info,
    pub piece_layers: Vec<(Digest, Vec<Digest>)>,
}

impl Torrent {
    /// The file tree and the piece-digest registry are well-formed.
    pub open spec fn wf(self) -> bool {
        &&& dir_entries_wf(self.info.file_tree@)
        &&& layers_wf(self.piece_layers@)
    }

    pub fn new(announce: String, name: String, piece_length: PieceLength) -> (r: Self)
        ensures
            r.wf(),
            r.announce == announce,
            r.info.name == name,
            r.info.piece_length == piece_length,
            r.info.file_tree@ == Seq::<(Seq<u8>, Node)>::empty(),
            r.piece_layers@ == Seq::<(Digest, Vec<Digest>)>::empty(),
    {
        let r = Torrent {
            announce,
            info: Info { name, piece_length, file_tree: Directory { entries: Vec::new() } },
            piece_layers: Vec::new(),
        };
        proof {
            assert(entries_view(r.info.file_tree.entries@) =~= Seq::<(Seq<u8>, Node)>::empty());
        }
        r
    }

    /// Adds a file to the torrent under the given '/'-separated path. If
    /// the file already exists or the path runs into an existing file, no
    /// action is taken and false is returned. A non-empty piece-digest
    /// list is recorded in the registry under the file's pieces root.
    pub fn add_file(&mut self, path: &str, f: File, pieces_layer: Vec<Digest>) -> (ok: bool)
        requires
            old(self).wf(),
        ensures
            final(self).wf(),
            final(self).announce == old(self).announce,
            final(self).info.name == old(self).info.name,
            final(self).info.piece_length == old(self).info.piece_length,
            match tree_insert(
                old(self).info.file_tree@,
                split_segs(path.spec_bytes()),
                0,
                Node::File(f.length, f.pieces_root@),
            ) {
                Some(es2) => ok && final(self).info.file_tree@ == es2 && final(self).piece_layers@
                    == if pieces_layer@.len() > 0 {
                    layers_insert(old(self).piece_layers@, f.pieces_root, pieces_layer)
                } else {
                    old(self).piece_layers@
                },
                None => !ok && final(self).info.file_tree@ == old(self).info.file_tree@
                    && final(self).piece_layers@ == old(self).piece_layers@,
            },
    {
        let segs = split_path(path);
        let ok = self.info.file_tree.insert_path(&segs, f);
        if !ok {
            return false;
        }
        if pieces_layer.len() > 0 {
            let ghost s = self.piece_layers@;
            proof {
                lemma_layer_index_bounds(s, f.pieces_root@);
                lemma_layers_insert_wf(s, f.pieces_root, pieces_layer);
            }
            let (pos, found) = layer_find(&self.piece_layers, &f.pieces_root);
            if found {
                let _previous = self.piece_layers.remove(pos);
                self.piece_layers.insert(pos, (f.pieces_root, pieces_layer));
                proof {
                    s.remove_ensures(pos as int);
                    s.remove(pos as int).insert_ensures(pos as int, (f.pieces_root, pieces_layer));
                    assert(self.piece_layers@ =~= s.update(
                        pos as int,
                        (f.pieces_root, pieces_layer),
                    ));
                }
            } else {
                self.piece_layers.insert(pos, (f.pieces_root, pieces_layer));
            }
        }
        true
    }
}

/// Deepest allowed run of directories in a file tree, a guard against
/// degenerate torrent files.
pub const MAX_FILE_PATH_DEPTH: usize = 20;

/// The canonical encoding failed; the one structural failure is a file
/// tree nested beyond `MAX_FILE_PATH_DEPTH`.
#[derive(Clone, Copy, Debug, PartialEq, Eq, Structural)]
pub enum EncodeError {
    NestingTooDeep,
}

// The dictionary keys of the canonical encoding, as their ASCII bytes.
pub open spec fn key_length() -> Seq<u8> {
    seq![108u8, 101u8, 110u8, 103u8, 116u8, 104u8]  // "length"
}

pub open spec fn key_pieces_root() -> Seq<u8> {
    seq![112u8, 105u8, 101u8, 99u8, 101u8, 115u8, 32u8, 114u8, 111u8, 111u8, 116u8]  // "pieces root"
}

pub open spec fn key_announce() -> Seq<u8> {
    seq![97u8, 110u8, 110u8, 111u8, 117u8, 110u8, 99u8, 101u8]  // "announce"
}

pub open spec fn key_info() -> Seq<u8> {
    seq![105u8, 110u8, 102u8, 111u8]  // "info"
}

pub open spec fn key_piece_layers() -> Seq<u8> {
    seq![112u8, 105u8, 101u8, 99u8, 101u8, 32u8, 108u8, 97u8, 121u8, 101u8, 114u8, 115u8]  // "piece layers"
}

pub open spec fn key_file_tree() -> Seq<u8> {
    seq![102u8, 105u8, 108u8, 101u8, 32u8, 116u8, 114u8, 101u8, 101u8]  // "file tree"
}

pub open spec fn key_meta_version() -> Seq<u8> {
    seq![109u8, 101u8, 116u8, 97u8, 32u8, 118u8, 101u8, 114u8, 115u8, 105u8, 111u8, 110u8]  // "meta version"
}

pub open spec fn key_name() -> Seq<u8> {
    seq![110u8, 97u8, 109u8, 101u8]  // "name"
}

pub open spec fn key_piece_length() -> Seq<u8> {
    seq![112u8, 105u8, 101u8, 99u8, 101u8, 32u8, 108u8, 101u8, 110u8, 103u8, 116u8, 104u8]  // "piece length"
}

/// The encoding of a file: a dictionary with the one key "" holding the
/// length and, for a non-empty file only, the pieces root.
pub open spec fn file_enc(f: File) -> Seq<u8> {
    seq![100u8] + bstr(Seq::<u8>::empty()) + seq![100u8] + bstr(key_length()) + bint(
        f.length as nat,
    ) + (if f.length != 0 {
        bstr(key_pieces_root()) + bstr(f.pieces_root@)
    } else {
        Seq::<u8>::empty()
    }) + seq![101u8, 101u8]
}

/// The encoding of a path element in the stored (sorted) entry order.
pub open spec fn elem_enc(e: PathElement) -> Seq<u8>
    decreases e,
{
    match e {
        PathElement::Directory(d) => seq![100u8] + entries_enc(d.entries@) + seq![101u8],
        PathElement::File(f) => file_enc(f),
    }
}

pub open spec fn entries_enc(s: Seq<(Vec<u8>, PathElement)>) -> Seq<u8>
    decreases s,
{
    if s.len() == 0 {
        Seq::empty()
    } else {
        bstr(s[0].0@) + elem_enc(s[0].1) + entries_enc(s.drop_first())
    }
}

pub open spec fn dir_enc(d: Directory) -> Seq<u8> {
    seq![100u8] + entries_enc(d.entries@) + seq![101u8]
}

/// Number of nested directory levels below an element: a file is 0 and a
/// directory one more than its deepest child.
pub open spec fn elem_height(e: PathElement) -> nat
    decreases e,
{
    match e {
        PathElement::File(_) => 0,
        PathElement::Directory(d) => 1 + entries_height(d.entries@),
    }
}

pub open spec fn entries_height(s: Seq<(Vec<u8>, PathElement)>) -> nat
    decreases s,
{
    if s.len() == 0 {
        0
    } else {
        let h = elem_height(s[0].1);
        let r = entries_height(s.drop_first());
        if h > r {
            h
        } else {
            r
        }
    }
}

proof fn lemma_entries_height_ge(s: Seq<(Vec<u8>, PathElement)>, i: int)
    requires
        0 <= i < s.len(),
    ensures
        elem_height(s[i].1) <= entries_height(s),
    decreases s.len(),
{
    if i > 0 {
        lemma_entries_height_ge(s.drop_first(), i - 1);
        assert(s.drop_first()[i - 1] == s[i]);
    }
}

proof fn lemma_entries_height_le(s: Seq<(Vec<u8>, PathElement)>, b: nat)
    requires
        forall|i: int| 0 <= i < s.len() ==> elem_height((#[trigger] s[i]).1) <= b,
    ensures
        entries_height(s) <= b,
    decreases s.len(),
{
    if s.len() > 0 {
        assert forall|i: int| 0 <= i < s.drop_first().len() implies elem_height(
            (#[trigger] s.drop_first()[i]).1,
        ) <= b by {
            assert(s.drop_first()[i] == s[i + 1]);
        }
        lemma_entries_height_le(s.drop_first(), b);
    }
}

proof fn lemma_entries_enc_push(s: Seq<(Vec<u8>, PathElement)>, x: (Vec<u8>, PathElement))
    ensures
        entries_enc(s.push(x)) == entries_enc(s) + bstr(x.0@) + elem_enc(x.1),
    decreases s.len(),
{
    if s.len() == 0 {
        let t = s.push(x);
        assert(t.len() == 1);
        assert(t[0] == x);
        assert(t.drop_first() =~= Seq::<(Vec<u8>, PathElement)>::empty());
        assert(entries_enc(t) == bstr(t[0].0@) + elem_enc(t[0].1) + entries_enc(t.drop_first()));
        assert(entries_enc(t.drop_first()) == Seq::<u8>::empty());
        assert(entries_enc(s) == Seq::<u8>::empty());
        assert(bstr(x.0@) + elem_enc(x.1) + Seq::<u8>::empty() =~= Seq::<u8>::empty() + bstr(x.0@)
            + elem_enc(x.1));
    } else {
        assert(s.push(x)[0] == s[0]);
        assert(s.push(x).drop_first() =~= s.drop_first().push(x));
        lemma_entries_enc_push(s.drop_first(), x);
        let a = bstr(s[0].0@);
        let b = elem_enc(s[0].1);
        let c = entries_enc(s.drop_first());
        let d = bstr(x.0@);
        let e = elem_enc(x.1);
        assert(entries_enc(s.push(x)) == a + b + (c + d + e));
        assert(entries_enc(s) == a + b + c);
        assert(a + b + (c + d + e) =~= a + b + c + d + e);
    }
}

/// A file of length zero encodes without a "pieces root" key, whatever
/// digest it holds: its encoding is the fixed string "d0:d6:lengthi0eee".
pub proof fn lemma_zero_length_file_enc(f: File)
    requires
        f.length == 0,
    ensures
        file_enc(f) == seq![
            100u8, 48u8, 58u8, 100u8, 54u8, 58u8, 108u8, 101u8, 110u8, 103u8, 116u8, 104u8, 105u8,
            48u8, 101u8, 101u8, 101u8,
        ],
{
    assert(crate::bencode::dec_spec(0) == seq![48u8]);
    assert(crate::bencode::dec_spec(6) == seq![54u8]);
    assert(file_enc(f) =~= seq![
        100u8, 48u8, 58u8, 100u8, 54u8, 58u8, 108u8, 101u8, 110u8, 103u8, 116u8, 104u8, 105u8,
        48u8, 101u8, 101u8, 101u8,
    ]);
}

/// Appends the encoding of a file.
fn encode_file_into(f: &File, out: &mut Vec<u8>)
    ensures
        final(out)@ == old(out)@ + file_enc(*f),
{
    let empty: Vec<u8> = Vec::new();
    out.push(100);  // 'd'
    push_bstr(out, empty.as_slice());
    out.push(100);  // 'd'
    let k = [108u8, 101u8, 110u8, 103u8, 116u8, 104u8];  // "length"
    proof {
        assert(k@ =~= key_length());
    }
    push_bstr(out, k.as_slice());
    push_bint(out, f.length);
    if f.length != 0 {
        let pr = [112u8, 105u8, 101u8, 99u8, 101u8, 115u8, 32u8, 114u8, 111u8, 111u8, 116u8];  // "pieces root"
        proof {
            assert(pr@ =~= key_pieces_root());
        }
        push_bstr(out, pr.as_slice());
        push_bstr(out, f.pieces_root.as_array().as_slice());
    }
    out.push(101);  // 'e'
    out.push(101);  // 'e'
    proof {
        assert(final(out)@ =~= old(out)@ + file_enc(*f));
    }
}

/// Appends the encoding of a run of directory entries, failing when the
/// nesting runs past `MAX_FILE_PATH_DEPTH` directories.
fn encode_entries_into(entries: &Vec<(Vec<u8>, PathElement)>, depth: u64, out: &mut Vec<u8>) -> (r:
    Result<(), EncodeError>)
    requires
        1 <= depth <= 20,
    ensures
        r is Ok <==> depth as nat + entries_height(entries@) <= 20,
        r is Ok ==> final(out)@ == old(out)@ + entries_enc(entries@),
    decreases 21 - depth, 0int,
{
    let n = entries.len();
    let mut i: usize = 0;
    proof {
        assert(entries@.take(0) =~= Seq::<(Vec<u8>, PathElement)>::empty());
        assert(old(out)@ + entries_enc(entries@.take(0)) =~= old(out)@);
    }
    while i < n
        invariant
            1 <= depth <= 20,
            0 <= i <= n,
            n == entries@.len(),
            out@ == old(out)@ + entries_enc(entries@.take(i as int)),
            forall|k: int|
                0 <= k < i ==> depth as nat + 1 + elem_height((#[trigger] entries@[k]).1) <= 21,
        decreases n - i,
    {
        let ghost pre = out@;
        let entry = &entries[i];
        push_bstr(out, entry.0.as_slice());
        let r = encode_element_into(&entry.1, depth + 1, out);
        match r {
            Ok(_) => {},
            Err(err) => {
                proof {
                    lemma_entries_height_ge(entries@, i as int);
                }
                return Err(err);
            },
        }
        proof {
            lemma_entries_enc_push(entries@.take(i as int), entries@[i as int]);
            assert(entries@.take(i as int).push(entries@[i as int]) =~= entries@.take(i + 1));
            assert(out@ =~= old(out)@ + entries_enc(entries@.take(i + 1)));
        }
        i += 1;
    }
    proof {
        assert(entries@.take(n as int) =~= entries@);
        lemma_entries_height_le(entries@, (20 - depth) as nat);
    }
    Ok(())
}

/// Appends the encoding of one path element, failing when the nesting runs
/// past `MAX_FILE_PATH_DEPTH` directories.
fn encode_element_into(e: &PathElement, depth: u64, out: &mut Vec<u8>) -> (r: Result<
    (),
    EncodeError,
>)
    requires
        1 <= depth <= 21,
    ensures
        r is Ok <==> depth as nat + elem_height(*e) <= 21,
        r is Ok ==> final(out)@ == old(out)@ + elem_enc(*e),
    decreases 21 - depth, 1int,
{
    match e {
        PathElement::File(f) => {
            encode_file_into(f, out);
            Ok(())
        },
        PathElement::Directory(d) => {
            if depth > 20 {
                proof {
                    assert(elem_height(*e) >= 1);
                }
                return Err(EncodeError::NestingTooDeep);
            }
            out.push(100);  // 'd'
            match encode_entries_into(&d.entries, depth, out) {
                Ok(_) => {},
                Err(err) => {
                    return Err(err);
                },
            }
            out.push(101);  // 'e'
            proof {
                assert(final(out)@ =~= old(out)@ + elem_enc(*e));
            }
            Ok(())
        },
    }
}

impl File {
    /// The canonical encoding of this file entry alone.
    pub fn to_bencode(&self) -> (r: Result<Vec<u8>, EncodeError>)
        ensures
            r matches Ok(v) ==> v@ == file_enc(*self),
            r is Ok,
    {
        let mut out: Vec<u8> = Vec::new();
        encode_file_into(self, &mut out);
        proof {
            assert(Seq::<u8>::empty() + file_enc(*self) =~= file_enc(*self));
        }
        Ok(out)
    }
}

impl Directory {
    /// The canonical encoding of this directory alone: the entries in
    /// their stored (sorted) order, failing when the nesting runs past
    /// `MAX_FILE_PATH_DEPTH` directories.
    pub fn to_bencode(&self) -> (r: Result<Vec<u8>, EncodeError>)
        ensures
            r matches Ok(v) ==> v@ == dir_enc(*self),
            r is Ok <==> entries_height(self.entries@) <= 19,
    {
        let mut out: Vec<u8> = Vec::new();
        out.push(100);  // 'd'
        match encode_entries_into(&self.entries, 1, &mut out) {
            Ok(_) => {},
            Err(err) => {
                return Err(err);
            },
        }
        out.push(101);  // 'e'
        proof {
            assert(out@ =~= dir_enc(*self));
        }
        Ok(out)
    }
}

/// The concatenation of a run of digests as raw bytes.
pub open spec fn concat_digests(s: Seq<Digest>) -> Seq<u8>
    decreases s.len(),
{
    if s.len() == 0 {
        Seq::empty()
    } else {
        s[0]@ + concat_digests(s.drop_first())
    }
}

proof fn lemma_concat_digests_push(s: Seq<Digest>, x: Digest)
    ensures
        concat_digests(s.push(x)) == concat_digests(s) + x@,
    decreases s.len(),
{
    if s.len() == 0 {
        let t = s.push(x);
        assert(t.len() == 1);
        assert(t[0] == x);
        assert(t.drop_first() =~= Seq::<Digest>::empty());
        assert(concat_digests(t) == t[0]@ + concat_digests(t.drop_first()));
        assert(concat_digests(t.drop_first()) == Seq::<u8>::empty());
        assert(concat_digests(s) == Seq::<u8>::empty());
        assert(x@ + Seq::<u8>::empty() =~= Seq::<u8>::empty() + x@);
    } else {
        assert(s.push(x)[0] == s[0]);
        assert(s.push(x).drop_first() =~= s.drop_first().push(x));
        lemma_concat_digests_push(s.drop_first(), x);
        let a = s[0]@;
        let c = concat_digests(s.drop_first());
        assert(concat_digests(s.push(x)) == a + (c + x@));
        assert(concat_digests(s) == a + c);
        assert(a + (c + x@) =~= a + c + x@);
    }
}

/// The encoding of the piece-digest registry in stored (sorted) key order;
/// an entry with an empty digest list is omitted entirely.
pub open spec fn layers_enc(s: Seq<(Digest, Vec<Digest>)>) -> Seq<u8>
    decreases s.len(),
{
    if s.len() == 0 {
        Seq::empty()
    } else {
        (if s[0].1@.len() == 0 {
            Seq::<u8>::empty()
        } else {
            bstr(s[0].0@) + bstr(concat_digests(s[0].1@))
        }) + layers_enc(s.drop_first())
    }
}

proof fn lemma_layers_enc_take_step(s: Seq<(Digest, Vec<Digest>)>, i: int)
    requires
        0 <= i < s.len(),
    ensures
        layers_enc(s.take(i + 1)) == layers_enc(s.take(i)) + (if s[i].1@.len() == 0 {
            Seq::<u8>::empty()
        } else {
            bstr(s[i].0@) + bstr(concat_digests(s[i].1@))
        }),
    decreases s.len(),
{
    let x = s[i];
    let head = |y: (Digest, Vec<Digest>)|
        if y.1@.len() == 0 {
            Seq::<u8>::empty()
        } else {
            bstr(y.0@) + bstr(concat_digests(y.1@))
        };
    if i == 0 {
        assert(s.take(0) =~= Seq::<(Digest, Vec<Digest>)>::empty());
        assert(s.take(1)[0] == s[0]);
        assert(s.take(1).drop_first() =~= Seq::<(Digest, Vec<Digest>)>::empty());
        assert(layers_enc(s.take(1)) =~= layers_enc(s.take(0)) + head(s[0]));
    } else {
        lemma_layers_enc_take_step(s.drop_first(), i - 1);
        assert(s.take(i + 1)[0] == s[0]);
        assert(s.take(i as int)[0] == s[0]);
        assert(s.take(i + 1).drop_first() =~= s.drop_first().take(i as int));
        assert(s.take(i as int).drop_first() =~= s.drop_first().take(i - 1));
        assert(s.drop_first()[i - 1] == s[i]);
        assert(layers_enc(s.take(i + 1)) =~= layers_enc(s.take(i as int)) + head(s[i]));
    }
}

/// Appends the value bytes of one registry entry: its digests concatenated.
fn push_layer_value(out: &mut Vec<u8>, v: &Vec<Digest>)
    ensures
        final(out)@ == old(out)@ + bstr(concat_digests(v@)),
{
    let mut buf: Vec<u8> = Vec::new();
    let n = v.len();
    let mut i: usize = 0;
    proof {
        assert(buf@ =~= concat_digests(v@.take(0)));
    }
    while i < n
        invariant
            0 <= i <= n,
            n == v@.len(),
            buf@ == concat_digests(v@.take(i as int)),
        decreases n - i,
    {
        buf.extend_from_slice(v[i].as_array().as_slice());
        proof {
            lemma_concat_digests_push(v@.take(i as int), v@[i as int]);
            assert(v@.take(i as int).push(v@[i as int]) =~= v@.take(i + 1));
            assert(buf@ =~= concat_digests(v@.take(i + 1)));
        }
        i += 1;
    }
    proof {
        assert(v@.take(n as int) =~= v@);
    }
    push_bstr(out, buf.as_slice());
}

/// The encoding of the torrent's info dictionary.
pub open spec fn info_enc(i: Info) -> Seq<u8> {
    seq![100u8] + bstr(key_file_tree()) + dir_enc(i.file_tree) + bstr(key_meta_version()) + bint(2)
        + bstr(key_name()) + bstr(encode_utf8(i.name@)) + bstr(key_piece_length()) + bint(
        piece_len_bytes(i.piece_length.layers as nat),
    ) + seq![101u8]
}

/// The encoding of a whole torrent.
pub open spec fn torrent_enc(t: Torrent) -> Seq<u8> {
    seq![100u8] + bstr(key_announce()) + bstr(encode_utf8(t.announce@)) + bstr(key_info())
        + info_enc(t.info) + bstr(key_piece_layers()) + seq![100u8] + layers_enc(t.piece_layers@)
        + seq![101u8] + seq![101u8]
}

fn encode_info_into(info: &Info, out: &mut Vec<u8>) -> (r: Result<(), EncodeError>)
    requires
        info.piece_length.layers <= 49,
    ensures
        r is Ok <==> entries_height(info.file_tree.entries@) <= 19,
        r is Ok ==> final(out)@ == old(out)@ + info_enc(*info),
{
    out.push(100);  // 'd'
    let ft = [102u8, 105u8, 108u8, 101u8, 32u8, 116u8, 114u8, 101u8, 101u8];  // "file tree"
    proof {
        assert(ft@ =~= key_file_tree());
    }
    push_bstr(out, ft.as_slice());
    out.push(100);  // 'd'
    match encode_entries_into(&info.file_tree.entries, 1, out) {
        Ok(_) => {},
        Err(err) => {
            return Err(err);
        },
    }
    out.push(101);  // 'e'
    let mv = [109u8, 101u8, 116u8, 97u8, 32u8, 118u8, 101u8, 114u8, 115u8, 105u8, 111u8, 110u8];  // "meta version"
    proof {
        assert(mv@ =~= key_meta_version());
    }
    push_bstr(out, mv.as_slice());
    push_bint(out, 2);
    let nm = [110u8, 97u8, 109u8, 101u8];  // "name"
    proof {
        assert(nm@ =~= key_name());
    }
    push_bstr(out, nm.as_slice());
    push_bstr(out, info.name.as_str().as_bytes());
    let pl = [112u8, 105u8, 101u8, 99u8, 101u8, 32u8, 108u8, 101u8, 110u8, 103u8, 116u8, 104u8];  // "piece length"
    proof {
        assert(pl@ =~= key_piece_length());
    }
    push_bstr(out, pl.as_slice());
    push_bint(out, info.piece_length.bytes());
    out.push(101);  // 'e'
    proof {
        assert(final(out)@ =~= old(out)@ + info_enc(*info));
    }
    Ok(())
}

impl Info {
    /// The canonical encoding of the info dictionary alone.
    pub fn to_bencode(&self) -> (r: Result<Vec<u8>, EncodeError>)
        requires
            self.piece_length.layers <= 49,
        ensures
            r matches Ok(v) ==> v@ == info_enc(*self),
            r is Ok <==> entries_height(self.file_tree.entries@) <= 19,
    {
        let mut out: Vec<u8> = Vec::new();
        match encode_info_into(self, &mut out) {
            Ok(_) => {
                proof {
                    assert(Seq::<u8>::empty() + info_enc(*self) =~= info_enc(*self));
                }
                Ok(out)
            },
            Err(err) => Err(err),
        }
    }
}

impl Torrent {
    /// The canonical encoding of the whole torrent: every dictionary in
    /// sorted key order, the piece-digest registry keyed by pieces root
    /// with entries holding an empty list omitted. Fails, rather than
    /// truncating, when the file tree nests directories deeper than
    /// `MAX_FILE_PATH_DEPTH`.
    pub fn to_bencode(&self) -> (r: Result<Vec<u8>, EncodeError>)
        requires
            self.info.piece_length.layers <= 49,
        ensures
            r matches Ok(v) ==> v@ == torrent_enc(*self),
            r is Ok <==> entries_height(self.info.file_tree.entries@) <= 19,
    {
        let mut out: Vec<u8> = Vec::new();
        out.push(100);  // 'd'
        let an = [97u8, 110u8, 110u8, 111u8, 117u8, 110u8, 99u8, 101u8];  // "announce"
        proof {
            assert(an@ =~= key_announce());
        }
        push_bstr(&mut out, an.as_slice());
        push_bstr(&mut out, self.announce.as_str().as_bytes());
        let inf = [105u8, 110u8, 102u8, 111u8];  // "info"
        proof {
            assert(inf@ =~= key_info());
        }
        push_bstr(&mut out, inf.as_slice());
        match encode_info_into(&self.info, &mut out) {
            Ok(_) => {},
            Err(err) => {
                return Err(err);
            },
        }
        let play = [112u8, 105u8, 101u8, 99u8, 101u8, 32u8, 108u8, 97u8, 121u8, 101u8, 114u8, 115u8];  // "piece layers"
        proof {
            assert(play@ =~= key_piece_layers());
        }
        push_bstr(&mut out, play.as_slice());
        out.push(100);  // 'd'
        let ghost mid = out@;
        let n = self.piece_layers.len();
        let mut i: usize = 0;
        proof {
            assert(self.piece_layers@.take(0) =~= Seq::<(Digest, Vec<Digest>)>::empty());
            assert(mid + layers_enc(self.piece_layers@.take(0)) =~= mid);
        }
        while i < n
            invariant
                0 <= i <= n,
                n == self.piece_layers@.len(),
                out@ == mid + layers_enc(self.piece_layers@.take(i as int)),
            decreases n - i,
        {
            let entry = &self.piece_layers[i];
            if entry.1.len() > 0 {
                push_bstr(&mut out, entry.0.as_array().as_slice());
                push_layer_value(&mut out, &entry.1);
            }
            proof {
                lemma_layers_enc_take_step(self.piece_layers@, i as int);
                assert(out@ =~= mid + layers_enc(self.piece_layers@.take(i + 1)));
            }
            i += 1;
        }
        proof {
            assert(self.piece_layers@.take(n as int) =~= self.piece_layers@);
        }
        out.push(101);  // 'e'
        out.push(101);  // 'e'
        proof {
            assert(out@ =~= torrent_enc(*self));
        }
        Ok(out)
    }
}

} // verus!

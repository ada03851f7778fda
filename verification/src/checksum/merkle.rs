//! Incremental binary merkle tree accumulator.
//!
//! The accumulator keeps a stack of completed subtrees, ordered so the most
//! recently pushed entry is on top. After every insertion settles, no two
//! entries share a layer: equal-layer siblings are combined eagerly, which
//! makes the combination order independent of how leaves are batched.

use vstd::prelude::*;
use vstd::arithmetic::power2::{pow2, lemma_pow2_pos, lemma_pow2_adds, lemma_pow2_strictly_increases};

use crate::checksum::sha256::{self, sha256_of, zero_digest, Digest};

verus! {

/// The digest of an interior node: SHA256 of the two children concatenated,
/// in push order.
pub open spec fn combine(a: Seq<u8>, b: Seq<u8>) -> Seq<u8> {
    sha256_of(a + b)
}

/// The root digest of a complete binary merkle tree over `leaves`.
/// Meaningful when the number of leaves is a power of two (or zero).
pub open spec fn subtree_root(leaves: Seq<Seq<u8>>) -> Seq<u8>
    decreases leaves.len(),
{
    if leaves.len() <= 1 {
        if leaves.len() == 1 {
            leaves[0]
        } else {
            Seq::empty()
        }
    } else {
        let half = leaves.len() / 2;
        combine(subtree_root(leaves.take(half as int)), subtree_root(leaves.skip(half as int)))
    }
}

/// `leaves` extended with copies of `pad` up to `n` entries.
pub open spec fn padded_to(leaves: Seq<Seq<u8>>, pad: Seq<u8>, n: nat) -> Seq<Seq<u8>> {
    leaves + Seq::new((n - leaves.len()) as nat, |i: int| pad)
}

/// Exponent of the smallest power of two that can hold `n` leaves.
pub open spec fn clog2(n: nat) -> nat
    decreases n,
{
    if n <= 1 {
        0
    } else {
        1 + clog2((n + 1) / 2 as nat)
    }
}

/// Number of leaves a tree is padded to by `finish_tree`: the smallest
/// power of two that is at least `n`, and at least one.
pub open spec fn finish_target(n: nat) -> nat {
    pow2(clog2(n))
}

pub open spec fn is_power_of_two(n: nat) -> bool {
    exists|k: nat| n == pow2(k)
}

/// The merkle root of a tree whose `layer` bottom layers are all zero
/// digests: layer 0 is the zero digest itself, and each further layer
/// combines the previous one with itself.
pub open spec fn zero_root_spec(layer: nat) -> Seq<u8>
    decreases layer,
{
    if layer == 0 {
        zero_digest()
    } else {
        let d = zero_root_spec((layer - 1) as nat);
        combine(d, d)
    }
}

/// A completed subtree awaiting a sibling: its layer (height) and root digest.
#[derive(Clone, Copy, Debug)]
pub struct Entry {
    pub layer: u8,
    pub digest: Digest,
}

impl Entry {
    pub fn new(digest: Digest) -> (r: Self)
        ensures
            r.layer == 0,
            r.digest == digest,
    {
        Entry { layer: 0, digest }
    }
}

/// Each stack entry is the root of a complete subtree over a contiguous run
/// of `leaves`, the runs partitioning `leaves` from bottom entry to top.
pub open spec fn covers(stack: Seq<Entry>, leaves: Seq<Seq<u8>>) -> bool
    decreases stack.len(),
{
    if stack.len() == 0 {
        leaves.len() == 0
    } else {
        let k = pow2(stack.last().layer as nat);
        &&& k <= leaves.len()
        &&& stack.last().digest@ == subtree_root(leaves.skip(leaves.len() - k))
        &&& covers(stack.drop_last(), leaves.take(leaves.len() - k))
    }
}

/// Layers strictly decrease from the bottom of the stack to the top.
pub open spec fn sorted(stack: Seq<Entry>) -> bool {
    forall|i: int, j: int|
        0 <= i < j < stack.len() ==> (#[trigger] stack[j]).layer < (#[trigger] stack[i]).layer
}

/// Total number of leaves represented by the completed subtrees on the stack.
pub open spec fn stack_count(stack: Seq<Entry>) -> nat
    decreases stack.len(),
{
    if stack.len() == 0 {
        0
    } else {
        stack_count(stack.drop_last()) + pow2(stack.last().layer as nat)
    }
}

/// Builds a binary merkle tree over an append-only sequence of leaf digests.
/// Its ghost view is the sequence of leaves added since the last reset.
#[derive(Clone)]
pub struct Hasher {
    stack: Vec<Entry>,
    added: Ghost<Seq<Seq<u8>>>,
}

proof fn lemma_covers_count(stack: Seq<Entry>, leaves: Seq<Seq<u8>>)
    requires
        covers(stack, leaves),
    ensures
        stack_count(stack) == leaves.len(),
    decreases stack.len(),
{
    if stack.len() > 0 {
        let k = pow2(stack.last().layer as nat);
        lemma_covers_count(stack.drop_last(), leaves.take(leaves.len() - k));
    }
}

proof fn lemma_pow2_le(e1: nat, e2: nat)
    requires
        e1 <= e2,
    ensures
        pow2(e1) <= pow2(e2),
{
    if e1 < e2 {
        lemma_pow2_strictly_increases(e1, e2);
    }
}

/// A sorted stack holds fewer than `2^(bottom layer + 1)` leaves, at least
/// `2^(bottom layer)`, and strictly more than that when it has two or more
/// entries.
proof fn lemma_sorted_count_bound(stack: Seq<Entry>)
    requires
        sorted(stack),
        stack.len() >= 1,
    ensures
        stack_count(stack) + pow2(stack.last().layer as nat) <= pow2(stack[0].layer as nat + 1),
        stack_count(stack) < pow2(stack[0].layer as nat + 1),
        stack_count(stack) >= pow2(stack[0].layer as nat),
        stack.len() >= 2 ==> stack_count(stack) > pow2(stack[0].layer as nat),
    decreases stack.len(),
{
    lemma_pow2_pos(stack.last().layer as nat);
    lemma_pow2_pos(stack[0].layer as nat);
    assert(pow2(1) == 2) by {
        vstd::arithmetic::power2::lemma2_to64();
    }
    if stack.len() == 1 {
        assert(stack.drop_last().len() == 0);
        assert(stack_count(stack.drop_last()) == 0);
        lemma_pow2_adds(stack[0].layer as nat, 1);
    } else {
        let r = stack.drop_last();
        assert(r[0] == stack[0]);
        assert(r.last() == stack[stack.len() - 2]);
        assert forall|i: int, j: int| 0 <= i < j < r.len() implies (#[trigger] r[j]).layer < (
        #[trigger] r[i]).layer by {
            assert(r[i] == stack[i]);
            assert(r[j] == stack[j]);
        }
        lemma_sorted_count_bound(r);
        // the top layer is strictly below the layer beneath it
        assert((stack[stack.len() - 1]).layer < (stack[stack.len() - 2]).layer);
        lemma_pow2_adds(stack.last().layer as nat, 1);
        lemma_pow2_le(stack.last().layer as nat + 1, r.last().layer as nat);
        lemma_pow2_pos(r.last().layer as nat);
    }
}

/// No power of two lies strictly between two adjacent powers of two.
proof fn lemma_no_pow2_between(n: nat, k: nat)
    requires
        pow2(k) < n < pow2(k + 1),
    ensures
        !is_power_of_two(n),
{
    if is_power_of_two(n) {
        let l = choose|l: nat| n == pow2(l);
        if l <= k {
            lemma_pow2_le(l, k);
        } else {
            lemma_pow2_le(k + 1, l);
        }
    }
}

proof fn lemma_clog2_le_pow(n: nat, k: nat)
    requires
        n <= pow2(k),
    ensures
        clog2(n) <= k,
    decreases n,
{
    if n > 1 {
        lemma_pow2_pos(k);
        if k == 0 {
            assert(pow2(0) == 1) by {
                vstd::arithmetic::power2::lemma2_to64();
            }
        } else {
            lemma_pow2_adds((k - 1) as nat, 1);
            assert(pow2(1) == 2) by {
                vstd::arithmetic::power2::lemma2_to64();
            }
            // n <= 2 * pow2(k - 1), so (n + 1) / 2 <= pow2(k - 1)
            lemma_clog2_le_pow(((n + 1) / 2) as nat, (k - 1) as nat);
        }
    }
}

proof fn lemma_finish_target_ge(n: nat)
    ensures
        n <= finish_target(n),
        finish_target(n) >= 1,
    decreases n,
{
    lemma_pow2_pos(clog2(n));
    if n > 1 {
        lemma_finish_target_ge(((n + 1) / 2) as nat);
        lemma_pow2_adds(clog2(((n + 1) / 2) as nat), 1);
        assert(pow2(1) == 2) by {
            vstd::arithmetic::power2::lemma2_to64();
        }
    }
}

/// A power of two is its own finish target.
proof fn lemma_finish_target_pow2(k: nat)
    ensures
        clog2(pow2(k)) == k,
    decreases k,
{
    if k == 0 {
        assert(pow2(0) == 1) by {
            vstd::arithmetic::power2::lemma2_to64();
        }
    } else {
        lemma_pow2_adds((k - 1) as nat, 1);
        assert(pow2(1) == 2) by {
            vstd::arithmetic::power2::lemma2_to64();
        }
        lemma_pow2_pos((k - 1) as nat);
        assert((pow2(k) + 1) / 2 == pow2((k - 1) as nat));
        lemma_finish_target_pow2((k - 1) as nat);
    }
}

/// Adding one leaf to a count that is not yet a power of two does not move
/// the finish target.
proof fn lemma_clog2_step(c: nat)
    requires
        c >= 1,
        !is_power_of_two(c),
    ensures
        clog2(c + 1) == clog2(c),
    decreases c,
{
    assert(pow2(0) == 1 && pow2(1) == 2) by {
        vstd::arithmetic::power2::lemma2_to64();
    }
    assert(c != 1);
    assert(c != 2) by {
        if c == 2 {
            assert(c == pow2(1));
        }
    }
    if c % 2 == 1 {
        // both recurse on (c + 1) / 2
        assert((c + 1 + 1) / 2 == (c + 1) / 2);
    } else {
        let h = c / 2;
        assert((c + 1) / 2 == h);
        assert((c + 1 + 1) / 2 == h + 1);
        assert(h >= 1);
        assert(!is_power_of_two(h)) by {
            if is_power_of_two(h) {
                let l = choose|l: nat| h == pow2(l);
                lemma_pow2_adds(l, 1);
                assert(c == pow2(l + 1));
            }
        }
        lemma_clog2_step(h);
    }
}

impl Hasher {
    /// The leaves added since the last reset.
    pub closed spec fn blocks(self) -> Seq<Seq<u8>> {
        self.added@
    }

    /// The stack of pending subtrees matches the added leaves.
    pub closed spec fn wf(self) -> bool {
        &&& covers(self.stack@, self.added@)
        &&& sorted(self.stack@)
        &&& self.added@.len() <= pow2(255)
    }

    pub fn new() -> (r: Self)
        ensures
            r.wf(),
            r.blocks() == Seq::<Seq<u8>>::empty(),
    {
        Hasher { stack: Vec::new(), added: Ghost(Seq::empty()) }
    }

    /// Computes SHA256(a ++ b).
    fn combine_digests(a: &Digest, b: &Digest) -> (r: Digest)
        ensures
            r@ == combine(a@, b@),
    {
        let mut h = sha256::Hasher::new();
        h.update(a.as_array().as_slice());
        h.update(b.as_array().as_slice());
        proof {
            assert(Seq::<u8>::empty() + a@ + b@ =~= a@ + b@);
        }
        h.into_digest()
    }

    /// Adds an entry to the bottom layer of the merkle tree, then combines
    /// equal-layer siblings until the stack layers strictly decrease again.
    pub fn add_block(&mut self, hash: &Digest)
        requires
            old(self).wf(),
            old(self).blocks().len() < pow2(255),
        ensures
            final(self).wf(),
            final(self).blocks() == old(self).blocks().push(hash@),
    {
        proof {
            self.added@ = self.added@.push(hash@);
        }
        let ghost leaves = self.added@;
        self.stack.push(Entry { layer: 0, digest: *hash });
        proof {
            lemma_pow2_pos(0);
            assert(pow2(0) == 1) by {
                vstd::arithmetic::power2::lemma2_to64();
            }
            let s = self.stack@;
            assert(s.drop_last() =~= old(self).stack@);
            assert(leaves.skip(leaves.len() - 1) =~= seq![hash@]);
            assert(subtree_root(seq![hash@]) == hash@);
            assert(leaves.take(leaves.len() - 1) =~= old(self).added@);
            assert(covers(s, leaves));
        }
        while self.stack.len() >= 2 && self.stack[self.stack.len() - 1].layer == self.stack[self.stack.len() - 2].layer
            invariant
                covers(self.stack@, leaves),
                self.added@ == leaves,
                leaves.len() <= pow2(255),
                self.stack.len() >= 1,
                // strictly sorted except that the top entry's layer may equal
                // the one beneath it
                forall|i: int, j: int|
                    0 <= i < j < self.stack@.len() - 1 ==> (#[trigger] self.stack@[j]).layer < (
                    #[trigger] self.stack@[i]).layer,
                self.stack@.len() >= 2 ==> self.stack@[self.stack@.len() - 1].layer
                    <= self.stack@[self.stack@.len() - 2].layer,
            decreases self.stack.len(),
        {
            let ghost prev = self.stack@;
            let b = self.stack.pop().unwrap();
            let a = self.stack.pop().unwrap();
            let ghost s0 = self.stack@;
            let ghost l = a.layer as nat;
            let ghost k = pow2(l) as int;
            let ghost n = leaves.len() as int;
            proof {
                assert(s0 =~= prev.drop_last().drop_last());
                assert(s0.push(a) =~= prev.drop_last());
                assert(s0.push(a).push(b) =~= prev);
                lemma_pow2_pos(l);
                // the two popped entries cover the last 2k leaves
                lemma_covers_count(prev, leaves);
                assert(stack_count(prev) == stack_count(prev.drop_last()) + k);
                assert(stack_count(prev.drop_last()) == stack_count(s0) + k);
                assert(n == stack_count(s0) + k + k);
                lemma_pow2_adds(l, 1);
                assert(pow2(1) == 2) by {
                    vstd::arithmetic::power2::lemma2_to64();
                }
                // layer + 1 stays within u8 range
                assert(pow2(l + 1) <= pow2(255));
                if l + 1 > 255 {
                    lemma_pow2_strictly_increases(255, l + 1);
                }
            }
            let d = Self::combine_digests(&a.digest, &b.digest);
            self.stack.push(Entry { layer: a.layer + 1, digest: d });
            proof {
                let s1 = self.stack@;
                assert(s1.drop_last() =~= s0);
                // unfold covers(prev, leaves) twice to expose the two
                // subtrees being combined
                assert(covers(prev.drop_last(), leaves.take(n - k)));
                assert(covers(s0, leaves.take(n - k).take(n - k - k)));
                assert(b.digest@ == subtree_root(leaves.skip(n - k)));
                assert(a.digest@ == subtree_root(leaves.take(n - k).skip(n - k - k)));
                // the new entry's subtree is the combination of the two
                // adjacent equal-sized subtrees it replaces
                let suffix = leaves.skip(n - 2 * k);
                let left = leaves.take(n - k).skip(n - k - k);
                let right = leaves.skip(n - k);
                assert(suffix.len() == 2 * k);
                assert(suffix.take(k) =~= left);
                assert(suffix.skip(k) =~= right);
                assert(suffix.len() / 2 == k);
                assert(subtree_root(suffix) == combine(subtree_root(left), subtree_root(right)));
                assert(leaves.take(n - k).take(n - k - k) =~= leaves.take(n - 2 * k));
                assert(s1.last() == Entry { layer: (l + 1) as u8, digest: d });
                assert(pow2(s1.last().layer as nat) == 2 * k);
                assert(covers(s1, leaves));
                // the stack stays sorted below its top entry
                assert forall|i: int, j: int| 0 <= i < j < s1.len() - 1 implies (#[trigger] s1[j]).layer
                    < (#[trigger] s1[i]).layer by {
                    assert(s1[i] == prev[i]);
                    assert(s1[j] == prev[j]);
                }
                if s1.len() >= 2 {
                    assert(s1[s1.len() - 2] == prev[prev.len() - 3]);
                    assert((prev[prev.len() - 2]).layer < (prev[prev.len() - 3]).layer);
                }
            }
        }
        proof {
            let s = self.stack@;
            assert forall|i: int, j: int| 0 <= i < j < s.len() implies (#[trigger] s[j]).layer < (
            #[trigger] s[i]).layer by {
                if j < s.len() - 1 {
                } else if i == s.len() - 2 {
                } else {
                    assert((s[s.len() - 2]).layer < (s[i]).layer);
                }
            }
        }
    }

    /// Returns the layer of the single pending subtree if the tree is
    /// closed so far, otherwise None. The tree is closed exactly when the
    /// number of added leaves is a power of two.
    pub fn current_layer(&self) -> (r: Option<u8>)
        requires
            self.wf(),
        ensures
            match r {
                Some(l) => self.blocks().len() == pow2(l as nat),
                None => !is_power_of_two(self.blocks().len()),
            },
    {
        proof {
            lemma_covers_count(self.stack@, self.added@);
            if self.stack@.len() == 0 {
                assert forall|k: nat| self.added@.len() != pow2(k) by {
                    lemma_pow2_pos(k);
                }
            } else if self.stack@.len() >= 2 {
                lemma_sorted_count_bound(self.stack@);
                lemma_no_pow2_between(self.added@.len(), self.stack@[0].layer as nat);
            } else {
                assert(self.stack@.drop_last().len() == 0);
                assert(stack_count(self.stack@.drop_last()) == 0);
                assert(stack_count(self.stack@) == pow2(self.stack@.last().layer as nat));
            }
        }
        if self.stack.len() == 1 {
            Some(self.stack[0].layer)
        } else {
            None
        }
    }

    pub fn is_empty(&self) -> (r: bool)
        requires
            self.wf(),
        ensures
            r == (self.blocks().len() == 0),
    {
        proof {
            lemma_covers_count(self.stack@, self.added@);
            if self.stack@.len() > 0 {
                lemma_pow2_pos(self.stack@.last().layer as nat);
            }
        }
        self.stack.len() == 0
    }

    /// Adds the pad to the merkle tree until a single root remains, returns
    /// that root, and resets. The result is the root over the added leaves
    /// padded out to the next power of two (with zero leaves, a single pad).
    pub fn finish_tree(&mut self, pad: &Digest) -> (r: Digest)
        requires
            old(self).wf(),
        ensures
            final(self).wf(),
            final(self).blocks() == Seq::<Seq<u8>>::empty(),
            r@ == subtree_root(
                padded_to(old(self).blocks(), pad@, finish_target(old(self).blocks().len())),
            ),
    {
        let ghost c0 = self.added@.len();
        let ghost t = finish_target(c0);
        proof {
            lemma_finish_target_ge(c0);
            lemma_clog2_le_pow(c0, 255);
            lemma_pow2_le(clog2(c0), 255);
            assert(self.added@ =~= padded_to(old(self).blocks(), pad@, self.added@.len()));
        }
        while self.stack.len() != 1
            invariant
                self.wf(),
                c0 <= self.added@.len() <= t,
                t <= pow2(255),
                finish_target(self.added@.len()) == t,
                self.added@ == padded_to(old(self).blocks(), pad@, self.added@.len()),
            decreases t - self.added@.len(),
        {
            proof {
                let c = self.added@.len();
                lemma_covers_count(self.stack@, self.added@);
                if self.stack@.len() == 0 {
                    assert(c == 0);
                    assert(clog2(c) == 0);
                    assert(pow2(0) == 1) by {
                        vstd::arithmetic::power2::lemma2_to64();
                    }
                    assert(c < t);
                    assert(clog2(c + 1) == 0);
                } else {
                    lemma_sorted_count_bound(self.stack@);
                    let k = self.stack@[0].layer as nat;
                    lemma_no_pow2_between(c, k);
                    // c is not a power of two, so it is not the target
                    assert(c != t) by {
                        if c == t {
                            assert(c == pow2(clog2(c0)));
                        }
                    }
                    lemma_clog2_step(c);
                }
                assert(self.added@.push(pad@) =~= padded_to(old(self).blocks(), pad@, (
                self.added@.len() + 1) as nat));
            }
            let p = *pad;
            self.add_block(&p);
        }
        proof {
            lemma_covers_count(self.stack@, self.added@);
            assert(covers(self.stack@, self.added@));
            assert(self.stack@.drop_last().len() == 0);
            assert(stack_count(self.stack@.drop_last()) == 0);
            let l = self.stack@.last().layer as nat;
            assert(self.added@.len() == pow2(l));
            lemma_finish_target_pow2(l);
            assert(finish_target(self.added@.len()) == pow2(l));
            assert(self.added@.len() == t);
            assert(self.added@.skip(0) =~= self.added@);
        }
        let ret = self.stack[0].digest;
        self.reset();
        ret
    }

    /// Pads the tree until the root is at the given layer and returns it, or
    /// returns None when the leaves already added cannot fit in a tree of
    /// that layer. In either case the hasher is reset.
    pub fn finish_layer(&mut self, pad: &Digest, layer: u8) -> (r: Option<Digest>)
        requires
            old(self).wf(),
        ensures
            final(self).wf(),
            final(self).blocks() == Seq::<Seq<u8>>::empty(),
            r is Some <==> old(self).blocks().len() <= pow2(layer as nat),
            r matches Some(d) ==> d@ == subtree_root(
                padded_to(old(self).blocks(), pad@, pow2(layer as nat)),
            ),
    {
        proof {
            lemma_covers_count(self.stack@, self.added@);
        }
        if self.stack.len() > 0 {
            let e_layer = self.stack[0].layer;
            proof {
                lemma_sorted_count_bound(self.stack@);
            }
            if e_layer > layer || (e_layer == layer && self.stack.len() > 1) {
                // too many leaves: padding cannot reach the requested layer
                proof {
                    if e_layer > layer {
                        lemma_pow2_strictly_increases(layer as nat, e_layer as nat);
                    }
                }
                self.reset();
                return None;
            }
            proof {
                if self.stack@.len() >= 2 {
                    lemma_pow2_le(e_layer as nat + 1, layer as nat);
                } else {
                    assert(self.stack@.drop_last().len() == 0);
                    assert(stack_count(self.stack@.drop_last()) == 0);
                    assert(stack_count(self.stack@) == pow2(e_layer as nat));
                    lemma_pow2_le(e_layer as nat, layer as nat);
                }
            }
        }
        let ghost t = pow2(layer as nat);
        proof {
            lemma_pow2_le(layer as nat, 255);
            assert(self.added@ =~= padded_to(old(self).blocks(), pad@, self.added@.len()));
        }
        while self.stack.len() != 1 || self.stack[0].layer < layer
            invariant
                self.wf(),
                self.added@.len() <= t,
                t == pow2(layer as nat),
                t <= pow2(255),
                self.added@ == padded_to(old(self).blocks(), pad@, self.added@.len()),
            decreases t - self.added@.len(),
        {
            proof {
                let c = self.added@.len();
                lemma_covers_count(self.stack@, self.added@);
                if self.stack@.len() == 0 {
                    lemma_pow2_pos(layer as nat);
                } else if self.stack@.len() >= 2 {
                    lemma_sorted_count_bound(self.stack@);
                    lemma_no_pow2_between(c, self.stack@[0].layer as nat);
                    assert(c < t) by {
                        if c == t {
                            assert(c == pow2(layer as nat));
                        }
                    }
                } else {
                    // a single entry below the target layer
                    assert(self.stack@.drop_last().len() == 0);
                    assert(stack_count(self.stack@.drop_last()) == 0);
                    assert(stack_count(self.stack@) == pow2(self.stack@.last().layer as nat));
                    lemma_pow2_strictly_increases(self.stack@[0].layer as nat, layer as nat);
                }
                assert(self.added@.push(pad@) =~= padded_to(old(self).blocks(), pad@, (
                self.added@.len() + 1) as nat));
            }
            let p = *pad;
            self.add_block(&p);
        }
        proof {
            lemma_covers_count(self.stack@, self.added@);
            assert(covers(self.stack@, self.added@));
            assert(self.stack@.drop_last().len() == 0);
            assert(stack_count(self.stack@.drop_last()) == 0);
            assert(stack_count(self.stack@) == pow2(self.stack@.last().layer as nat));
            lemma_pow2_le(layer as nat, self.stack@[0].layer as nat);
            assert(self.stack@[0].layer == layer) by {
                if layer < self.stack@[0].layer {
                    lemma_pow2_strictly_increases(layer as nat, self.stack@[0].layer as nat);
                }
            }
            assert(self.added@.len() == t);
            assert(self.added@.skip(0) =~= self.added@);
        }
        let ret = self.stack[0].digest;
        self.reset();
        Some(ret)
    }

    /// Resets the hasher so it can be reused.
    pub fn reset(&mut self)
        ensures
            final(self).wf(),
            final(self).blocks() == Seq::<Seq<u8>>::empty(),
    {
        self.stack.truncate(0);
        proof {
            self.added@ = Seq::empty();
            assert(self.stack@ =~= Seq::<Entry>::empty());
        }
    }
}

impl Default for Hasher {
    fn default() -> (r: Self)
        ensures
            r.wf(),
            r.blocks() == Seq::<Seq<u8>>::empty(),
    {
        Hasher::new()
    }
}

/// The views of a sequence of digest values.
pub open spec fn digest_views(s: Seq<Digest>) -> Seq<Seq<u8>> {
    Seq::new(s.len(), |i: int| s[i]@)
}

/// Calculates the root hash of a merkle tree given one layer of the tree.
/// Missing entries are taken to be roots of all-zero subtrees of that layer.
pub fn root_hash(layer: u8, digests: &Vec<Digest>) -> (r: Digest)
    ensures
        r@ == subtree_root(
            padded_to(
                digest_views(digests@),
                zero_root_spec(layer as nat),
                finish_target(digests@.len()),
            ),
        ),
{
    let mut hasher = Hasher::new();
    let pad = zero_root(layer);
    let n = digests.len();
    proof {
        assert(usize::MAX < pow2(255)) by {
            vstd::arithmetic::power2::lemma2_to64();
            lemma_pow2_strictly_increases(64, 255);
        }
    }
    let mut i: usize = 0;
    while i < n
        invariant
            hasher.wf(),
            n == digests@.len(),
            0 <= i <= n,
            n <= usize::MAX,
            usize::MAX < pow2(255),
            hasher.blocks() == digest_views(digests@).take(i as int),
        decreases n - i,
    {
        hasher.add_block(&digests[i]);
        proof {
            assert(digest_views(digests@).take(i as int).push(digests@[i as int]@) =~= digest_views(
                digests@,
            ).take(i + 1));
        }
        i += 1;
    }
    proof {
        assert(digest_views(digests@).take(n as int) =~= digest_views(digests@));
    }
    hasher.finish_tree(&pad)
}

/// Combining two leaves yields the hash of their concatenation, in push
/// order: the root over exactly `[a, b]` is SHA256(a ++ b).
pub proof fn lemma_root_of_two(a: Seq<u8>, b: Seq<u8>, pad: Seq<u8>)
    ensures
        subtree_root(padded_to(seq![a, b], pad, finish_target(2))) == combine(a, b),
{
    assert(pow2(0) == 1 && pow2(1) == 2) by {
        vstd::arithmetic::power2::lemma2_to64();
    }
    assert(clog2(1) == 0);
    assert(clog2(2) == 1);
    let s = seq![a, b];
    assert(padded_to(s, pad, 2) =~= s);
    assert(s.take(1) =~= seq![a]);
    assert(s.skip(1) =~= seq![b]);
    assert(subtree_root(seq![a]) == a);
    assert(subtree_root(seq![b]) == b);
}

/// Five leaves are padded with exactly three pad leaves to complete a
/// three-layer tree of eight before reducing to the root.
pub proof fn lemma_five_leaves_pad_to_eight(leaves: Seq<Seq<u8>>, pad: Seq<u8>)
    requires
        leaves.len() == 5,
    ensures
        finish_target(5) == 8,
        padded_to(leaves, pad, finish_target(5)) == leaves + seq![pad, pad, pad],
{
    assert(pow2(0) == 1 && pow2(1) == 2 && pow2(2) == 4 && pow2(3) == 8) by {
        vstd::arithmetic::power2::lemma2_to64();
    }
    assert(clog2(1) == 0);
    assert(clog2(2) == 1);
    assert(clog2(3) == 2);
    assert(clog2(5) == 3);
    assert(padded_to(leaves, pad, 8) =~= leaves + seq![pad, pad, pad]);
}

/// Calculates the merkle root of a tree of the given layer all of whose
/// leaves are zeroed digests.
pub fn zero_root(layer: u8) -> (r: Digest)
    ensures
        r@ == zero_root_spec(layer as nat),
{
    let mut d = Digest::zero();
    let mut i: u8 = 0;
    while i < layer
        invariant
            0 <= i <= layer,
            d@ == zero_root_spec(i as nat),
        decreases layer - i,
    {
        d = Hasher::combine_digests(&d, &d);
        i += 1;
    }
    d
}

} // verus!

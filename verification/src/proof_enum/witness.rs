//! The universal witness enumerator.
//!
//! Enumerates all finite byte strings in canonical order: by length, then
//! lexicographically within one length (base-256 counting). Rank 0 is the
//! empty string, ranks 1 to 256 are the strings of length one, rank 257 is
//! `[0, 0]`, and so on. Every finite proof term is a byte string and so
//! appears at some rank; no string appears twice.

use vstd::prelude::*;

verus! {

/// `n` zero bytes.
pub open spec fn zeros(n: nat) -> Seq<u8> {
    Seq::new(n, |i: int| 0u8)
}

/// The next string in the enumeration: the big-endian base-256 successor,
/// and after the all-255 string of length n, the all-zero string of length
/// n + 1.
pub open spec fn successor(s: Seq<u8>) -> Seq<u8>
    decreases s.len(),
{
    if s.len() == 0 {
        seq![0u8]
    } else if s.last() < 255 {
        s.drop_last().push((s.last() + 1) as u8)
    } else {
        let p = successor(s.drop_last());
        if p.len() > s.len() - 1 {
            zeros(s.len() + 1)
        } else {
            p.push(0u8)
        }
    }
}

/// 256^n.
pub open spec fn pow256(n: nat) -> nat
    decreases n,
{
    if n == 0 {
        1
    } else {
        256 * pow256((n - 1) as nat)
    }
}

/// Number of strings shorter than n bytes.
pub open spec fn shorter(n: nat) -> nat
    decreases n,
{
    if n == 0 {
        0
    } else {
        shorter((n - 1) as nat) + pow256((n - 1) as nat)
    }
}

/// Big-endian value of a byte string.
pub open spec fn value(s: Seq<u8>) -> nat
    decreases s.len(),
{
    if s.len() == 0 {
        0
    } else {
        256 * value(s.drop_last()) + (s.last() as nat)
    }
}

/// Position of a string in the enumeration.
pub open spec fn rank_of(s: Seq<u8>) -> nat {
    shorter(s.len()) + value(s)
}

/// The string at position n.
pub open spec fn nth_witness(n: nat) -> Seq<u8>
    decreases n,
{
    if n == 0 {
        Seq::empty()
    } else {
        successor(nth_witness((n - 1) as nat))
    }
}

proof fn lemma_successor_step(s: Seq<u8>)
    ensures
        successor(s).len() == s.len() || successor(s) == zeros(s.len() + 1),
        successor(s).len() == s.len() ==> value(successor(s)) == value(s) + 1,
        successor(s).len() != s.len() ==> value(s) + 1 == pow256(s.len()),
    decreases s.len(),
{
    if s.len() == 0 {
        assert(successor(s).drop_last() =~= Seq::<u8>::empty());
    } else if s.last() < 255 {
        let t = successor(s);
        assert(t.drop_last() =~= s.drop_last());
    } else {
        let init = s.drop_last();
        lemma_successor_step(init);
        let p = successor(init);
        if p.len() > init.len() {
            assert(value(s) == 256 * value(init) + 255);
            assert(value(s) + 1 == pow256(s.len())) by (nonlinear_arith)
                requires
                    value(s) == 256 * value(init) + 255,
                    value(init) + 1 == pow256(init.len()),
                    pow256(s.len()) == 256 * pow256(init.len()),
            ;
        } else {
            let t = p.push(0u8);
            assert(t.drop_last() =~= p);
        }
    }
}

proof fn lemma_value_zeros(n: nat)
    ensures
        value(zeros(n)) == 0,
    decreases n,
{
    if n > 0 {
        assert(zeros(n).drop_last() =~= zeros((n - 1) as nat));
        lemma_value_zeros((n - 1) as nat);
    }
}

/// Each step of the enumeration moves to the next rank.
pub proof fn lemma_successor_rank(s: Seq<u8>)
    ensures
        rank_of(successor(s)) == rank_of(s) + 1,
{
    lemma_successor_step(s);
    if successor(s).len() != s.len() {
        lemma_value_zeros(s.len() + 1);
    }
}

/// The string at position n has rank n.
pub proof fn lemma_nth_rank(n: nat)
    ensures
        rank_of(nth_witness(n)) == n,
    decreases n,
{
    if n > 0 {
        lemma_nth_rank((n - 1) as nat);
        lemma_successor_rank(nth_witness((n - 1) as nat));
    }
}

/// No string appears twice in the enumeration.
pub proof fn lemma_enumeration_distinct(i: nat, j: nat)
    requires
        nth_witness(i) == nth_witness(j),
    ensures
        i == j,
{
    lemma_nth_rank(i);
    lemma_nth_rank(j);
}

/// A string of n bytes has big-endian value below 256^n.
pub proof fn lemma_value_bound(s: Seq<u8>)
    ensures
        value(s) < pow256(s.len()),
    decreases s.len(),
{
    if s.len() > 0 {
        lemma_value_bound(s.drop_last());
    }
}

/// Two strings of one length with one big-endian value are equal: a
/// string is fixed by its length and its base-256 digits.
pub proof fn lemma_value_injective(s: Seq<u8>, t: Seq<u8>)
    requires
        s.len() == t.len(),
        value(s) == value(t),
    ensures
        s == t,
    decreases s.len(),
{
    if s.len() > 0 {
        let a = value(s.drop_last());
        let b = value(t.drop_last());
        assert(256 * a + s.last() == 256 * b + t.last());
        assert(s.last() == t.last() && a == b);
        lemma_value_injective(s.drop_last(), t.drop_last());
        assert(s =~= s.drop_last().push(s.last()));
        assert(t =~= t.drop_last().push(t.last()));
    }
}

/// There are (256^n - 1) / 255 strings shorter than n bytes.
pub proof fn lemma_shorter_closed_form(n: nat)
    ensures
        255 * shorter(n) + 1 == pow256(n),
    decreases n,
{
    if n > 0 {
        lemma_shorter_closed_form((n - 1) as nat);
    }
}

/// The string at position k has the length L with
/// `shorter(L) <= k < shorter(L + 1)`, and its bytes are the L big-endian
/// base-256 digits of `k - shorter(L)`: it is the one string of that length
/// with that value.
pub proof fn lemma_nth_witness_digits(k: nat)
    ensures
        shorter(nth_witness(k).len()) <= k < shorter(nth_witness(k).len() + 1),
        value(nth_witness(k)) == k - shorter(nth_witness(k).len()),
        forall|t: Seq<u8>|
            t.len() == nth_witness(k).len() && value(t) == k - shorter(nth_witness(k).len())
                ==> t == nth_witness(k),
{
    let w = nth_witness(k);
    lemma_nth_rank(k);
    lemma_value_bound(w);
    assert forall|t: Seq<u8>|
        t.len() == w.len() && value(t) == k - shorter(w.len()) implies t == w by {
        lemma_value_injective(t, w);
    }
}

/// Enumerator over all finite byte strings.
pub struct WitnessEnumerator {
    current: Vec<u8>,
    rank: u64,
}

impl WitnessEnumerator {
    /// The string that the next call yields.
    pub closed spec fn current(&self) -> Seq<u8> {
        self.current@
    }

    /// How many strings have been yielded.
    pub closed spec fn spec_rank(&self) -> nat {
        self.rank as nat
    }

    #[verifier::type_invariant]
    closed spec fn inv(&self) -> bool {
        self.current@ == nth_witness(self.rank as nat)
    }

    /// Start from the empty string.
    pub fn new() -> (e: WitnessEnumerator)
        ensures
            e.spec_rank() == 0,
            e.current() == Seq::<u8>::empty(),
    {
        let e = WitnessEnumerator { current: Vec::new(), rank: 0 };
        assert(e.current@ =~= nth_witness(0));
        e
    }

    /// How many strings have been yielded so far.
    pub fn rank(&self) -> (r: u64)
        ensures
            r == self.spec_rank(),
    {
        self.rank
    }

    /// Yield the current rank and string, and advance to the next string.
    pub fn next(&mut self) -> (r: Option<(u64, Vec<u8>)>)
        requires
            old(self).spec_rank() < u64::MAX,
        ensures
            r matches Some((k, b)) && k == old(self).spec_rank() && b@ == nth_witness(k as nat),
            final(self).spec_rank() == old(self).spec_rank() + 1,
            final(self).current() == nth_witness(final(self).spec_rank()),
    {
        proof {
            use_type_invariant(&*self);
        }
        let result = (self.rank, clone_bytes(&self.current));
        let next = successor_bytes(&self.current);
        let rank = self.rank + 1;
        proof {
            assert(next@ == nth_witness(rank as nat));
        }
        *self = WitnessEnumerator { current: next, rank };
        Some(result)
    }
}

fn clone_bytes(v: &Vec<u8>) -> (r: Vec<u8>)
    ensures
        r@ == v@,
{
    let mut out: Vec<u8> = Vec::new();
    let mut i: usize = 0;
    while i < v.len()
        invariant
            i <= v@.len(),
            out@ == v@.take(i as int),
        decreases v@.len() - i,
    {
        out.push(v[i]);
        i = i + 1;
        assert(out@ =~= v@.take(i as int));
    }
    assert(v@.take(i as int) =~= v@);
    out
}

/// The successor computed by a carry loop from the last byte.
proof fn lemma_successor_at(s: Seq<u8>, i: int)
    requires
        0 <= i < s.len(),
        s[i] < 255,
        forall|k: int| i < k < s.len() ==> s[k] == 255,
    ensures
        successor(s) == s.take(i).push((s[i] + 1) as u8) + zeros((s.len() - i - 1) as nat),
    decreases s.len(),
{
    if i == s.len() - 1 {
        assert(s.drop_last() =~= s.take(i));
        assert(zeros(0) =~= Seq::<u8>::empty());
        assert(s.take(i).push((s[i] + 1) as u8) + zeros(0) =~= s.take(i).push((s[i] + 1) as u8));
    } else {
        let init = s.drop_last();
        lemma_successor_at(init, i);
        lemma_successor_step(init);
        assert(init.take(i) =~= s.take(i));
        let p = successor(init);
        assert(p.len() == init.len());
        assert(p.push(0u8) =~= s.take(i).push((s[i] + 1) as u8) + zeros((s.len() - i - 1) as nat));
    }
}

proof fn lemma_successor_all_max(s: Seq<u8>)
    requires
        forall|k: int| 0 <= k < s.len() ==> s[k] == 255,
    ensures
        successor(s) == zeros(s.len() + 1),
    decreases s.len(),
{
    if s.len() == 0 {
        assert(zeros(1) =~= seq![0u8]);
    } else {
        lemma_successor_all_max(s.drop_last());
    }
}

fn successor_bytes(s: &Vec<u8>) -> (r: Vec<u8>)
    ensures
        r@ == successor(s@),
{
    let n = s.len();
    let mut cur = clone_bytes(s);
    let mut i = n;
    while i > 0
        invariant
            i <= n,
            n == s@.len(),
            cur@ == s@.take(i as int) + zeros((n - i) as nat),
            forall|k: int| i <= k < n ==> s@[k] == 255,
        decreases i,
    {
        let b = cur[i - 1];
        assert(b == s@[i - 1]);
        if b == 255 {
            cur.set(i - 1, 0);
            i = i - 1;
            assert(cur@ =~= s@.take(i as int) + zeros((n - i) as nat));
        } else {
            cur.set(i - 1, b + 1);
            proof {
                lemma_successor_at(s@, i - 1);
                assert(cur@ =~= s@.take(i - 1).push((s@[i - 1] + 1) as u8) + zeros((n - i) as nat));
            }
            return cur;
        }
    }
    proof {
        lemma_successor_all_max(s@);
    }
    let mut z: Vec<u8> = Vec::new();
    let mut k: usize = 0;
    while k < n
        invariant
            k <= n,
            n == s@.len(),
            z@ == zeros(k as nat),
        decreases n - k,
    {
        z.push(0);
        k = k + 1;
        assert(z@ =~= zeros(k as nat));
    }
    z.push(0);
    assert(z@ =~= zeros(n as nat + 1));
    z
}

} // verus!

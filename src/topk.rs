//! Bounded best-k selection over scored records.
//!
//! A scored record is a pair `(id, key)`; a smaller key is a closer match.
//! The ranking is stable: among equal keys the record scanned first comes
//! first.
use vstd::prelude::*;

verus! {

/// The number of leading entries of `s` whose key is at most `key`: where a
/// new entry with that key goes, after every entry that ranks no worse.
pub open spec fn rank_pos(s: Seq<(u64, u32)>, key: u32) -> nat
    decreases s.len(),
{
    if s.len() == 0 {
        0
    } else if s[0].1 > key {
        0
    } else {
        1 + rank_pos(s.drop_first(), key)
    }
}

/// `s` with `x` placed at its rank.
pub open spec fn insert_ranked(s: Seq<(u64, u32)>, x: (u64, u32)) -> Seq<(u64, u32)> {
    s.insert(rank_pos(s, x.1) as int, x)
}

/// All of `s` ordered by key, ties kept in scan order.
pub open spec fn ranked(s: Seq<(u64, u32)>) -> Seq<(u64, u32)>
    decreases s.len(),
{
    if s.len() == 0 {
        Seq::empty()
    } else {
        insert_ranked(ranked(s.drop_last()), s.last())
    }
}

/// The smaller of two naturals.
pub open spec fn min_nat(a: nat, b: nat) -> nat {
    if a <= b {
        a
    } else {
        b
    }
}

/// The best `k` of `s`: the first `k` entries of its stable ranking.
pub open spec fn best_of(s: Seq<(u64, u32)>, k: nat) -> Seq<(u64, u32)> {
    ranked(s).take(min_nat(k, s.len()) as int)
}

/// Keys never decrease along `s`.
pub open spec fn sorted_by_key(s: Seq<(u64, u32)>) -> bool {
    forall|i: int, j: int| 0 <= i < j < s.len() ==> s[i].1 <= s[j].1
}

proof fn lemma_rank_pos(s: Seq<(u64, u32)>, key: u32)
    ensures
        rank_pos(s, key) <= s.len(),
        forall|i: int| 0 <= i < rank_pos(s, key) ==> s[i].1 <= key,
        rank_pos(s, key) < s.len() ==> s[rank_pos(s, key) as int].1 > key,
    decreases s.len(),
{
    if s.len() > 0 && s[0].1 <= key {
        lemma_rank_pos(s.drop_first(), key);
        assert forall|i: int| 0 <= i < rank_pos(s, key) implies s[i].1 <= key by {
            if i > 0 {
                assert(s[i] == s.drop_first()[i - 1]);
            }
        }
    }
}

proof fn lemma_rank_pos_take(s: Seq<(u64, u32)>, key: u32, m: nat)
    requires
        m <= s.len(),
    ensures
        rank_pos(s.take(m as int), key) == min_nat(rank_pos(s, key), m),
    decreases s.len(),
{
    if m > 0 && s[0].1 <= key {
        assert(s.take(m as int).drop_first() =~= s.drop_first().take(m - 1));
        lemma_rank_pos_take(s.drop_first(), key, (m - 1) as nat);
    }
}

proof fn lemma_ranked_len(s: Seq<(u64, u32)>)
    ensures
        ranked(s).len() == s.len(),
    decreases s.len(),
{
    if s.len() > 0 {
        lemma_ranked_len(s.drop_last());
        lemma_rank_pos(ranked(s.drop_last()), s.last().1);
    }
}

proof fn lemma_insert_ranked_sorted(s: Seq<(u64, u32)>, x: (u64, u32))
    requires
        sorted_by_key(s),
    ensures
        sorted_by_key(insert_ranked(s, x)),
{
    lemma_rank_pos(s, x.1);
    let q = rank_pos(s, x.1) as int;
    let t = insert_ranked(s, x);
    assert forall|i: int, j: int| 0 <= i < j < t.len() implies t[i].1 <= t[j].1 by {
        if j < q {
        } else if j == q {
        } else if i < q {
            assert(s[i].1 <= x.1);
        } else if i == q {
            assert(s[q].1 > x.1);
            assert(s[q].1 <= s[j - 1].1);
        } else {
        }
    }
}

/// The stable ranking of any sequence is ordered by key.
pub proof fn lemma_ranked_sorted(s: Seq<(u64, u32)>)
    ensures
        sorted_by_key(ranked(s)),
    decreases s.len(),
{
    if s.len() > 0 {
        lemma_ranked_sorted(s.drop_last());
        lemma_insert_ranked_sorted(ranked(s.drop_last()), s.last());
    }
}

/// Keeping only the best `k` before ranking one more entry loses nothing.
proof fn lemma_best_step(p: Seq<(u64, u32)>, x: (u64, u32), k: nat)
    ensures
        best_of(p.push(x), k) == insert_ranked(best_of(p, k), x).take(
            min_nat(k, p.len() + 1) as int,
        ),
{
    let s = ranked(p);
    lemma_ranked_len(p);
    lemma_rank_pos(s, x.1);
    assert(p.push(x).drop_last() =~= p);
    let m = min_nat(k, p.len());
    let m1 = min_nat(k, p.len() + 1);
    let q = rank_pos(s, x.1);
    lemma_rank_pos_take(s, x.1, m);
    let lhs = s.insert(q as int, x).take(m1 as int);
    let rhs = s.take(m as int).insert(rank_pos(s.take(m as int), x.1) as int, x).take(m1 as int);
    if q < m {
        assert(lhs =~= rhs);
    } else if m == k {
        assert(lhs =~= s.take(k as int));
        assert(rhs =~= s.take(k as int));
    } else {
        assert(q == p.len());
        assert(lhs =~= rhs);
    }
}

/// Puts `item` into the best-set `best`, which holds at most `top_k`
/// entries ordered by rank; the worst entry leaves when the set overflows.
fn best_insert(best: &mut Vec<(u64, u32)>, top_k: usize, item: (u64, u32))
    requires
        old(best)@.len() <= top_k,
    ensures
        final(best)@ == insert_ranked(old(best)@, item).take(
            min_nat(top_k as nat, old(best)@.len() + 1) as int,
        ),
{
    let ghost s = best@;
    proof {
        lemma_rank_pos(s, item.1);
    }
    let mut pos: usize = 0;
    assert(s.skip(0) =~= s);
    while pos < best.len() && best[pos].1 <= item.1
        invariant
            best@ == s,
            pos <= s.len(),
            rank_pos(s, item.1) == pos + rank_pos(s.skip(pos as int), item.1),
        decreases s.len() - pos,
    {
        assert(s.skip(pos as int).drop_first() =~= s.skip(pos + 1));
        pos = pos + 1;
    }
    assert(rank_pos(s, item.1) == pos) by {
        if pos < s.len() {
            assert(s.skip(pos as int)[0] == s[pos as int]);
        }
    }
    if pos < top_k {
        best.insert(pos, item);
        if best.len() > top_k {
            best.pop();
            assert(best@ =~= s.insert(pos as int, item).take(top_k as int));
        } else {
            assert(best@ =~= s.insert(pos as int, item).take(s.len() + 1 as int));
        }
    } else {
        assert(best@ =~= s.insert(pos as int, item).take(top_k as int));
    }
}

/// The best `top_k` entries of `scored`, closest first, ties in scan order.
pub fn select_top_k(scored: &[(u64, u32)], top_k: usize) -> (r: Vec<(u64, u32)>)
    ensures
        r@ == best_of(scored@, top_k as nat),
        r@.len() == min_nat(top_k as nat, scored@.len()),
        sorted_by_key(r@),
        top_k == 0 ==> r@.len() == 0,
        scored@.len() == 0 ==> r@.len() == 0,
{
    let mut best: Vec<(u64, u32)> = Vec::new();
    let mut i: usize = 0;
    assert(scored@.take(0) =~= Seq::<(u64, u32)>::empty());
    while i < scored.len()
        invariant
            i <= scored@.len(),
            best@ == best_of(scored@.take(i as int), top_k as nat),
            best@.len() == min_nat(top_k as nat, i as nat),
        decreases scored.len() - i,
    {
        proof {
            lemma_best_step(scored@.take(i as int), scored@[i as int], top_k as nat);
            assert(scored@.take(i as int).push(scored@[i as int]) =~= scored@.take(i + 1));
            lemma_ranked_len(scored@.take(i + 1));
            lemma_ranked_len(scored@.take(i as int));
        }
        best_insert(&mut best, top_k, scored[i]);
        i = i + 1;
    }
    proof {
        assert(scored@.take(i as int) =~= scored@);
        lemma_ranked_len(scored@);
        lemma_ranked_sorted(scored@);
        let s = ranked(scored@);
        let m = min_nat(top_k as nat, scored@.len());
        assert forall|a: int, b: int| 0 <= a < b < m implies best@[a].1 <= best@[b].1 by {
            assert(best@[a] == s[a] && best@[b] == s[b]);
        }
    }
    best
}

/// Sign bit of a single-precision bit pattern.
pub const SIGN_BIT: u32 = 0x8000_0000;

/// The ranking key of the distance whose single-precision bit pattern is
/// `bits`: for non-NaN values, a smaller distance gets a smaller key.
pub open spec fn key_of_bits(bits: u32) -> u32 {
    if bits & SIGN_BIT != 0 {
        !bits
    } else {
        bits | SIGN_BIT
    }
}

/// The bit pattern whose ranking key is `key`.
pub open spec fn bits_of_key(key: u32) -> u32 {
    if key & SIGN_BIT != 0 {
        key & !SIGN_BIT
    } else {
        !key
    }
}

/// Turning a distance into its key and back gives the same bits.
pub proof fn lemma_key_round_trip(bits: u32)
    ensures
        bits_of_key(key_of_bits(bits)) == bits,
{
    assert(bits & 0x8000_0000u32 != 0 ==> (!bits) & 0x8000_0000u32 == 0 && !(!bits) == bits)
        by (bit_vector);
    assert(bits & 0x8000_0000u32 == 0 ==> (bits | 0x8000_0000u32) & 0x8000_0000u32 != 0 && (bits
        | 0x8000_0000u32) & !0x8000_0000u32 == bits) by (bit_vector);
}

/// Among non-negative distances the key keeps the order of the bit
/// patterns, which is the order of the values.
pub proof fn lemma_key_monotone(a: u32, b: u32)
    requires
        a & SIGN_BIT == 0,
        b & SIGN_BIT == 0,
        a <= b,
    ensures
        key_of_bits(a) <= key_of_bits(b),
{
    assert(a & 0x8000_0000u32 == 0 && b & 0x8000_0000u32 == 0 && a <= b ==> (a | 0x8000_0000u32)
        <= (b | 0x8000_0000u32)) by (bit_vector);
}

/// The ranking key of a distance given by its bit pattern.
pub fn distance_key(bits: u32) -> (r: u32)
    ensures
        r == key_of_bits(bits),
{
    if bits & SIGN_BIT != 0 {
        !bits
    } else {
        bits | SIGN_BIT
    }
}

/// The bit pattern of the distance whose ranking key is `key`.
pub fn key_distance_bits(key: u32) -> (r: u32)
    ensures
        r == bits_of_key(key),
{
    if key & SIGN_BIT != 0 {
        key & !SIGN_BIT
    } else {
        !key
    }
}

} // verus!

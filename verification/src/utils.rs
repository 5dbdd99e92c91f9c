//! Lamport clock arithmetic, frontier operations, version comparison, and
//! the digest and hex encoding that snapshot hashes are made of.
use vstd::prelude::*;
use crate::ordmap::OrdMap;
use crate::types::{Frontier, PeerId, Version, version_lt};

verus! {

/// The counter a frontier holds for `peer`, or 0 where it has none.
pub open spec fn counter_of(f: Map<Seq<char>, u64>, peer: Seq<char>) -> u64 {
    if f.contains_key(peer) {
        f[peer]
    } else {
        0
    }
}

pub open spec fn max_u64(a: u64, b: u64) -> u64 {
    if a >= b {
        a
    } else {
        b
    }
}

/// The join of two frontiers: every peer of either, at the higher counter.
pub open spec fn frontier_join(a: Map<Seq<char>, u64>, b: Map<Seq<char>, u64>) -> Map<
    Seq<char>,
    u64,
> {
    Map::new(
        |p: Seq<char>| a.contains_key(p) || b.contains_key(p),
        |p: Seq<char>| max_u64(counter_of(a, p), counter_of(b, p)),
    )
}

/// `a` has seen everything `b` has: for each peer of `b`, `a`'s counter is at
/// least `b`'s.
pub open spec fn frontier_covers(a: Map<Seq<char>, u64>, b: Map<Seq<char>, u64>) -> bool {
    forall|p: Seq<char>| #[trigger] b.contains_key(p) ==> counter_of(a, p) >= b[p]
}

/// Advance a Lamport clock on a received counter: the maximum, plus one.
pub fn lamport_advance(local: u64, received: u64) -> (r: u64)
    requires
        local < u64::MAX,
        received < u64::MAX,
    ensures
        r == max_u64(local, received) + 1,
{
    if local >= received {
        local + 1
    } else {
        received + 1
    }
}

/// Tick the local counter for a local write, returning the new counter.
pub fn lamport_tick(counter: &mut u64) -> (r: u64)
    requires
        *old(counter) < u64::MAX,
    ensures
        *final(counter) == *old(counter) + 1,
        r == *final(counter),
{
    *counter = *counter + 1;
    *counter
}

/// The counter `f` holds for `p` among its first `i` entries, or 0.
pub open spec fn prefix_counter(f: &Frontier, i: int, p: Seq<char>) -> u64 {
    if f.key_seq().subrange(0, i).contains(p) {
        f@[p]
    } else {
        0
    }
}

/// Merge two frontiers: each peer at the higher of its two counters.
pub fn merge_frontiers(a: &Frontier, b: &Frontier) -> (r: Frontier)
    ensures
        r@ == frontier_join(a@, b@),
{
    let mut result: Frontier = OrdMap::new();
    let na = a.len();
    let mut i: usize = 0;
    while i < na
        invariant
            na == a.key_seq().len(),
            i <= na,
            a.shape(),
            forall|p: Seq<char>| #[trigger]
                result@.contains_key(p) == a.key_seq().subrange(0, i as int).contains(p),
            forall|p: Seq<char>| #[trigger] result@.contains_key(p) ==> result@[p] == a@[p],
        decreases na - i,
    {
        let peer = a.key_at(i);
        let cnt = *a.value_at(i);
        let ghost before = result@;
        frontier_update(&mut result, peer, cnt);
        proof {
            let ks = a.key_seq();
            assert(ks.subrange(0, i + 1) =~= ks.subrange(0, i as int).push(ks[i as int]));
            assert(!ks.subrange(0, i as int).contains(ks[i as int])) by {
                if ks.subrange(0, i as int).contains(ks[i as int]) {
                    let j = ks.subrange(0, i as int).index_of(ks[i as int]);
                    assert(ks[j] == ks[i as int]);
                }
            }
            assert(!before.contains_key(ks[i as int]));
            assert forall|p: Seq<char>| #[trigger]
                result@.contains_key(p) == ks.subrange(0, i + 1).contains(p) by {
                if p == ks[i as int] {
                    assert(ks.subrange(0, i + 1)[i as int] == p);
                }
                if ks.subrange(0, i + 1).contains(p) && p != ks[i as int] {
                    let j = ks.subrange(0, i + 1).index_of(p);
                    assert(ks.subrange(0, i as int)[j] == p);
                }
            }
        }
        i = i + 1;
    }
    proof {
        let ks = a.key_seq();
        assert(ks.subrange(0, na as int) =~= ks);
    }
    let nb = b.len();
    let mut j: usize = 0;
    while j < nb
        invariant
            nb == b.key_seq().len(),
            j <= nb,
            b.shape(),
            forall|p: Seq<char>| #[trigger]
                result@.contains_key(p) == (a@.contains_key(p) || b.key_seq().subrange(
                    0,
                    j as int,
                ).contains(p)),
            forall|p: Seq<char>| #[trigger]
                result@.contains_key(p) ==> result@[p] == max_u64(
                    counter_of(a@, p),
                    prefix_counter(b, j as int, p),
                ),
        decreases nb - j,
    {
        let peer = b.key_at(j);
        let cnt = *b.value_at(j);
        let ghost before = result@;
        frontier_update(&mut result, peer, cnt);
        proof {
            let ks = b.key_seq();
            let p0 = ks[j as int];
            assert(ks.subrange(0, j + 1) =~= ks.subrange(0, j as int).push(p0));
            assert(!ks.subrange(0, j as int).contains(p0)) by {
                if ks.subrange(0, j as int).contains(p0) {
                    let k = ks.subrange(0, j as int).index_of(p0);
                    assert(ks[k] == p0);
                }
            }
            assert(ks.subrange(0, j + 1)[j as int] == p0);
            assert forall|p: Seq<char>| #[trigger]
                result@.contains_key(p) == (a@.contains_key(p) || ks.subrange(0, j + 1).contains(
                    p,
                )) by {
                if ks.subrange(0, j + 1).contains(p) && p != p0 {
                    let k = ks.subrange(0, j + 1).index_of(p);
                    assert(ks.subrange(0, j as int)[k] == p);
                }
                if ks.subrange(0, j as int).contains(p) {
                    let k = ks.subrange(0, j as int).index_of(p);
                    assert(ks.subrange(0, j + 1)[k] == p);
                }
            }
            assert forall|p: Seq<char>| #[trigger] result@.contains_key(p) implies result@[p]
                == max_u64(counter_of(a@, p), prefix_counter(b, j + 1, p)) by {
                if p != p0 {
                    if ks.subrange(0, j + 1).contains(p) {
                        let k = ks.subrange(0, j + 1).index_of(p);
                        assert(ks.subrange(0, j as int)[k] == p);
                    }
                    if ks.subrange(0, j as int).contains(p) {
                        let k = ks.subrange(0, j as int).index_of(p);
                        assert(ks.subrange(0, j + 1)[k] == p);
                    }
                } else {
                    assert(b@[p0] == cnt);
                }
            }
        }
        j = j + 1;
    }
    proof {
        let ks = b.key_seq();
        assert(ks.subrange(0, nb as int) =~= ks);
        assert forall|p: Seq<char>| b@.contains_key(p) <==> #[trigger] ks.contains(p) by {
            assert(b@.dom() == ks.to_set());
        }
        assert(result@ =~= frontier_join(a@, b@));
    }
    result
}

/// Raise `peer`'s entry in a frontier to `counter` (entering it if absent).
pub fn frontier_update(frontier: &mut Frontier, peer: &PeerId, counter: u64)
    ensures
        final(frontier)@ == old(frontier)@.insert(
            peer@,
            max_u64(counter_of(old(frontier)@, peer@), counter),
        ),
{
    let current: u64 = match frontier.get(peer) {
        Some(c) => *c,
        None => 0,
    };
    let next = if counter > current {
        counter
    } else {
        current
    };
    frontier.insert(peer.clone(), next);
}

/// Whether frontier `a` has seen everything in frontier `b`.
pub fn frontier_dominates(a: &Frontier, b: &Frontier) -> (r: bool)
    ensures
        r == frontier_covers(a@, b@),
{
    let nb = b.len();
    let mut i: usize = 0;
    while i < nb
        invariant
            nb == b.key_seq().len(),
            i <= nb,
            b.shape(),
            forall|j: int| 0 <= j < i ==> counter_of(a@, #[trigger] b.key_seq()[j]) >= b.val_seq()[j],
        decreases nb - i,
    {
        let peer = b.key_at(i);
        let cnt = *b.value_at(i);
        let known: u64 = match a.get(peer) {
            Some(c) => *c,
            None => 0,
        };
        if known < cnt {
            proof {
                assert(b@.contains_key(b.key_seq()[i as int]));
            }
            return false;
        }
        i = i + 1;
    }
    proof {
        assert forall|p: Seq<char>| #[trigger] b@.contains_key(p) implies counter_of(a@, p) >= b@[p] by {
            assert(b.key_seq().to_set().contains(p));
            let j = b.key_seq().index_of(p);
            assert(b.key_seq()[j] == p);
        }
    }
    true
}

/// Whether `challenger` beats `incumbent`: a higher version wins.
pub fn version_wins(challenger: &Version, incumbent: &Version) -> (r: bool)
    ensures
        r == version_lt(incumbent@, challenger@),
{
    challenger.greater_than(incumbent)
}

// ------------------------------------------------------------------ laws

/// The join of frontiers is commutative.
pub proof fn law_frontier_join_commutative(a: Map<Seq<char>, u64>, b: Map<Seq<char>, u64>)
    ensures
        frontier_join(a, b) == frontier_join(b, a),
{
    assert(frontier_join(a, b) =~= frontier_join(b, a));
}

/// The join of frontiers is associative.
pub proof fn law_frontier_join_associative(
    a: Map<Seq<char>, u64>,
    b: Map<Seq<char>, u64>,
    c: Map<Seq<char>, u64>,
)
    ensures
        frontier_join(frontier_join(a, b), c) == frontier_join(a, frontier_join(b, c)),
{
    assert(frontier_join(frontier_join(a, b), c) =~= frontier_join(a, frontier_join(b, c)));
}

/// Joining a frontier with itself changes nothing.
pub proof fn law_frontier_join_idempotent(a: Map<Seq<char>, u64>)
    ensures
        frontier_join(a, a) == a,
{
    assert(frontier_join(a, a) =~= a);
}

/// The join of two frontiers has seen everything either has.
pub proof fn law_frontier_join_covers(a: Map<Seq<char>, u64>, b: Map<Seq<char>, u64>)
    ensures
        frontier_covers(frontier_join(a, b), a),
        frontier_covers(frontier_join(a, b), b),
{
}

// ------------------------------------------------------ decimal text

/// The decimal digits of `n`.
pub open spec fn decimal_text(n: nat) -> Seq<char>
    decreases n,
{
    if n < 10 {
        seq![(48 + n) as char]
    } else {
        decimal_text(n / 10) + seq![(48 + n % 10) as char]
    }
}

/// Appends the decimal digit `d`.
fn append_digit(s: &mut String, d: u64)
    requires
        d < 10,
    ensures
        final(s)@ == old(s)@ + seq![(48 + d) as char],
{
    proof {
        reveal_strlit("0");
        reveal_strlit("1");
        reveal_strlit("2");
        reveal_strlit("3");
        reveal_strlit("4");
        reveal_strlit("5");
        reveal_strlit("6");
        reveal_strlit("7");
        reveal_strlit("8");
        reveal_strlit("9");
    }
    if d == 0 {
        s.append("0");
    } else if d == 1 {
        s.append("1");
    } else if d == 2 {
        s.append("2");
    } else if d == 3 {
        s.append("3");
    } else if d == 4 {
        s.append("4");
    } else if d == 5 {
        s.append("5");
    } else if d == 6 {
        s.append("6");
    } else if d == 7 {
        s.append("7");
    } else if d == 8 {
        s.append("8");
    } else {
        s.append("9");
    }
}

/// Appends the decimal form of `n`.
pub fn append_decimal(s: &mut String, n: u64)
    ensures
        final(s)@ == old(s)@ + decimal_text(n as nat),
    decreases n,
{
    if n >= 10 {
        append_decimal(s, n / 10);
        append_digit(s, n % 10);
    } else {
        append_digit(s, n);
    }
}

/// The decimal form of `n`, with a leading `-` when negative.
pub open spec fn signed_text(n: int) -> Seq<char> {
    if n < 0 {
        seq!['-'] + decimal_text((-n) as nat)
    } else {
        decimal_text(n as nat)
    }
}

/// Appends the decimal form of `n`, with a leading `-` when negative.
pub fn append_signed(s: &mut String, n: i64)
    ensures
        final(s)@ == old(s)@ + signed_text(n as int),
{
    if n < 0 {
        proof {
            reveal_strlit("-");
        }
        s.append("-");
        let mag: u64 = if n == i64::MIN {
            9223372036854775808u64
        } else {
            (0 - n) as u64
        };
        append_decimal(s, mag);
    } else {
        append_decimal(s, n as u64);
    }
}

// ------------------------------------------------------ digests and hex

/// The BLAKE3 digest of `data`, as `blake3::hash` computes it.
pub uninterp spec fn blake3_digest(data: Seq<u8>) -> Seq<u8>;

/// BLAKE3 hash of `data`: the 32 bytes of `blake3::hash(data)`.
/// Trusted: the result is taken to be `blake3_digest` of the input bytes,
/// a function of those bytes alone; nothing more of the digest is stated.
#[verifier::external_body]
pub fn blake3_hash(data: &[u8]) -> (r: [u8; 32])
    ensures
        r@ == blake3_digest(data@),
{
    *blake3::hash(data).as_bytes()
}

/// The lower-case hex digit for `n` in 0..16.
pub open spec fn hex_digit(n: int) -> char {
    if n < 10 {
        (48 + n) as char
    } else {
        (87 + n) as char
    }
}

/// Lower-case hex encoding: two digits per byte, high nibble first.
pub open spec fn hex_lower(bytes: Seq<u8>) -> Seq<char>
    decreases bytes.len(),
{
    if bytes.len() == 0 {
        Seq::empty()
    } else {
        hex_lower(bytes.drop_last()) + seq![
            hex_digit(bytes.last() as int / 16),
            hex_digit(bytes.last() as int % 16),
        ]
    }
}

/// Hex-encodes bytes with `hex::encode`.
/// Trusted: `hex::encode` writes each byte as two lower-case hex digits,
/// high nibble first, from the table "0123456789abcdef" (as its source
/// shows); the contract states exactly that.
#[verifier::external_body]
pub(crate) fn hex_encode(data: &[u8]) -> (r: String)
    ensures
        r@ == hex_lower(data@),
{
    hex::encode(data)
}

/// The lower-case hex text of a 32-byte hash.
pub fn hash_to_hex(hash: &[u8; 32]) -> (r: String)
    ensures
        r@ == hex_lower(hash@),
{
    hex_encode(hash.as_slice())
}

} // verus!

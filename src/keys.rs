//! Storage keys of events: `node_id || sequence`, 16 bytes big-endian, so
//! that byte order of keys is the numeric order of `(node_id, sequence)`.

use vstd::prelude::*;

verus! {

/// Byte of `n` at bit offset `shift`.
pub open spec fn byte_at(n: u64, shift: u64) -> u8 {
    ((n >> shift) & 0xff) as u8
}

/// Big-endian bytes of `n`.
pub open spec fn be_bytes(n: u64) -> Seq<u8> {
    seq![
        byte_at(n, 56),
        byte_at(n, 48),
        byte_at(n, 40),
        byte_at(n, 32),
        byte_at(n, 24),
        byte_at(n, 16),
        byte_at(n, 8),
        byte_at(n, 0),
    ]
}

/// The number whose big-endian bytes start `b` at `at`.
pub open spec fn be_value(b: Seq<u8>, at: int) -> u64 {
    ((b[at] as u64) << 56) | ((b[at + 1] as u64) << 48) | ((b[at + 2] as u64) << 40) | ((b[at
        + 3] as u64) << 32) | ((b[at + 4] as u64) << 24) | ((b[at + 5] as u64) << 16) | ((b[at
        + 6] as u64) << 8) | (b[at + 7] as u64)
}

fn byte(n: u64, shift: u64) -> (r: u8)
    requires
        shift < 64,
    ensures
        r == byte_at(n, shift),
{
    ((n >> shift) & 0xff) as u8
}

/// The key of event `(node_id, sequence)`.
pub fn encode_event_key(node_id: u64, sequence: u64) -> (r: [u8; 16])
    ensures
        r@ == be_bytes(node_id) + be_bytes(sequence),
{
    let r = [
        byte(node_id, 56),
        byte(node_id, 48),
        byte(node_id, 40),
        byte(node_id, 32),
        byte(node_id, 24),
        byte(node_id, 16),
        byte(node_id, 8),
        byte(node_id, 0),
        byte(sequence, 56),
        byte(sequence, 48),
        byte(sequence, 40),
        byte(sequence, 32),
        byte(sequence, 24),
        byte(sequence, 16),
        byte(sequence, 8),
        byte(sequence, 0),
    ];
    assert(r@ =~= be_bytes(node_id) + be_bytes(sequence));
    r
}

fn read_be(bytes: &[u8], at: usize) -> (r: u64)
    requires
        at + 8 <= bytes@.len(),
    ensures
        r == be_value(bytes@, at as int),
{
    ((bytes[at] as u64) << 56) | ((bytes[at + 1] as u64) << 48) | ((bytes[at + 2] as u64) << 40)
        | ((bytes[at + 3] as u64) << 32) | ((bytes[at + 4] as u64) << 24) | ((bytes[at + 5] as u64)
        << 16) | ((bytes[at + 6] as u64) << 8) | (bytes[at + 7] as u64)
}

/// The `(node_id, sequence)` of a 16-byte event key.
pub fn decode_event_key(bytes: &[u8]) -> (r: (u64, u64))
    requires
        bytes@.len() == 16,
    ensures
        r == (be_value(bytes@, 0), be_value(bytes@, 8)),
{
    (read_be(bytes, 0), read_be(bytes, 8))
}

/// Reading back the big-endian bytes of a number gives the number.
pub proof fn lemma_be_round_trip(n: u64)
    ensures
        be_value(be_bytes(n), 0) == n,
{
    assert(((((n >> 56u64) & 0xff) as u8 as u64) << 56u64) | ((((n >> 48u64) & 0xff) as u8 as u64) << 48u64)
        | ((((n >> 40u64) & 0xff) as u8 as u64) << 40u64) | ((((n >> 32u64) & 0xff) as u8 as u64) << 32u64)
        | ((((n >> 24u64) & 0xff) as u8 as u64) << 24u64) | ((((n >> 16u64) & 0xff) as u8 as u64) << 16u64)
        | ((((n >> 8u64) & 0xff) as u8 as u64) << 8u64) | (((n >> 0u64) & 0xff) as u8 as u64) == n)
        by (bit_vector);
}

/// Decoding an encoded key gives back the node and the sequence.
pub proof fn lemma_event_key_round_trip(node_id: u64, sequence: u64)
    ensures
        be_value(be_bytes(node_id) + be_bytes(sequence), 0) == node_id,
        be_value(be_bytes(node_id) + be_bytes(sequence), 8) == sequence,
{
    let k = be_bytes(node_id) + be_bytes(sequence);
    lemma_be_round_trip(node_id);
    lemma_be_round_trip(sequence);
    assert(k.subrange(0, 8) =~= be_bytes(node_id));
    assert(k.subrange(8, 16) =~= be_bytes(sequence));
    assert(be_value(k, 0) == be_value(be_bytes(node_id), 0));
    assert(be_value(k, 8) == be_value(be_bytes(sequence), 0)) by {
        assert forall|i: int| 0 <= i < 8 implies k[8 + i] == be_bytes(sequence)[i] by {}
    }
}

/// Lexicographic order of byte strings.
pub open spec fn bytes_lt(a: Seq<u8>, b: Seq<u8>) -> bool {
    exists|i: int|
        0 <= i < a.len() && i < b.len() && a[i] < b[i] && forall|j: int| 0 <= j < i ==> #[trigger] a[j] == b[j]
}

/// Where the bytes above bit `s` agree, the byte at `s` decides the order.
proof fn lemma_byte_decides(x: u64, y: u64, s: u64)
    requires
        s < 64,
        (x >> s) >> 8u64 == (y >> s) >> 8u64,
    ensures
        byte_at(x, s) < byte_at(y, s) ==> x < y,
        byte_at(y, s) < byte_at(x, s) ==> y < x,
        byte_at(x, s) == byte_at(y, s) ==> x >> s == y >> s,
{
    assert(((x >> s) & 0xff) <= 0xff) by (bit_vector);
    assert(((y >> s) & 0xff) <= 0xff) by (bit_vector);
    assert(((x >> s) & 0xff) < ((y >> s) & 0xff) ==> x < y) by (bit_vector)
        requires
            s < 64,
            (x >> s) >> 8u64 == (y >> s) >> 8u64,
    ;
    assert(((y >> s) & 0xff) < ((x >> s) & 0xff) ==> y < x) by (bit_vector)
        requires
            s < 64,
            (x >> s) >> 8u64 == (y >> s) >> 8u64,
    ;
    assert(((x >> s) & 0xff) == ((y >> s) & 0xff) ==> x >> s == y >> s) by (bit_vector)
        requires
            (x >> s) >> 8u64 == (y >> s) >> 8u64,
    ;
}

proof fn lemma_shift_steps(x: u64, s: u64)
    requires
        s <= 48,
    ensures
        (x >> s) >> 8u64 == x >> ((s + 8) as u64),
{
    assert((x >> s) >> 8u64 == x >> ((s + 8) as u64)) by (bit_vector)
        requires
            s <= 48,
    ;
}

proof fn lemma_be_bytes_index(x: u64, i: int)
    requires
        0 <= i < 8,
    ensures
        be_bytes(x)[i] == byte_at(x, (56 - 8 * i) as u64),
{
}

/// Scanning from byte `i`, with all earlier bytes equal, the first differing
/// byte orders `x` before `y`.
proof fn lemma_first_difference(x: u64, y: u64, i: int)
    requires
        0 <= i < 8,
        x < y,
        forall|j: int| 0 <= j < i ==> #[trigger] be_bytes(x)[j] == be_bytes(y)[j],
        (x >> ((56 - 8 * i) as u64)) >> 8u64 == (y >> ((56 - 8 * i) as u64)) >> 8u64,
    ensures
        bytes_lt(be_bytes(x), be_bytes(y)),
    decreases 8 - i,
{
    let s = (56 - 8 * i) as u64;
    lemma_byte_decides(x, y, s);
    lemma_be_bytes_index(x, i);
    lemma_be_bytes_index(y, i);
    if be_bytes(x)[i] != be_bytes(y)[i] {
        assert(be_bytes(x)[i] < be_bytes(y)[i]);
    } else if i == 7 {
        assert(x >> 0u64 == x && y >> 0u64 == y) by (bit_vector);
    } else {
        lemma_shift_steps(x, (s - 8) as u64);
        lemma_shift_steps(y, (s - 8) as u64);
        lemma_first_difference(x, y, i + 1);
    }
}

/// Big-endian bytes order numbers as the numbers are ordered.
pub proof fn lemma_be_bytes_order(x: u64, y: u64)
    ensures
        x < y ==> bytes_lt(be_bytes(x), be_bytes(y)),
        x == y <==> be_bytes(x) == be_bytes(y),
{
    lemma_be_round_trip(x);
    lemma_be_round_trip(y);
    if x < y {
        assert((x >> 56u64) >> 8u64 == 0 && (y >> 56u64) >> 8u64 == 0) by (bit_vector);
        lemma_first_difference(x, y, 0);
    }
}

/// Encoded keys order as their `(node_id, sequence)` pairs do.
pub proof fn lemma_event_key_order(n1: u64, s1: u64, n2: u64, s2: u64)
    ensures
        (n1 < n2 || (n1 == n2 && s1 < s2)) ==> bytes_lt(
            be_bytes(n1) + be_bytes(s1),
            be_bytes(n2) + be_bytes(s2),
        ),
{
    let k1 = be_bytes(n1) + be_bytes(s1);
    let k2 = be_bytes(n2) + be_bytes(s2);
    lemma_be_bytes_order(n1, n2);
    lemma_be_bytes_order(s1, s2);
    if n1 < n2 {
        let i = choose|i: int|
            0 <= i < 8 && be_bytes(n1)[i] < be_bytes(n2)[i] && forall|j: int| 0 <= j < i ==> #[trigger] be_bytes(n1)[j] == be_bytes(n2)[j];
        assert(k1[i] < k2[i]);
        assert forall|j: int| 0 <= j < i implies #[trigger] k1[j] == k2[j] by {
            assert(be_bytes(n1)[j] == be_bytes(n2)[j]);
        }
    } else if n1 == n2 && s1 < s2 {
        let i = choose|i: int|
            0 <= i < 8 && be_bytes(s1)[i] < be_bytes(s2)[i] && forall|j: int| 0 <= j < i ==> #[trigger] be_bytes(s1)[j] == be_bytes(s2)[j];
        assert(k1[8 + i] < k2[8 + i]);
        assert forall|j: int| 0 <= j < 8 + i implies #[trigger] k1[j] == k2[j] by {
            if j >= 8 {
                assert(be_bytes(s1)[j - 8] == be_bytes(s2)[j - 8]);
            }
        }
    }
}

} // verus!

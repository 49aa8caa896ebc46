//! The ticket wire form: a versioned binary payload written as lowercase hex.
//!
//! Payload layout: one version byte, the 32-byte topic, the number of bootstrap
//! keys as four big-endian bytes, then each 32-byte key in turn.

use vstd::prelude::*;
use crate::endpoint::{KEY_LEN, is_endpoint_key, check_endpoint_key};
use vstd::arithmetic::div_mod::lemma_fundamental_div_mod_converse;

verus! {

/// Version tag that leads every encoded ticket.
pub const TICKET_VERSION: u8 = 1;

/// The lowercase hex digit for a value below 16.
pub open spec fn hex_char(v: int) -> char {
    if v == 0 { '0' } else if v == 1 { '1' } else if v == 2 { '2' } else if v == 3 { '3' }
    else if v == 4 { '4' } else if v == 5 { '5' } else if v == 6 { '6' } else if v == 7 { '7' }
    else if v == 8 { '8' } else if v == 9 { '9' } else if v == 10 { 'a' } else if v == 11 { 'b' }
    else if v == 12 { 'c' } else if v == 13 { 'd' } else if v == 14 { 'e' } else { 'f' }
}

/// The value of a lowercase hex digit; `None` for any other character.
pub open spec fn hex_val(c: char) -> Option<u8> {
    if c == '0' { Some(0u8) } else if c == '1' { Some(1u8) } else if c == '2' { Some(2u8) }
    else if c == '3' { Some(3u8) } else if c == '4' { Some(4u8) } else if c == '5' { Some(5u8) }
    else if c == '6' { Some(6u8) } else if c == '7' { Some(7u8) } else if c == '8' { Some(8u8) }
    else if c == '9' { Some(9u8) } else if c == 'a' { Some(10u8) } else if c == 'b' { Some(11u8) }
    else if c == 'c' { Some(12u8) } else if c == 'd' { Some(13u8) } else if c == 'e' { Some(14u8) }
    else if c == 'f' { Some(15u8) } else { None }
}

/// Two hex digits per byte, high nibble first.
pub open spec fn hex_text(b: Seq<u8>) -> Seq<char> {
    Seq::new(
        (2 * b.len()) as nat,
        |i: int| if i % 2 == 0 { hex_char(b[i / 2] as int / 16) } else { hex_char(b[i / 2] as int % 16) },
    )
}

/// An even number of lowercase hex digits.
pub open spec fn is_hex_text(t: Seq<char>) -> bool {
    &&& t.len() % 2 == 0
    &&& forall|i: int| 0 <= i < t.len() ==> (#[trigger] hex_val(t[i])) is Some
}

/// The bytes that a hex text stands for (meaningful where `is_hex_text` holds).
pub open spec fn hex_bytes(t: Seq<char>) -> Seq<u8> {
    Seq::new(
        t.len() / 2,
        |i: int| (hex_val(t[2 * i])->0 * 16 + hex_val(t[2 * i + 1])->0) as u8,
    )
}

/// The key count as four big-endian bytes.
pub open spec fn count_field(n: nat) -> Seq<u8> {
    seq![(n / 0x1000000) as u8, ((n / 0x10000) % 256) as u8, ((n / 256) % 256) as u8, (n % 256) as u8]
}

/// The key count that a payload's header states.
pub open spec fn count_value(b: Seq<u8>) -> int {
    b[33] * 0x1000000 + b[34] * 0x10000 + b[35] * 256 + b[36]
}

/// The views of a list of byte vectors.
pub open spec fn byte_seqs(v: Seq<Vec<u8>>) -> Seq<Seq<u8>> {
    v.map_values(|k: Vec<u8>| k@)
}

/// The payload of a ticket with this topic and these bootstrap keys.
pub open spec fn payload(topic: Seq<u8>, keys: Seq<Seq<u8>>) -> Seq<u8> {
    Seq::new(
        (37 + 32 * keys.len()) as nat,
        |i: int|
            if i == 0 {
                TICKET_VERSION
            } else if i < 33 {
                topic[i - 1]
            } else if i < 37 {
                count_field(keys.len())[i - 33]
            } else {
                keys[(i - 37) / 32][(i - 37) % 32]
            },
    )
}

/// The topic that a payload carries.
pub open spec fn payload_topic(b: Seq<u8>) -> Seq<u8> {
    b.subrange(1, 33)
}

/// The bootstrap keys that a payload carries.
pub open spec fn payload_keys(b: Seq<u8>) -> Seq<Seq<u8>> {
    Seq::new(((b.len() - 37) / 32) as nat, |j: int| b.subrange(37 + 32 * j, 37 + 32 * j + 32))
}

/// Every key is 32 bytes that form a valid endpoint identity.
pub open spec fn keys_valid(keys: Seq<Seq<u8>>) -> bool {
    forall|i: int| 0 <= i < keys.len() ==> (#[trigger] keys[i]).len() == KEY_LEN && is_endpoint_key(keys[i])
}

/// No key occurs twice.
pub open spec fn keys_distinct(keys: Seq<Seq<u8>>) -> bool {
    forall|i: int, j: int| 0 <= i < j < keys.len() ==> keys[i] != keys[j]
}

/// A ticket's topic and keys as the library holds them.
pub open spec fn ticket_parts_ok(topic: Seq<u8>, keys: Seq<Seq<u8>>) -> bool {
    &&& topic.len() == KEY_LEN
    &&& keys.len() <= u32::MAX
    &&& keys_valid(keys)
    &&& keys_distinct(keys)
}

/// A well-formed payload: version, a count that matches its length, valid distinct keys.
pub open spec fn valid_payload(b: Seq<u8>) -> bool {
    &&& b.len() >= 37
    &&& (b.len() - 37) % 32 == 0
    &&& b[0] == TICKET_VERSION
    &&& count_value(b) == (b.len() - 37) / 32
    &&& keys_valid(payload_keys(b))
    &&& keys_distinct(payload_keys(b))
}

/// What a ticket text decodes to: its topic and bootstrap keys, or `None` when malformed.
pub open spec fn decoded(t: Seq<char>) -> Option<(Seq<u8>, Seq<Seq<u8>>)> {
    if is_hex_text(t) && valid_payload(hex_bytes(t)) {
        Some((payload_topic(hex_bytes(t)), payload_keys(hex_bytes(t))))
    } else {
        None
    }
}

/// The text of a ticket with this topic and these bootstrap keys.
pub open spec fn encoded(topic: Seq<u8>, keys: Seq<Seq<u8>>) -> Seq<char> {
    hex_text(payload(topic, keys))
}

fn hex_digit(v: u8) -> (c: char)
    requires
        v < 16,
    ensures
        c == hex_char(v as int),
{
    if v == 0 { '0' } else if v == 1 { '1' } else if v == 2 { '2' } else if v == 3 { '3' }
    else if v == 4 { '4' } else if v == 5 { '5' } else if v == 6 { '6' } else if v == 7 { '7' }
    else if v == 8 { '8' } else if v == 9 { '9' } else if v == 10 { 'a' } else if v == 11 { 'b' }
    else if v == 12 { 'c' } else if v == 13 { 'd' } else if v == 14 { 'e' } else { 'f' }
}

fn hex_value(c: char) -> (r: Option<u8>)
    ensures
        r == hex_val(c),
{
    if c == '0' { Some(0u8) } else if c == '1' { Some(1u8) } else if c == '2' { Some(2u8) }
    else if c == '3' { Some(3u8) } else if c == '4' { Some(4u8) } else if c == '5' { Some(5u8) }
    else if c == '6' { Some(6u8) } else if c == '7' { Some(7u8) } else if c == '8' { Some(8u8) }
    else if c == '9' { Some(9u8) } else if c == 'a' { Some(10u8) } else if c == 'b' { Some(11u8) }
    else if c == 'c' { Some(12u8) } else if c == 'd' { Some(13u8) } else if c == 'e' { Some(14u8) }
    else if c == 'f' { Some(15u8) } else { None }
}

/// Writes bytes as lowercase hex, two digits per byte.
pub fn hex_encode(b: &Vec<u8>) -> (r: Vec<char>)
    requires
        b@.len() * 2 <= usize::MAX,
    ensures
        r@ == hex_text(b@),
{
    let mut out: Vec<char> = Vec::new();
    let mut i: usize = 0;
    while i < b.len()
        invariant
            i <= b@.len(),
            b@.len() * 2 <= usize::MAX,
            out@ =~= hex_text(b@.take(i as int)),
        decreases b@.len() - i,
    {
        let v = b[i];
        out.push(hex_digit(v / 16));
        out.push(hex_digit(v % 16));
        i = i + 1;
        assert(out@ =~= hex_text(b@.take(i as int)));
    }
    assert(b@.take(i as int) =~= b@);
    out
}

/// Reads lowercase hex back into bytes; `None` for an odd length or a stray character.
pub fn hex_decode(t: &Vec<char>) -> (r: Option<Vec<u8>>)
    ensures
        r is Some <==> is_hex_text(t@),
        r matches Some(b) ==> b@ == hex_bytes(t@),
{
    if t.len() % 2 != 0 {
        return None;
    }
    let n: usize = t.len() / 2;
    let mut out: Vec<u8> = Vec::new();
    let mut i: usize = 0;
    while i < n
        invariant
            n == t@.len() / 2,
            t@.len() % 2 == 0,
            t@.len() <= usize::MAX,
            i <= n,
            out@ =~= hex_bytes(t@).take(i as int),
            forall|p: int| 0 <= p < 2 * i ==> (#[trigger] hex_val(t@[p])) is Some,
        decreases n - i,
    {
        let hi = hex_value(t[2 * i]);
        let lo = hex_value(t[2 * i + 1]);
        match (hi, lo) {
            (Some(h), Some(l)) => {
                out.push(h * 16 + l);
                i = i + 1;
                assert forall|p: int| 0 <= p < 2 * i implies (#[trigger] hex_val(t@[p])) is Some by {
                    if p >= 2 * i - 2 {
                        assert(p == 2 * (i - 1) || p == 2 * (i - 1) + 1);
                    }
                }
                assert(out@ =~= hex_bytes(t@).take(i as int));
            },
            _ => {
                proof {
                    let bad: int = if hi is None { 2 * i } else { 2 * i + 1 };
                    assert(hex_val(t@[bad]) is None);
                }
                return None;
            },
        }
    }
    assert(out@ =~= hex_bytes(t@));
    Some(out)
}

/// A copy of a byte vector.
pub fn copy_bytes(b: &Vec<u8>) -> (r: Vec<u8>)
    ensures
        r@ == b@,
{
    let mut out: Vec<u8> = Vec::new();
    let mut i: usize = 0;
    while i < b.len()
        invariant
            i <= b@.len(),
            out@ =~= b@.take(i as int),
        decreases b@.len() - i,
    {
        out.push(b[i]);
        i = i + 1;
        assert(out@ =~= b@.take(i as int));
    }
    assert(b@.take(i as int) =~= b@);
    out
}

/// Whether two byte vectors hold the same bytes.
pub fn bytes_equal(a: &Vec<u8>, b: &Vec<u8>) -> (r: bool)
    ensures
        r == (a@ == b@),
{
    if a.len() != b.len() {
        return false;
    }
    let mut i: usize = 0;
    while i < a.len()
        invariant
            a@.len() == b@.len(),
            i <= a@.len(),
            a@.take(i as int) =~= b@.take(i as int),
        decreases a@.len() - i,
    {
        if a[i] != b[i] {
            assert(a@[i as int] != b@[i as int]);
            return false;
        }
        i = i + 1;
        assert(a@.take(i as int) =~= b@.take(i as int));
    }
    assert(a@ =~= a@.take(i as int));
    assert(b@ =~= b@.take(i as int));
    true
}

/// Byte `r` of key `k` sits at offset `32 * k + r` of the key area.
proof fn lemma_key_index(k: int, r: int)
    requires
        0 <= k,
        0 <= r < 32,
    ensures
        (32 * k + r) / 32 == k,
        (32 * k + r) % 32 == r,
{
    lemma_fundamental_div_mod_converse(32 * k + r, 32, k, r);
}

/// The four count bytes read back as the count.
proof fn lemma_count_field(n: nat)
    requires
        n <= u32::MAX,
    ensures
        count_field(n)[0] * 0x1000000 + count_field(n)[1] * 0x10000 + count_field(n)[2] * 256
            + count_field(n)[3] == n,
{
    let q1 = n / 256;
    let q2 = n / 0x10000;
    let q3 = n / 0x1000000;
    assert(n == 256 * q1 + n % 256);
    assert(q2 == q1 / 256);
    assert(q1 == 256 * q2 + q1 % 256);
    assert(q3 == q2 / 256);
    assert(q2 == 256 * q3 + q2 % 256);
    assert(q3 < 256);
}

proof fn lemma_hex_digit(v: int)
    requires
        0 <= v < 16,
    ensures
        hex_val(hex_char(v)) == Some(v as u8),
{
}

/// Hex text reads back as the bytes it was written from.
pub proof fn lemma_hex_round_trip(b: Seq<u8>)
    ensures
        is_hex_text(hex_text(b)),
        hex_bytes(hex_text(b)) == b,
{
    let t = hex_text(b);
    assert forall|i: int| 0 <= i < t.len() implies (#[trigger] hex_val(t[i])) is Some by {
        lemma_hex_digit(b[i / 2] as int / 16);
        lemma_hex_digit(b[i / 2] as int % 16);
    }
    assert forall|i: int| 0 <= i < b.len() implies hex_bytes(t)[i] == b[i] by {
        assert((2 * i) / 2 == i && (2 * i) % 2 == 0);
        assert((2 * i + 1) / 2 == i && (2 * i + 1) % 2 == 1);
        lemma_hex_digit(b[i] as int / 16);
        lemma_hex_digit(b[i] as int % 16);
    }
    assert(hex_bytes(t) =~= b);
}

/// Lays out the payload of a ticket.
pub fn encode_payload(topic: &Vec<u8>, keys: &Vec<Vec<u8>>) -> (r: Vec<u8>)
    requires
        topic@.len() == KEY_LEN,
        keys@.len() <= u32::MAX,
        37 + 32 * keys@.len() <= usize::MAX,
        forall|i: int| 0 <= i < keys@.len() ==> (#[trigger] keys@[i])@.len() == KEY_LEN,
    ensures
        r@ == payload(topic@, byte_seqs(keys@)),
{
    let ghost ks = byte_seqs(keys@);
    let ghost p = payload(topic@, ks);
    let mut out: Vec<u8> = Vec::new();
    out.push(TICKET_VERSION);
    let mut i: usize = 0;
    while i < 32
        invariant
            i <= 32,
            topic@.len() == 32,
            p == payload(topic@, ks),
            out@ =~= p.take(1 + i),
        decreases 32 - i,
    {
        out.push(topic[i]);
        i = i + 1;
        assert(out@ =~= p.take(1 + i));
    }
    let n: u64 = keys.len() as u64;
    out.push((n / 0x1000000) as u8);
    out.push(((n / 0x10000) % 256) as u8);
    out.push(((n / 256) % 256) as u8);
    out.push((n % 256) as u8);
    assert(out@ =~= p.take(37));
    let mut j: usize = 0;
    while j < keys.len()
        invariant
            j <= keys@.len(),
            ks == byte_seqs(keys@),
            p == payload(topic@, ks),
            37 + 32 * keys@.len() <= usize::MAX,
            forall|m: int| 0 <= m < keys@.len() ==> (#[trigger] keys@[m])@.len() == KEY_LEN,
            out@ =~= p.take(37 + 32 * j),
        decreases keys@.len() - j,
    {
        let key = &keys[j];
        assert(ks.len() == keys@.len() && key@ == ks[j as int]);
        let mut r: usize = 0;
        while r < 32
            invariant
                j < keys@.len(),
                r <= 32,
                ks.len() == keys@.len(),
                key@ == ks[j as int],
                key@.len() == 32,
                p == payload(topic@, ks),
                37 + 32 * keys@.len() <= usize::MAX,
                out@ =~= p.take(37 + 32 * j + r),
            decreases 32 - r,
        {
            proof {
                lemma_key_index(j as int, r as int);
                assert(p[37 + 32 * j + r] == ks[j as int][r as int]);
            }
            out.push(key[r]);
            r = r + 1;
            assert(out@ =~= p.take(37 + 32 * j + r));
        }
        j = j + 1;
    }
    assert(out@ =~= p);
    out
}

/// Reads a payload back into its topic and keys; `None` unless it is well formed.
pub fn decode_payload(b: &Vec<u8>) -> (r: Option<(Vec<u8>, Vec<Vec<u8>>)>)
    ensures
        r is Some <==> valid_payload(b@),
        r matches Some((t, ks)) ==> t@ == payload_topic(b@) && byte_seqs(ks@) == payload_keys(b@),
{
    if b.len() < 37 || (b.len() - 37) % 32 != 0 || b[0] != TICKET_VERSION {
        return None;
    }
    let n: usize = (b.len() - 37) / 32;
    let count: u64 = b[33] as u64 * 0x1000000 + b[34] as u64 * 0x10000 + b[35] as u64 * 256
        + b[36] as u64;
    if count != n as u64 {
        return None;
    }
    let ghost pk = payload_keys(b@);
    let mut topic: Vec<u8> = Vec::new();
    let mut i: usize = 1;
    while i < 33
        invariant
            1 <= i <= 33,
            b@.len() >= 37,
            topic@ =~= b@.subrange(1, i as int),
        decreases 33 - i,
    {
        topic.push(b[i]);
        i = i + 1;
        assert(topic@ =~= b@.subrange(1, i as int));
    }
    let mut ks: Vec<Vec<u8>> = Vec::new();
    let mut j: usize = 0;
    while j < n
        invariant
            j <= n,
            37 + 32 * n == b@.len(),
            b@.len() <= usize::MAX,
            pk == payload_keys(b@),
            pk.len() == n,
            ks@.len() == j,
            byte_seqs(ks@) =~= pk.take(j as int),
            keys_valid(pk.take(j as int)),
            keys_distinct(pk.take(j as int)),
        decreases n - j,
    {
        let base: usize = 37 + 32 * j;
        let mut key: Vec<u8> = Vec::new();
        let mut r: usize = 0;
        while r < 32
            invariant
                j < n,
                37 + 32 * n == b@.len(),
                b@.len() <= usize::MAX,
                base == 37 + 32 * j,
                r <= 32,
                key@ =~= b@.subrange(base as int, base + r),
            decreases 32 - r,
        {
            key.push(b[base + r]);
            r = r + 1;
            assert(key@ =~= b@.subrange(base as int, base + r));
        }
        assert(key@ == pk[j as int]);
        if !check_endpoint_key(&key) {
            assert(!keys_valid(pk));
            return None;
        }
        let mut m: usize = 0;
        while m < j
            invariant
                m <= j,
                j < n,
                pk.len() == n,
                pk == payload_keys(b@),
                ks@.len() == j,
                byte_seqs(ks@) =~= pk.take(j as int),
                key@ == pk[j as int],
                forall|mm: int| 0 <= mm < m ==> pk[mm] != pk[j as int],
            decreases j - m,
        {
            if bytes_equal(&ks[m], &key) {
                assert(byte_seqs(ks@)[m as int] == ks@[m as int]@);
                assert(pk[m as int] == pk[j as int]);
                assert(!keys_distinct(pk)) by {
                    assert(0 <= m < j < pk.len());
                }
                return None;
            }
            assert(byte_seqs(ks@)[m as int] == ks@[m as int]@);
            m = m + 1;
        }
        ks.push(key);
        j = j + 1;
        assert(byte_seqs(ks@) =~= pk.take(j as int));
    }
    assert(pk.take(n as int) =~= pk);
    Some((topic, ks))
}

/// Decoding the text of a well-formed ticket gives back its topic and keys.
pub proof fn lemma_decode_encode(topic: Seq<u8>, keys: Seq<Seq<u8>>)
    requires
        ticket_parts_ok(topic, keys),
    ensures
        decoded(encoded(topic, keys)) == Some((topic, keys)),
{
    let p = payload(topic, keys);
    lemma_hex_round_trip(p);
    lemma_payload_parts(topic, keys);
}

/// A payload laid out from well-formed parts is valid and yields those parts.
proof fn lemma_payload_parts(topic: Seq<u8>, keys: Seq<Seq<u8>>)
    requires
        ticket_parts_ok(topic, keys),
    ensures
        valid_payload(payload(topic, keys)),
        payload_topic(payload(topic, keys)) == topic,
        payload_keys(payload(topic, keys)) == keys,
{
    let p = payload(topic, keys);
    let k = keys.len() as int;
    lemma_key_index(k, 0);
    lemma_count_field(keys.len());
    assert(count_value(p) == k);
    assert(payload_topic(p) =~= topic);
    assert forall|j: int| 0 <= j < k implies #[trigger] payload_keys(p)[j] == keys[j] by {
        assert forall|r: int| 0 <= r < 32 implies payload_keys(p)[j][r] == keys[j][r] by {
            lemma_key_index(j, r);
        }
        assert(payload_keys(p)[j] =~= keys[j]);
    }
    assert(payload_keys(p) =~= keys);
}

/// A strict prefix of a well-formed ticket's text never decodes.
pub proof fn lemma_truncated_rejected(topic: Seq<u8>, keys: Seq<Seq<u8>>, n: int)
    requires
        ticket_parts_ok(topic, keys),
        0 <= n < encoded(topic, keys).len(),
    ensures
        decoded(encoded(topic, keys).take(n)) is None,
{
    let p = payload(topic, keys);
    let full = hex_text(p);
    let t = full.take(n);
    lemma_hex_round_trip(p);
    lemma_payload_parts(topic, keys);
    if n % 2 == 0 && is_hex_text(t) {
        let m = n / 2;
        assert forall|i: int| 0 <= i < m implies hex_bytes(t)[i] == p[i] by {
            assert(hex_bytes(full)[i] == p[i]);
        }
        assert(hex_bytes(t) =~= p.take(m));
        if m >= 37 {
            assert(count_value(p.take(m)) == count_value(p));
            lemma_key_index(keys.len() as int, 0);
        }
    }
}

} // verus!

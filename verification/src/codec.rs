use vstd::prelude::*;
use vstd::arithmetic::div_mod::{
    lemma_div_denominator, lemma_fundamental_div_mod, lemma_mod_breakdown,
    lemma_mod_multiples_vanish, lemma_small_mod,
};
use crate::error::Error;

verus! {

/// Magic value every client sends in its handshake frame; a server
/// accepts a connection only when the decoded handshake carries it.
pub const MAGIC_NUMBER: i32 = 0x37373737;

/// True exactly when a decoded handshake magic value is the one the
/// protocol requires; a server that reads any other value closes the
/// connection without processing further frames.
pub fn handshake_accepted(magic_number: i32) -> (r: bool)
    ensures
        r == (magic_number == MAGIC_NUMBER),
{
    magic_number == MAGIC_NUMBER
}

/// The handshake frame's payload: a single magic value.
pub struct Message {
    pub magic_number: i32,
}

impl Message {
    pub fn new(magic_number: i32) -> (r: Self)
        ensures
            r.magic_number == magic_number,
    {
        Message { magic_number }
    }
}

/// The per-call header.  `seq` is the client-assigned correlation id,
/// echoed unchanged on the reply; `error` is none on requests and on
/// successful replies, and names the failure kind otherwise.
pub struct Header {
    pub service: String,
    pub method: String,
    pub seq: usize,
    pub error: Option<Error>,
}

impl Header {
    pub fn new(service: String, method: String, seq: usize, error: Option<Error>) -> (r: Self)
        ensures
            r.service == service,
            r.method == method,
            r.seq == seq,
            r.error == error,
    {
        Header { service, method, seq, error }
    }
}

/// The per-call body.  `contents` holds the JSON text of the carried
/// value: the positional argument array on requests, the return value on
/// replies.  The codec passes it through opaquely.
pub struct Body {
    pub contents: String,
}

impl Body {
    pub fn new(contents: String) -> (r: Self)
        ensures
            r.contents == contents,
    {
        Body { contents }
    }
}

// ----------------------------------------------------------------------
// The length prefix: every structured frame starts with 8 bytes holding
// the byte length of the JSON payload that follows, least significant
// byte first.
// ----------------------------------------------------------------------

pub open spec fn pow256(k: nat) -> nat
    decreases k,
{
    if k == 0 {
        1
    } else {
        256 * pow256((k - 1) as nat)
    }
}

/// The `k` least-significant base-256 digits of `n`, least significant first.
pub open spec fn le_bytes(n: nat, k: nat) -> Seq<u8> {
    Seq::new(k, |i: int| ((n / pow256(i as nat)) % 256) as u8)
}

/// The value a byte sequence denotes when read least significant first.
pub open spec fn le_value(s: Seq<u8>) -> nat
    decreases s.len(),
{
    if s.len() == 0 {
        0
    } else {
        (s[0] + 256 * le_value(s.drop_first())) as nat
    }
}

/// A complete frame: the 8-byte length prefix followed by the payload.
pub open spec fn frame_bytes(payload: Seq<u8>) -> Seq<u8> {
    le_bytes(payload.len(), 8) + payload
}

proof fn lemma_pow256_pos(k: nat)
    ensures
        pow256(k) >= 1,
    decreases k,
{
    if k > 0 {
        lemma_pow256_pos((k - 1) as nat);
    }
}

/// Reading back the base-256 digits of `n` recovers `n` modulo `pow256(k)`.
proof fn lemma_le_value_of_le_bytes(n: nat, k: nat)
    ensures
        le_value(le_bytes(n, k)) == n % pow256(k),
    decreases k,
{
    lemma_pow256_pos(k);
    if k == 0 {
        assert(le_bytes(n, 0) =~= Seq::<u8>::empty());
        assert(n % 1 == 0) by {
            lemma_fundamental_div_mod_simple(n as int);
        }
    } else {
        let s = le_bytes(n, k);
        let m = n / 256;
        lemma_le_value_of_le_bytes(m, (k - 1) as nat);
        assert(s.drop_first() =~= le_bytes(m, (k - 1) as nat)) by {
            assert forall|i: int| 0 <= i < k - 1 implies s.drop_first()[i] == le_bytes(
                m,
                (k - 1) as nat,
            )[i] by {
                lemma_pow256_pos(i as nat);
                lemma_div_denominator(n as int, 256, pow256(i as nat) as int);
                assert(pow256((i + 1) as nat) == 256 * pow256(i as nat));
            }
        }
        assert(pow256(0) == 1);
        assert(s[0] == n % 256);
        assert(le_value(s) == n % 256 + 256 * (m % pow256((k - 1) as nat)));
        assert(pow256(k) == 256 * pow256((k - 1) as nat));
        lemma_pow256_pos((k - 1) as nat);
        lemma_mod_breakdown(n as int, 256, pow256((k - 1) as nat) as int);
    }
}

proof fn lemma_fundamental_div_mod_simple(n: int)
    requires
        n >= 0,
    ensures
        n % 1 == 0,
{
}

/// A byte sequence denotes a value below `pow256` of its length.
proof fn lemma_le_value_bound(s: Seq<u8>)
    ensures
        le_value(s) < pow256(s.len()),
    decreases s.len(),
{
    lemma_pow256_pos(s.len());
    if s.len() > 0 {
        lemma_le_value_bound(s.drop_first());
    }
}

/// The base-256 digits of the value a sequence denotes are the sequence
/// itself: `le_bytes` and `le_value` invert each other.
proof fn lemma_le_bytes_of_le_value(s: Seq<u8>)
    ensures
        le_bytes(le_value(s), s.len()) =~= s,
    decreases s.len(),
{
    if s.len() > 0 {
        let n = le_value(s);
        let rest = s.drop_first();
        lemma_le_bytes_of_le_value(rest);
        assert(n == s[0] + 256 * le_value(rest));
        assert(n % 256 == s[0] && n / 256 == le_value(rest)) by {
            lemma_fundamental_div_mod(n as int, 256);
            lemma_small_mod(s[0] as nat, 256);
            assert((s[0] + 256 * le_value(rest)) % 256 == s[0]) by {
                lemma_mod_multiples_vanish(le_value(rest) as int, s[0] as int, 256);
            }
        }
        assert forall|i: int| 0 <= i < s.len() implies le_bytes(n, s.len())[i] == s[i] by {
            if i == 0 {
            } else {
                lemma_pow256_pos((i - 1) as nat);
                lemma_div_denominator(n as int, 256, pow256((i - 1) as nat) as int);
                assert(pow256(i as nat) == 256 * pow256((i - 1) as nat));
                assert(le_bytes(le_value(rest), rest.len())[i - 1] == rest[i - 1]);
            }
        }
    }
}

/// Two frames with the same bytes carry the same payload: the length
/// prefix pins the payload length, and the rest is the payload itself.
pub proof fn lemma_frame_bytes_injective(p1: Seq<u8>, p2: Seq<u8>)
    requires
        frame_bytes(p1) == frame_bytes(p2),
    ensures
        p1 == p2,
{
    assert(frame_bytes(p1).len() == 8 + p1.len());
    assert(frame_bytes(p2).len() == 8 + p2.len());
    assert(p1.len() == p2.len());
    assert(p1 =~= p2) by {
        assert forall|i: int| 0 <= i < p1.len() implies p1[i] == p2[i] by {
            assert(frame_bytes(p1)[8 + i] == p1[i]);
            assert(frame_bytes(p2)[8 + i] == p2[i]);
        }
    }
}

/// Writes the 8-byte little-endian length prefix for `n`.
fn u64_le_bytes(n: u64) -> (r: Vec<u8>)
    ensures
        r@ =~= le_bytes(n as nat, 8),
{
    let mut r: Vec<u8> = Vec::new();
    let mut x: u64 = n;
    let mut i: usize = 0;
    proof {
        assert(pow256(0) == 1);
    }
    while i < 8
        invariant
            i <= 8,
            r@.len() == i,
            x as nat == (n as nat) / pow256(i as nat),
            forall|j: int| 0 <= j < i ==> r@[j] == ((n as nat) / pow256(j as nat) % 256) as u8,
        decreases 8 - i,
    {
        r.push((x % 256) as u8);
        proof {
            lemma_pow256_pos(i as nat);
            lemma_div_denominator(n as int, pow256(i as nat) as int, 256);
            assert(pow256((i + 1) as nat) == 256 * pow256(i as nat));
        }
        x = x / 256;
        i = i + 1;
    }
    proof {
        assert(r@ =~= le_bytes(n as nat, 8));
    }
    r
}

/// Reads the value an 8-byte little-endian length prefix denotes.
pub fn le_prefix_value(b: &[u8]) -> (r: u64)
    requires
        b@.len() == 8,
    ensures
        r as nat == le_value(b@),
{
    let mut r: u64 = 0;
    let mut i: usize = 8;
    proof {
        assert(b@.subrange(8, 8) =~= Seq::<u8>::empty());
    }
    while i > 0
        invariant
            i <= 8,
            b@.len() == 8,
            r as nat == le_value(b@.subrange(i as int, 8)),
        decreases i,
    {
        proof {
            lemma_le_value_bound(b@.subrange(i as int, 8));
            lemma_pow256_bound((8 - i) as nat);
            assert(b@.subrange(i - 1, 8).drop_first() =~= b@.subrange(i as int, 8));
        }
        let byte = *vstd::slice::slice_index_get(b, i - 1);
        r = (byte as u64) + 256 * r;
        i = i - 1;
    }
    proof {
        assert(b@.subrange(0, 8) =~= b@);
    }
    r
}

proof fn lemma_pow256_values()
    ensures
        pow256(0) == 1,
        pow256(7) == 0x100000000000000,
        pow256(8) == 0x10000000000000000,
{
    assert(pow256(0) == 1);
    assert(pow256(1) == 256 * pow256(0));
    assert(pow256(2) == 256 * pow256(1));
    assert(pow256(3) == 256 * pow256(2));
    assert(pow256(4) == 256 * pow256(3));
    assert(pow256(5) == 256 * pow256(4));
    assert(pow256(6) == 256 * pow256(5));
    assert(pow256(7) == 256 * pow256(6));
    assert(pow256(8) == 256 * pow256(7));
}

proof fn lemma_pow256_mono(a: nat, b: nat)
    requires
        a <= b,
    ensures
        pow256(a) <= pow256(b),
    decreases b,
{
    lemma_pow256_pos(a);
    if a < b {
        lemma_pow256_mono(a, (b - 1) as nat);
    }
}

proof fn lemma_pow256_bound(k: nat)
    requires
        k <= 7,
    ensures
        pow256(k) <= 0x100000000000000,
{
    lemma_pow256_mono(k, 7);
    lemma_pow256_values();
}

/// Wraps a payload in a frame: the 8-byte length prefix holds exactly the
/// byte length of the payload that follows it.
pub fn encode_frame(payload: &Vec<u8>) -> (r: Vec<u8>)
    ensures
        r@ == frame_bytes(payload@),
        r@.len() == 8 + payload@.len(),
        le_value(r@.subrange(0, 8)) == payload@.len(),
{
    let mut r = u64_le_bytes(payload.len() as u64);
    r.extend_from_slice(payload.as_slice());
    proof {
        assert(r@ =~= frame_bytes(payload@));
        assert(r@.subrange(0, 8) =~= le_bytes(payload@.len(), 8));
        lemma_le_value_of_le_bytes(payload@.len(), 8);
        lemma_pow256_values();
        lemma_small_mod_auto(payload@.len(), pow256(8));
    }
    r
}

proof fn lemma_small_mod_auto(n: nat, m: nat)
    requires
        n < m,
        m > 0,
    ensures
        n % m == n,
{
    lemma_small_mod(n, m);
}

/// Unwraps a complete frame held in one buffer.  Succeeds exactly when
/// the buffer starts with an 8-byte prefix naming the length of the rest,
/// and then returns that rest.
pub fn decode_frame(b: &Vec<u8>) -> (r: Option<Vec<u8>>)
    ensures
        r matches Some(p) ==> b@ == frame_bytes(p@),
        r is Some <==> (b@.len() >= 8 && le_value(b@.subrange(0, 8)) == b@.len() - 8),
{
    if b.len() < 8 {
        return None;
    }
    let prefix = vstd::slice::slice_subrange(b.as_slice(), 0, 8);
    let len64 = le_prefix_value(prefix);
    if len64 != (b.len() - 8) as u64 {
        return None;
    }
    let payload = vstd::slice::slice_to_vec(vstd::slice::slice_subrange(b.as_slice(), 8, b.len()));
    proof {
        assert(payload@ =~= b@.subrange(8, b@.len() as int));
        lemma_le_bytes_of_le_value(b@.subrange(0, 8));
        assert(b@ =~= frame_bytes(payload@));
    }
    Some(payload)
}

} // verus!

use vstd::prelude::*;
use vstd::arithmetic::div_mod::lemma_fundamental_div_mod;
use vstd::utf8::{encode_utf8, valid_utf8, is_ascii_chars, is_ascii_chars_encode_utf8};
use crate::codec::{Body, Header, Message};
use crate::error::Error;

verus! {

// ----------------------------------------------------------------------
// The JSON text this protocol puts inside a frame, specified byte by
// byte.  A call frame's payload is a two-element array of the header
// object and the body object; the body's contents are carried through as
// opaque, pre-encoded JSON text.
// ----------------------------------------------------------------------

/// The lowercase hexadecimal digit for a value below sixteen.
pub open spec fn hex_digit(n: nat) -> u8 {
    if n < 10 {
        (48 + n) as u8
    } else {
        (87 + n) as u8
    }
}

/// True of the bytes a JSON string cannot carry raw: quote, backslash
/// and the control range.
pub open spec fn needs_escape(b: u8) -> bool {
    b == 34 || b == 92 || b < 32
}

/// How one byte appears inside a JSON string: quote and backslash are
/// escaped with a backslash, the common control characters with their
/// shorthand escapes, the remaining control characters as `\u00` and
/// two lowercase hexadecimal digits, and every other byte stands for
/// itself.
pub open spec fn esc_byte(b: u8) -> Seq<u8> {
    if b == 34 {
        seq![92u8, 34u8]
    } else if b == 92 {
        seq![92u8, 92u8]
    } else if b == 8 {
        seq![92u8, 98u8]
    } else if b == 9 {
        seq![92u8, 116u8]
    } else if b == 10 {
        seq![92u8, 110u8]
    } else if b == 12 {
        seq![92u8, 102u8]
    } else if b == 13 {
        seq![92u8, 114u8]
    } else if b < 32 {
        seq![92u8, 117u8, 48u8, 48u8, hex_digit((b / 16) as nat), hex_digit((b % 16) as nat)]
    } else {
        seq![b]
    }
}

/// The escaped form of a byte sequence inside a JSON string.
pub open spec fn esc(s: Seq<u8>) -> Seq<u8>
    decreases s.len(),
{
    if s.len() == 0 {
        seq![]
    } else {
        esc_byte(s[0]) + esc(s.drop_first())
    }
}

/// A JSON string: a quote, the escaped UTF-8 bytes, a closing quote.
pub open spec fn json_string(s: Seq<char>) -> Seq<u8> {
    seq![34u8] + esc(encode_utf8(s)) + seq![34u8]
}

/// The decimal digits of `n`, most significant first, no leading zeros.
pub open spec fn dec_digits(n: nat) -> Seq<u8>
    decreases n,
{
    if n < 10 {
        seq![(48 + n) as u8]
    } else {
        dec_digits(n / 10) + seq![(48 + n % 10) as u8]
    }
}

/// A JSON integer, with a leading minus sign when negative.
pub open spec fn int_json(n: int) -> Seq<u8> {
    if n >= 0 {
        dec_digits(n as nat)
    } else {
        encode_utf8("-"@) + dec_digits((-n) as nat)
    }
}

/// The wire form of an error kind, as serde's externally tagged encoding
/// writes this crate's error enum.
pub open spec fn error_json(e: Error) -> Seq<u8> {
    match e {
        Error::NoSuchMethodError => encode_utf8("\"NoSuchMethodError\""@),
        Error::ClientNotAvailableError => encode_utf8("\"ClientNotAvailableError\""@),
        Error::ArgumentsNotMatchError(d) => encode_utf8("{\"ArgumentsNotMatchError\":"@)
            + json_string(d@) + encode_utf8("}"@),
        Error::SystemIOError() => encode_utf8("{\"SystemIOError\":[]}"@),
        Error::OtherError(d) => encode_utf8("{\"OtherError\":"@) + json_string(d@)
            + encode_utf8("}"@),
    }
}

/// The wire form of a header's `error` field: `null` or an error kind.
pub open spec fn opt_error_json(e: Option<Error>) -> Seq<u8> {
    match e {
        None => encode_utf8("null"@),
        Some(err) => error_json(err),
    }
}

/// The wire form of a call header, over the field values themselves.
pub open spec fn header_json_v(
    service: Seq<char>,
    method: Seq<char>,
    seqno: nat,
    error: Option<Error>,
) -> Seq<u8> {
    encode_utf8("{\"service\":"@) + json_string(service) + encode_utf8(",\"method\":"@)
        + json_string(method) + encode_utf8(",\"seq\":"@) + dec_digits(seqno)
        + encode_utf8(",\"error\":"@) + opt_error_json(error) + encode_utf8("}"@)
}

/// The wire form of a call header.
pub open spec fn header_json(h: Header) -> Seq<u8> {
    header_json_v(h.service@, h.method@, h.seq as nat, h.error)
}

/// The payload of a call frame, over the field values themselves.
pub open spec fn pair_json_v(
    service: Seq<char>,
    method: Seq<char>,
    seqno: nat,
    error: Option<Error>,
    contents: Seq<char>,
) -> Seq<u8> {
    encode_utf8("["@) + header_json_v(service, method, seqno, error)
        + encode_utf8(",{\"contents\":"@) + encode_utf8(contents) + encode_utf8("}]"@)
}

/// The payload of a call frame: the header object and the body object as
/// a two-element JSON array, the body's contents passed through verbatim.
pub open spec fn pair_json(h: Header, b: Body) -> Seq<u8> {
    pair_json_v(h.service@, h.method@, h.seq as nat, h.error, b.contents@)
}

/// The payload of a handshake frame.
pub open spec fn message_json(m: Message) -> Seq<u8> {
    encode_utf8("{\"magic_number\":"@) + int_json(m.magic_number as int) + encode_utf8("}"@)
}

// ----------------------------------------------------------------------
// Facts about the escaped form and the decimal form.
// ----------------------------------------------------------------------

/// Escaping distributes over concatenation.
pub proof fn lemma_esc_append(a: Seq<u8>, b: Seq<u8>)
    ensures
        esc(a + b) == esc(a) + esc(b),
    decreases a.len(),
{
    if a.len() == 0 {
        assert(a + b =~= b);
        assert(esc(a) + esc(b) =~= esc(b));
    } else {
        assert((a + b).drop_first() =~= a.drop_first() + b);
        lemma_esc_append(a.drop_first(), b);
        assert((a + b)[0] == a[0]);
        assert((a + b).len() > 0);
        assert(esc(a + b) == esc_byte(a[0]) + (esc(a.drop_first()) + esc(b)));
        assert(esc(a) + esc(b) =~= esc_byte(a[0]) + (esc(a.drop_first()) + esc(b)));
    }
}

/// Escaping a single byte gives that byte's escaped form.
pub proof fn lemma_esc_singleton(b: u8)
    ensures
        esc(seq![b]) == esc_byte(b),
{
    let s = seq![b];
    assert(s.drop_first() =~= Seq::<u8>::empty());
    assert(esc(s.drop_first()) =~= Seq::<u8>::empty());
    assert(s[0] == b);
    assert(esc(s) == esc_byte(b) + esc(s.drop_first()));
    assert(esc_byte(b) + esc(s.drop_first()) =~= esc_byte(b));
}

/// Appending one decimal digit to a positive number's digit string.
proof fn lemma_dec_append(v: nat, d: nat)
    requires
        v >= 1,
        d < 10,
    ensures
        dec_digits(v * 10 + d) == dec_digits(v) + seq![(48 + d) as u8],
{
    let w = v * 10 + d;
    assert(w >= 10 && w / 10 == v && w % 10 == d) by (nonlinear_arith)
        requires
            v >= 1,
            d < 10,
            w == v * 10 + d,
    ;
}

/// The byte sequence of the one-character quote literal.
pub proof fn lemma_quote_bytes()
    ensures
        encode_utf8("\""@) == seq![34u8],
{
    reveal_strlit("\"");
    let s = "\""@;
    assert(is_ascii_chars(s));
    is_ascii_chars_encode_utf8(s);
    assert(encode_utf8(s) =~= seq![34u8]);
}

/// The byte sequence of the one-character minus literal.
proof fn lemma_dash_bytes()
    ensures
        encode_utf8("-"@) == seq![45u8],
{
    reveal_strlit("-");
    let s = "-"@;
    assert(is_ascii_chars(s));
    is_ascii_chars_encode_utf8(s);
    assert(encode_utf8(s) =~= seq![45u8]);
}

/// The byte sequence of the one-character closing-brace literal.
proof fn lemma_rbrace_bytes()
    ensures
        encode_utf8("}"@) == seq![125u8],
{
    reveal_strlit("}");
    let s = "}"@;
    assert(is_ascii_chars(s));
    is_ascii_chars_encode_utf8(s);
    assert(encode_utf8(s) =~= seq![125u8]);
}

/// A known concatenation inside the input splits into its two parts.
proof fn lemma_sub_decompose(s: Seq<u8>, pos: int, a: Seq<u8>, b: Seq<u8>)
    requires
        0 <= pos,
        pos + a.len() + b.len() <= s.len(),
        s.subrange(pos, pos + a.len() + b.len()) == a + b,
    ensures
        s.subrange(pos, pos + a.len()) == a,
        s.subrange(pos + a.len(), pos + a.len() + b.len()) == b,
{
    let whole = s.subrange(pos, pos + a.len() + b.len());
    assert(s.subrange(pos, pos + a.len()) =~= a) by {
        assert forall|k: int| 0 <= k < a.len() implies s.subrange(pos, pos + a.len())[k]
            == a[k] by {
            assert(s.subrange(pos, pos + a.len())[k] == s[pos + k]);
            assert(whole[k] == s[pos + k]);
            assert((a + b)[k] == a[k]);
        }
    }
    assert(s.subrange(pos + a.len(), pos + a.len() + b.len()) =~= b) by {
        assert forall|k: int| 0 <= k < b.len() implies s.subrange(
            pos + a.len(),
            pos + a.len() + b.len(),
        )[k] == b[k] by {
            assert(s.subrange(pos + a.len(), pos + a.len() + b.len())[k] == s[pos + a.len() + k]);
            assert(whole[a.len() + k] == s[pos + a.len() + k]);
            assert((a + b)[a.len() + k] == b[k]);
        }
    }
}

// ----------------------------------------------------------------------
// Injectivity of the wire form: two frames with the same bytes carry
// the same header and body.  Together with the parsers' soundness this
// pins the codec down: whatever a parser accepts of a written frame is
// that frame, field for field.
// ----------------------------------------------------------------------

/// Splitting equal concatenations at the same offset gives equal parts.
proof fn lemma_concat_split(a: Seq<u8>, b: Seq<u8>, c: Seq<u8>, d: Seq<u8>)
    requires
        a + b == c + d,
        a.len() == c.len(),
    ensures
        a == c,
        b == d,
{
    assert forall|i: int| 0 <= i < a.len() implies a[i] == c[i] by {
        assert((a + b)[i] == a[i]);
        assert((c + d)[i] == c[i]);
    }
    assert(a =~= c);
    assert((a + b).len() == a.len() + b.len());
    assert((c + d).len() == c.len() + d.len());
    assert(b.len() == d.len());
    assert forall|i: int| 0 <= i < b.len() implies b[i] == d[i] by {
        assert((a + b)[a.len() + i] == b[i]);
        assert((c + d)[c.len() + i] == d[i]);
    }
    assert(b =~= d);
}

/// The first byte of a nonempty escaped string is never an unescaped
/// quote, and is a backslash exactly when the first raw byte is special.
proof fn lemma_esc_first_byte(u: Seq<u8>)
    requires
        u.len() > 0,
    ensures
        esc(u).len() > 0,
        esc(u)[0] != 34,
        needs_escape(u[0]) ==> esc(u)[0] == 92 && esc(u).len() > 1 && esc(u)[1] == esc_byte(
            u[0],
        )[1],
        !needs_escape(u[0]) ==> esc(u)[0] == u[0],
{
    assert(esc(u) == esc_byte(u[0]) + esc(u.drop_first()));
}

/// What the second byte of an escaped form says of the raw byte: each
/// shorthand pins it, and `u` marks the six-byte hexadecimal form.
proof fn lemma_esc_byte_from_second(x: u8)
    requires
        needs_escape(x),
    ensures
        esc_byte(x).len() == 2 || esc_byte(x).len() == 6,
        esc_byte(x)[0] == 92,
        esc_byte(x)[1] == 34 ==> x == 34,
        esc_byte(x)[1] == 92 ==> x == 92,
        esc_byte(x)[1] == 98 ==> x == 8,
        esc_byte(x)[1] == 116 ==> x == 9,
        esc_byte(x)[1] == 110 ==> x == 10,
        esc_byte(x)[1] == 102 ==> x == 12,
        esc_byte(x)[1] == 114 ==> x == 13,
        esc_byte(x)[1] == 117 ==> (x < 32 && x != 8 && x != 9 && x != 10 && x != 12 && x != 13
            && esc_byte(x).len() == 6 && esc_byte(x)[2] == 48 && esc_byte(x)[3] == 48
            && esc_byte(x)[4] == hex_digit((x / 16) as nat) && esc_byte(x)[5] == hex_digit(
            (x % 16) as nat,
        )),
        esc_byte(x)[1] == 34 || esc_byte(x)[1] == 92 || esc_byte(x)[1] == 98 || esc_byte(x)[1]
            == 116 || esc_byte(x)[1] == 110 || esc_byte(x)[1] == 102 || esc_byte(x)[1] == 114
            || esc_byte(x)[1] == 117,
{
}

/// Lowercase hexadecimal digits are distinct for distinct values.
proof fn lemma_hex_digit_injective(a: nat, b: nat)
    requires
        a < 16,
        b < 16,
        hex_digit(a) == hex_digit(b),
    ensures
        a == b,
{
    if a < 10 && b >= 10 {
        assert(48 + a < 87 + b);
    } else if a >= 10 && b < 10 {
        assert(48 + b < 87 + a);
    }
}

/// An escaped string closed by a quote determines the raw bytes and the
/// rest: the escaping is prefix-unambiguous.
proof fn lemma_esc_quote_unique(u1: Seq<u8>, u2: Seq<u8>, r1: Seq<u8>, r2: Seq<u8>)
    requires
        esc(u1) + seq![34u8] + r1 == esc(u2) + seq![34u8] + r2,
    ensures
        u1 == u2,
        r1 == r2,
    decreases u1.len(),
{
    let q = seq![34u8];
    if u1.len() == 0 && u2.len() == 0 {
        assert(esc(u1) =~= Seq::<u8>::empty());
        assert(esc(u2) =~= Seq::<u8>::empty());
        assert(esc(u1) + q + r1 =~= q + r1);
        assert(esc(u2) + q + r2 =~= q + r2);
        lemma_concat_split(q, r1, q, r2);
        assert(u1 =~= u2);
    } else if u1.len() == 0 {
        assert(esc(u1) =~= Seq::<u8>::empty());
        assert(esc(u1) + q + r1 =~= q + r1);
        assert((q + r1)[0] == 34);
        lemma_esc_first_byte(u2);
        assert((esc(u2) + q + r2)[0] == esc(u2)[0]);
        assert(false);
    } else if u2.len() == 0 {
        assert(esc(u2) =~= Seq::<u8>::empty());
        assert(esc(u2) + q + r2 =~= q + r2);
        assert((q + r2)[0] == 34);
        lemma_esc_first_byte(u1);
        assert((esc(u1) + q + r1)[0] == esc(u1)[0]);
        assert(false);
    } else {
        lemma_esc_first_byte(u1);
        lemma_esc_first_byte(u2);
        let lhs = esc(u1) + q + r1;
        assert(lhs[0] == esc(u1)[0]);
        assert(lhs[0] == esc(u2)[0]);
        assert(esc(u1) == esc_byte(u1[0]) + esc(u1.drop_first()));
        assert(esc(u2) == esc_byte(u2[0]) + esc(u2.drop_first()));
        if needs_escape(u1[0]) && !needs_escape(u2[0]) {
            assert(esc(u1)[0] == 92 && esc(u2)[0] == u2[0] && u2[0] != 92);
            assert(false);
        }
        if !needs_escape(u1[0]) && needs_escape(u2[0]) {
            assert(esc(u2)[0] == 92 && esc(u1)[0] == u1[0] && u1[0] != 92);
            assert(false);
        }
        if needs_escape(u1[0]) {
            lemma_esc_byte_from_second(u1[0]);
            lemma_esc_byte_from_second(u2[0]);
            assert(lhs[1] == esc(u1)[1]);
            assert(lhs[1] == esc(u2)[1]);
            assert(esc(u1)[1] == esc_byte(u1[0])[1]);
            assert(esc(u2)[1] == esc_byte(u2[0])[1]);
            if esc_byte(u1[0])[1] == 117 {
                assert(esc(u1).len() >= 6 && esc(u2).len() >= 6);
                assert(lhs[4] == esc(u1)[4] && esc(u1)[4] == esc_byte(u1[0])[4]);
                assert(lhs[4] == esc(u2)[4] && esc(u2)[4] == esc_byte(u2[0])[4]);
                assert(lhs[5] == esc(u1)[5] && esc(u1)[5] == esc_byte(u1[0])[5]);
                assert(lhs[5] == esc(u2)[5] && esc(u2)[5] == esc_byte(u2[0])[5]);
                lemma_hex_digit_injective((u1[0] / 16) as nat, (u2[0] / 16) as nat);
                lemma_hex_digit_injective((u1[0] % 16) as nat, (u2[0] % 16) as nat);
                lemma_fundamental_div_mod(u1[0] as int, 16);
                lemma_fundamental_div_mod(u2[0] as int, 16);
                assert(u1[0] == u2[0]);
            } else {
                assert(u1[0] == u2[0]);
            }
        } else {
            assert(u1[0] == u2[0]);
        }
        assert(esc(u1) + q + r1 =~= esc_byte(u1[0]) + (esc(u1.drop_first()) + q + r1));
        assert(esc(u2) + q + r2 =~= esc_byte(u2[0]) + (esc(u2.drop_first()) + q + r2));
        lemma_concat_split(
            esc_byte(u1[0]),
            esc(u1.drop_first()) + q + r1,
            esc_byte(u2[0]),
            esc(u2.drop_first()) + q + r2,
        );
        lemma_esc_quote_unique(u1.drop_first(), u2.drop_first(), r1, r2);
        assert(u1.len() == u2.len());
        assert forall|i: int| 0 <= i < u1.len() implies u1[i] == u2[i] by {
            if i > 0 {
                assert(u1[i] == u1.drop_first()[i - 1]);
                assert(u2[i] == u2.drop_first()[i - 1]);
            }
        }
        assert(u1 =~= u2);
    }
}

/// A JSON string token determines the characters and the rest.
proof fn lemma_json_string_unique(c1: Seq<char>, c2: Seq<char>, r1: Seq<u8>, r2: Seq<u8>)
    requires
        json_string(c1) + r1 == json_string(c2) + r2,
    ensures
        c1 == c2,
        r1 == r2,
{
    let q = seq![34u8];
    assert(json_string(c1) + r1 =~= q + (esc(encode_utf8(c1)) + q + r1));
    assert(json_string(c2) + r2 =~= q + (esc(encode_utf8(c2)) + q + r2));
    lemma_concat_split(q, esc(encode_utf8(c1)) + q + r1, q, esc(encode_utf8(c2)) + q + r2);
    lemma_esc_quote_unique(encode_utf8(c1), encode_utf8(c2), r1, r2);
    vstd::utf8::encode_utf8_decode_utf8(c1);
    vstd::utf8::encode_utf8_decode_utf8(c2);
}

/// Every byte of a decimal token is a digit.
proof fn lemma_dec_digits_are_digits(n: nat)
    ensures
        dec_digits(n).len() >= 1,
        forall|i: int| 0 <= i < dec_digits(n).len() ==> 48 <= #[trigger] dec_digits(n)[i] <= 57,
    decreases n,
{
    if n >= 10 {
        lemma_dec_digits_are_digits(n / 10);
        assert forall|i: int| 0 <= i < dec_digits(n).len() implies 48 <= #[trigger] dec_digits(
            n,
        )[i] <= 57 by {
            if i < dec_digits(n / 10).len() {
                assert(dec_digits(n)[i] == dec_digits(n / 10)[i]);
            }
        }
    }
}

/// Equal digit strings denote equal numbers.
proof fn lemma_dec_injective(n1: nat, n2: nat)
    requires
        dec_digits(n1) == dec_digits(n2),
    ensures
        n1 == n2,
    decreases n1,
{
    lemma_dec_digits_are_digits(n1);
    lemma_dec_digits_are_digits(n2);
    if n1 < 10 && n2 < 10 {
        assert(dec_digits(n1)[0] == 48 + n1);
        assert(dec_digits(n2)[0] == 48 + n2);
    } else if n1 < 10 {
        lemma_dec_digits_are_digits(n2 / 10);
        assert(dec_digits(n2).len() >= 2);
    } else if n2 < 10 {
        lemma_dec_digits_are_digits(n1 / 10);
        assert(dec_digits(n1).len() >= 2);
    } else {
        let s1 = dec_digits(n1 / 10);
        let s2 = dec_digits(n2 / 10);
        assert(dec_digits(n1) == s1 + seq![(48 + n1 % 10) as u8]);
        assert(dec_digits(n2) == s2 + seq![(48 + n2 % 10) as u8]);
        assert(dec_digits(n1).last() == 48 + n1 % 10);
        assert(dec_digits(n2).last() == 48 + n2 % 10);
        assert(n1 % 10 == n2 % 10);
        assert(s1.len() == s2.len());
        lemma_concat_split(s1, seq![(48 + n1 % 10) as u8], s2, seq![(48 + n2 % 10) as u8]);
        lemma_dec_injective(n1 / 10, n2 / 10);
        lemma_fundamental_div_mod(n1 as int, 10);
        lemma_fundamental_div_mod(n2 as int, 10);
    }
}

/// A decimal token followed by a non-digit determines the number and
/// the rest.
proof fn lemma_dec_token_unique(n1: nat, n2: nat, r1: Seq<u8>, r2: Seq<u8>)
    requires
        dec_digits(n1) + r1 == dec_digits(n2) + r2,
        r1.len() > 0,
        !(48 <= r1[0] <= 57),
        r2.len() > 0,
        !(48 <= r2[0] <= 57),
    ensures
        n1 == n2,
        r1 == r2,
{
    lemma_dec_digits_are_digits(n1);
    lemma_dec_digits_are_digits(n2);
    let d1 = dec_digits(n1);
    let d2 = dec_digits(n2);
    if d1.len() < d2.len() {
        assert((d1 + r1)[d1.len() as int] == r1[0]);
        assert((d2 + r2)[d1.len() as int] == d2[d1.len() as int]);
        assert(false);
    } else if d2.len() < d1.len() {
        assert((d2 + r2)[d2.len() as int] == r2[0]);
        assert((d1 + r1)[d2.len() as int] == d1[d2.len() as int]);
        assert(false);
    }
    lemma_concat_split(d1, r1, d2, r2);
    lemma_dec_injective(n1, n2);
}

/// A parsed string token and a string form at the same position agree.
proof fn lemma_string_form_align(s: Seq<u8>, pos: int, t1: Seq<u8>, p1: int, t2: Seq<u8>)
    requires
        0 <= pos <= p1 <= s.len(),
        s.subrange(pos, p1) == esc(t1) + seq![34u8],
        string_form_at(s, pos, t2),
    ensures
        t1 == t2,
        p1 == pos + esc(t2).len() + 1,
{
    let p2 = pos + esc(t2).len() + 1;
    let n = s.len() as int;
    assert(s.subrange(pos, n) =~= s.subrange(pos, p1) + s.subrange(p1, n));
    assert(s.subrange(pos, n) =~= s.subrange(pos, p2) + s.subrange(p2, n));
    assert((esc(t1) + seq![34u8]) + s.subrange(p1, n) =~= esc(t1) + seq![34u8] + s.subrange(
        p1,
        n,
    ));
    assert((esc(t2) + seq![34u8]) + s.subrange(p2, n) =~= esc(t2) + seq![34u8] + s.subrange(
        p2,
        n,
    ));
    lemma_esc_quote_unique(t1, t2, s.subrange(p1, n), s.subrange(p2, n));
}

/// A parsed number token and a number form at the same position agree.
proof fn lemma_number_form_align(s: Seq<u8>, pos: int, v: nat, p1: int, n: nat)
    requires
        0 <= pos < p1 <= s.len(),
        s.subrange(pos, p1) == dec_digits(v),
        p1 == s.len() || !(48 <= s[p1] <= 57),
        number_form_at(s, pos, n),
    ensures
        v == n,
        p1 == pos + dec_digits(n).len(),
{
    lemma_dec_digits_are_digits(v);
    lemma_dec_digits_are_digits(n);
    let p2 = pos + dec_digits(n).len();
    if p1 < p2 {
        assert(s.subrange(pos, p2)[p1 - pos] == s[p1]);
        assert(dec_digits(n)[p1 - pos] == s[p1]);
        assert(false);
    }
    if p2 < p1 {
        assert(s.subrange(pos, p1)[p2 - pos] == s[p2]);
        assert(dec_digits(v)[p2 - pos] == s[p2]);
        assert(false);
    }
    lemma_dec_injective(v, n);
}

/// A number form starts with a digit.
proof fn lemma_number_head_digit(s: Seq<u8>, pos: int, n: nat)
    requires
        number_form_at(s, pos, n),
    ensures
        pos < s.len(),
        48 <= s[pos] <= 57,
{
    lemma_dec_digits_are_digits(n);
    assert(s.subrange(pos, pos + dec_digits(n).len())[0] == s[pos]);
    assert(dec_digits(n)[0] == s[pos]);
}

/// A parsed error form and an expected error form at the same position
/// agree, up to string views.
proof fn lemma_opt_error_align(s: Seq<u8>, pos: int, e1: Option<Error>, p1: int, e2: Option<
    Error,
>)
    requires
        0 <= pos <= p1 <= s.len(),
        s.subrange(pos, p1) == opt_error_json(e1),
        pos + opt_error_json(e2).len() <= s.len(),
        s.subrange(pos, pos + opt_error_json(e2).len()) == opt_error_json(e2),
    ensures
        opt_error_eq_v(e1, e2),
        p1 == pos + opt_error_json(e2).len(),
{
    let p2 = pos + opt_error_json(e2).len();
    let n = s.len() as int;
    assert(s.subrange(pos, n) =~= s.subrange(pos, p1) + s.subrange(p1, n));
    assert(s.subrange(pos, n) =~= s.subrange(pos, p2) + s.subrange(p2, n));
    lemma_opt_error_unique(e1, e2, s.subrange(p1, n), s.subrange(p2, n));
}

/// Equality of error kinds up to string views, the grain the wire can
/// carry.
pub open spec fn error_eq_v(a: Error, b: Error) -> bool {
    match (a, b) {
        (Error::NoSuchMethodError, Error::NoSuchMethodError) => true,
        (Error::ClientNotAvailableError, Error::ClientNotAvailableError) => true,
        (Error::ArgumentsNotMatchError(x), Error::ArgumentsNotMatchError(y)) => x@ == y@,
        (Error::SystemIOError(), Error::SystemIOError()) => true,
        (Error::OtherError(x), Error::OtherError(y)) => x@ == y@,
        _ => false,
    }
}

/// Equality of optional error kinds up to string views.
pub open spec fn opt_error_eq_v(a: Option<Error>, b: Option<Error>) -> bool {
    match (a, b) {
        (None, None) => true,
        (Some(x), Some(y)) => error_eq_v(x, y),
        _ => false,
    }
}

/// The first three bytes of each error form on the wire; the six forms
/// all differ within them.
spec fn oe_sig(e: Option<Error>) -> (u8, u8, u8) {
    match e {
        None => (110u8, 117u8, 108u8),
        Some(Error::NoSuchMethodError) => (34u8, 78u8, 111u8),
        Some(Error::ClientNotAvailableError) => (34u8, 67u8, 108u8),
        Some(Error::SystemIOError()) => (123u8, 34u8, 83u8),
        Some(Error::ArgumentsNotMatchError(_)) => (123u8, 34u8, 65u8),
        Some(Error::OtherError(_)) => (123u8, 34u8, 79u8),
    }
}

/// The concrete leading bytes of the literals the error forms start with.
proof fn lemma_error_tag_bytes()
    ensures
        encode_utf8("null"@).len() == 4,
        encode_utf8("null"@)[0] == 110 && encode_utf8("null"@)[1] == 117 && encode_utf8(
            "null"@,
        )[2] == 108,
        encode_utf8("\"NoSuchMethodError\""@).len() == 19,
        encode_utf8("\"NoSuchMethodError\""@)[0] == 34 && encode_utf8("\"NoSuchMethodError\""@)[1]
            == 78 && encode_utf8("\"NoSuchMethodError\""@)[2] == 111,
        encode_utf8("\"ClientNotAvailableError\""@).len() == 25,
        encode_utf8("\"ClientNotAvailableError\""@)[0] == 34 && encode_utf8(
            "\"ClientNotAvailableError\""@,
        )[1] == 67 && encode_utf8("\"ClientNotAvailableError\""@)[2] == 108,
        encode_utf8("{\"SystemIOError\":[]}"@).len() == 20,
        encode_utf8("{\"SystemIOError\":[]}"@)[0] == 123 && encode_utf8(
            "{\"SystemIOError\":[]}"@,
        )[1] == 34 && encode_utf8("{\"SystemIOError\":[]}"@)[2] == 83,
        encode_utf8("{\"ArgumentsNotMatchError\":"@).len() == 26,
        encode_utf8("{\"ArgumentsNotMatchError\":"@)[0] == 123 && encode_utf8(
            "{\"ArgumentsNotMatchError\":"@,
        )[1] == 34 && encode_utf8("{\"ArgumentsNotMatchError\":"@)[2] == 65,
        encode_utf8("{\"OtherError\":"@).len() == 14,
        encode_utf8("{\"OtherError\":"@)[0] == 123 && encode_utf8("{\"OtherError\":"@)[1] == 34
            && encode_utf8("{\"OtherError\":"@)[2] == 79,
{
    reveal_strlit("null");
    reveal_strlit("\"NoSuchMethodError\"");
    reveal_strlit("\"ClientNotAvailableError\"");
    reveal_strlit("{\"SystemIOError\":[]}");
    reveal_strlit("{\"ArgumentsNotMatchError\":");
    reveal_strlit("{\"OtherError\":");
    let a = "null"@;
    assert(is_ascii_chars(a));
    is_ascii_chars_encode_utf8(a);
    let b = "\"NoSuchMethodError\""@;
    assert(is_ascii_chars(b));
    is_ascii_chars_encode_utf8(b);
    let c = "\"ClientNotAvailableError\""@;
    assert(is_ascii_chars(c));
    is_ascii_chars_encode_utf8(c);
    let d = "{\"SystemIOError\":[]}"@;
    assert(is_ascii_chars(d));
    is_ascii_chars_encode_utf8(d);
    let e = "{\"ArgumentsNotMatchError\":"@;
    assert(is_ascii_chars(e));
    is_ascii_chars_encode_utf8(e);
    let f = "{\"OtherError\":"@;
    assert(is_ascii_chars(f));
    is_ascii_chars_encode_utf8(f);
}

/// Every error form starts with its three signature bytes.
proof fn lemma_oe_head(e: Option<Error>)
    ensures
        opt_error_json(e).len() >= 3,
        opt_error_json(e)[0] == oe_sig(e).0,
        opt_error_json(e)[1] == oe_sig(e).1,
        opt_error_json(e)[2] == oe_sig(e).2,
{
    lemma_error_tag_bytes();
    match e {
        None => {},
        Some(Error::NoSuchMethodError) => {},
        Some(Error::ClientNotAvailableError) => {},
        Some(Error::SystemIOError()) => {},
        Some(Error::ArgumentsNotMatchError(d)) => {
            let t = encode_utf8("{\"ArgumentsNotMatchError\":"@);
            assert(opt_error_json(e) == t + json_string(d@) + encode_utf8("}"@));
            assert(opt_error_json(e)[0] == t[0]);
            assert(opt_error_json(e)[1] == t[1]);
            assert(opt_error_json(e)[2] == t[2]);
        },
        Some(Error::OtherError(d)) => {
            let t = encode_utf8("{\"OtherError\":"@);
            assert(opt_error_json(e) == t + json_string(d@) + encode_utf8("}"@));
            assert(opt_error_json(e)[0] == t[0]);
            assert(opt_error_json(e)[1] == t[1]);
            assert(opt_error_json(e)[2] == t[2]);
        },
    }
}

/// An error form determines the error kind, up to string views, and the
/// rest of the input.
proof fn lemma_opt_error_unique(e1: Option<Error>, e2: Option<Error>, r1: Seq<u8>, r2: Seq<u8>)
    requires
        opt_error_json(e1) + r1 == opt_error_json(e2) + r2,
    ensures
        opt_error_eq_v(e1, e2),
        r1 == r2,
{
    lemma_oe_head(e1);
    lemma_oe_head(e2);
    let o1 = opt_error_json(e1);
    let o2 = opt_error_json(e2);
    assert((o1 + r1)[0] == o1[0] && (o2 + r2)[0] == o2[0]);
    assert((o1 + r1)[1] == o1[1] && (o2 + r2)[1] == o2[1]);
    assert((o1 + r1)[2] == o1[2] && (o2 + r2)[2] == o2[2]);
    assert(oe_sig(e1) == oe_sig(e2));
    match (e1, e2) {
        (None, None) => {
            lemma_concat_split(o1, r1, o2, r2);
        },
        (Some(Error::NoSuchMethodError), Some(Error::NoSuchMethodError)) => {
            lemma_concat_split(o1, r1, o2, r2);
        },
        (Some(Error::ClientNotAvailableError), Some(Error::ClientNotAvailableError)) => {
            lemma_concat_split(o1, r1, o2, r2);
        },
        (Some(Error::SystemIOError()), Some(Error::SystemIOError())) => {
            lemma_concat_split(o1, r1, o2, r2);
        },
        (Some(Error::ArgumentsNotMatchError(d1)), Some(Error::ArgumentsNotMatchError(d2))) => {
            let t = encode_utf8("{\"ArgumentsNotMatchError\":"@);
            let rb = encode_utf8("}"@);
            assert(o1 + r1 =~= t + (json_string(d1@) + (rb + r1)));
            assert(o2 + r2 =~= t + (json_string(d2@) + (rb + r2)));
            lemma_concat_split(t, json_string(d1@) + (rb + r1), t, json_string(d2@) + (rb + r2));
            lemma_json_string_unique(d1@, d2@, rb + r1, rb + r2);
            lemma_concat_split(rb, r1, rb, r2);
        },
        (Some(Error::OtherError(d1)), Some(Error::OtherError(d2))) => {
            let t = encode_utf8("{\"OtherError\":"@);
            let rb = encode_utf8("}"@);
            assert(o1 + r1 =~= t + (json_string(d1@) + (rb + r1)));
            assert(o2 + r2 =~= t + (json_string(d2@) + (rb + r2)));
            lemma_concat_split(t, json_string(d1@) + (rb + r1), t, json_string(d2@) + (rb + r2));
            lemma_json_string_unique(d1@, d2@, rb + r1, rb + r2);
            lemma_concat_split(rb, r1, rb, r2);
        },
        _ => {
            assert(false);
        },
    }
}

/// The first byte after a header's sequence number is a comma, not a
/// digit: the number token ends unambiguously.
proof fn lemma_error_key_bytes()
    ensures
        encode_utf8(",\"error\":"@).len() == 9,
        encode_utf8(",\"error\":"@)[0] == 44,
{
    reveal_strlit(",\"error\":");
    let s = ",\"error\":"@;
    assert(is_ascii_chars(s));
    is_ascii_chars_encode_utf8(s);
}

/// Concatenation of byte sequences is associative.
proof fn lemma_assoc(a: Seq<u8>, b: Seq<u8>, c: Seq<u8>)
    ensures
        (a + b) + c == a + (b + c),
{
    assert((a + b) + c =~= a + (b + c));
}

/// A header's wire form, regrouped so each token heads the remainder.
proof fn lemma_header_json_nested(h: Header, r: Seq<u8>)
    ensures
        header_json(h) + r == encode_utf8("{\"service\":"@) + (json_string(h.service@) + (
        encode_utf8(",\"method\":"@) + (json_string(h.method@) + (encode_utf8(",\"seq\":"@) + (
        dec_digits(h.seq as nat) + (encode_utf8(",\"error\":"@) + (opt_error_json(h.error) + (
        encode_utf8("}"@) + r)))))))),
{
    let l1 = encode_utf8("{\"service\":"@);
    let sj = json_string(h.service@);
    let l2 = encode_utf8(",\"method\":"@);
    let mj = json_string(h.method@);
    let l3 = encode_utf8(",\"seq\":"@);
    let dq = dec_digits(h.seq as nat);
    let l4 = encode_utf8(",\"error\":"@);
    let oj = opt_error_json(h.error);
    let l5 = encode_utf8("}"@);
    let a1 = l1 + sj;
    let a2 = a1 + l2;
    let a3 = a2 + mj;
    let a4 = a3 + l3;
    let a5 = a4 + dq;
    let a6 = a5 + l4;
    let a7 = a6 + oj;
    assert(header_json(h) == a7 + l5);
    lemma_assoc(a7, l5, r);
    lemma_assoc(a6, oj, l5 + r);
    lemma_assoc(a5, l4, oj + (l5 + r));
    lemma_assoc(a4, dq, l4 + (oj + (l5 + r)));
    lemma_assoc(a3, l3, dq + (l4 + (oj + (l5 + r))));
    lemma_assoc(a2, mj, l3 + (dq + (l4 + (oj + (l5 + r)))));
    lemma_assoc(a1, l2, mj + (l3 + (dq + (l4 + (oj + (l5 + r))))));
    lemma_assoc(l1, sj, l2 + (mj + (l3 + (dq + (l4 + (oj + (l5 + r)))))));
}

/// A header's wire form determines its fields, up to string views, and
/// the rest of the input.
pub proof fn lemma_header_json_unique(h1: Header, h2: Header, r1: Seq<u8>, r2: Seq<u8>)
    requires
        header_json(h1) + r1 == header_json(h2) + r2,
    ensures
        h1.service@ == h2.service@,
        h1.method@ == h2.method@,
        h1.seq == h2.seq,
        opt_error_eq_v(h1.error, h2.error),
        r1 == r2,
{
    let l_svc = encode_utf8("{\"service\":"@);
    let l_mth = encode_utf8(",\"method\":"@);
    let l_seq = encode_utf8(",\"seq\":"@);
    let l_err = encode_utf8(",\"error\":"@);
    let l_rb = encode_utf8("}"@);
    lemma_header_json_nested(h1, r1);
    lemma_header_json_nested(h2, r2);
    let t1 = json_string(h1.service@) + (l_mth + (json_string(h1.method@) + (l_seq + (dec_digits(
        h1.seq as nat,
    ) + (l_err + (opt_error_json(h1.error) + (l_rb + r1)))))));
    let t2 = json_string(h2.service@) + (l_mth + (json_string(h2.method@) + (l_seq + (dec_digits(
        h2.seq as nat,
    ) + (l_err + (opt_error_json(h2.error) + (l_rb + r2)))))));
    lemma_concat_split(l_svc, t1, l_svc, t2);
    lemma_json_string_unique(
        h1.service@,
        h2.service@,
        l_mth + (json_string(h1.method@) + (l_seq + (dec_digits(h1.seq as nat) + (l_err + (
        opt_error_json(h1.error) + (l_rb + r1)))))),
        l_mth + (json_string(h2.method@) + (l_seq + (dec_digits(h2.seq as nat) + (l_err + (
        opt_error_json(h2.error) + (l_rb + r2)))))),
    );
    lemma_concat_split(
        l_mth,
        json_string(h1.method@) + (l_seq + (dec_digits(h1.seq as nat) + (l_err + (opt_error_json(
            h1.error,
        ) + (l_rb + r1))))),
        l_mth,
        json_string(h2.method@) + (l_seq + (dec_digits(h2.seq as nat) + (l_err + (opt_error_json(
            h2.error,
        ) + (l_rb + r2))))),
    );
    lemma_json_string_unique(
        h1.method@,
        h2.method@,
        l_seq + (dec_digits(h1.seq as nat) + (l_err + (opt_error_json(h1.error) + (l_rb + r1)))),
        l_seq + (dec_digits(h2.seq as nat) + (l_err + (opt_error_json(h2.error) + (l_rb + r2)))),
    );
    lemma_concat_split(
        l_seq,
        dec_digits(h1.seq as nat) + (l_err + (opt_error_json(h1.error) + (l_rb + r1))),
        l_seq,
        dec_digits(h2.seq as nat) + (l_err + (opt_error_json(h2.error) + (l_rb + r2))),
    );
    lemma_error_key_bytes();
    let u1 = l_err + (opt_error_json(h1.error) + (l_rb + r1));
    let u2 = l_err + (opt_error_json(h2.error) + (l_rb + r2));
    assert(u1[0] == 44 && u2[0] == 44);
    lemma_dec_token_unique(h1.seq as nat, h2.seq as nat, u1, u2);
    lemma_concat_split(
        l_err,
        opt_error_json(h1.error) + (l_rb + r1),
        l_err,
        opt_error_json(h2.error) + (l_rb + r2),
    );
    lemma_opt_error_unique(h1.error, h2.error, l_rb + r1, l_rb + r2);
    lemma_concat_split(l_rb, r1, l_rb, r2);
}

/// Two call frames with the same payload bytes carry the same header
/// fields and the same body text: together with the parsers' soundness,
/// decoding an encoded frame can only yield the frame that was encoded.
pub proof fn lemma_pair_json_unique(h1: Header, b1: Body, h2: Header, b2: Body)
    requires
        pair_json(h1, b1) == pair_json(h2, b2),
    ensures
        h1.service@ == h2.service@,
        h1.method@ == h2.method@,
        h1.seq == h2.seq,
        opt_error_eq_v(h1.error, h2.error),
        b1.contents@ == b2.contents@,
{
    let l_open = encode_utf8("["@);
    let l_cts = encode_utf8(",{\"contents\":"@);
    let l_end = encode_utf8("}]"@);
    let c1 = encode_utf8(b1.contents@);
    let c2 = encode_utf8(b2.contents@);
    let t1 = header_json(h1) + (l_cts + (c1 + l_end));
    let t2 = header_json(h2) + (l_cts + (c2 + l_end));
    assert(pair_json(h1, b1) == ((l_open + header_json(h1)) + l_cts + c1) + l_end);
    lemma_assoc((l_open + header_json(h1)) + l_cts, c1, l_end);
    lemma_assoc(l_open + header_json(h1), l_cts, c1 + l_end);
    lemma_assoc(l_open, header_json(h1), l_cts + (c1 + l_end));
    assert(pair_json(h2, b2) == ((l_open + header_json(h2)) + l_cts + c2) + l_end);
    lemma_assoc((l_open + header_json(h2)) + l_cts, c2, l_end);
    lemma_assoc(l_open + header_json(h2), l_cts, c2 + l_end);
    lemma_assoc(l_open, header_json(h2), l_cts + (c2 + l_end));
    lemma_concat_split(l_open, t1, l_open, t2);
    lemma_header_json_unique(h1, h2, l_cts + (c1 + l_end), l_cts + (c2 + l_end));
    lemma_concat_split(l_cts, c1 + l_end, l_cts, c2 + l_end);
    assert(c1.len() == c2.len());
    lemma_concat_split(c1, l_end, c2, l_end);
    vstd::utf8::encode_utf8_decode_utf8(b1.contents@);
    vstd::utf8::encode_utf8_decode_utf8(b2.contents@);
}

// ----------------------------------------------------------------------
// Writers.  Each emits exactly the bytes the specification above names.
// ----------------------------------------------------------------------

/// Appends a literal's UTF-8 bytes.
fn push_lit(out: &mut Vec<u8>, lit: &str)
    ensures
        final(out)@ == old(out)@ + encode_utf8(lit@),
{
    let b = lit.as_bytes();
    out.extend_from_slice(b);
}

/// Writes a value below sixteen as a lowercase hexadecimal digit.
fn to_hex_digit(d: u8) -> (r: u8)
    requires
        d < 16,
    ensures
        r == hex_digit(d as nat),
{
    if d < 10 {
        48 + d
    } else {
        87 + d
    }
}

/// Appends the escaped bytes of a string's UTF-8 form.
fn push_escaped(out: &mut Vec<u8>, s: &str)
    ensures
        final(out)@ == old(out)@ + esc(encode_utf8(s@)),
{
    let b = s.as_bytes();
    let ghost start = out@;
    let mut i: usize = 0;
    proof {
        assert(b@.take(0) =~= Seq::<u8>::empty());
        assert(out@ =~= start + esc(b@.take(0)));
    }
    while i < b.len()
        invariant
            i <= b@.len(),
            b@ == encode_utf8(s@),
            out@ == start + esc(b@.take(i as int)),
        decreases b@.len() - i,
    {
        let c = *vstd::slice::slice_index_get(b, i);
        if c == 34 || c == 92 {
            out.push(92);
            out.push(c);
        } else if c == 8 {
            out.push(92);
            out.push(98);
        } else if c == 9 {
            out.push(92);
            out.push(116);
        } else if c == 10 {
            out.push(92);
            out.push(110);
        } else if c == 12 {
            out.push(92);
            out.push(102);
        } else if c == 13 {
            out.push(92);
            out.push(114);
        } else if c < 32 {
            out.push(92);
            out.push(117);
            out.push(48);
            out.push(48);
            out.push(to_hex_digit(c / 16));
            out.push(to_hex_digit(c % 16));
        } else {
            out.push(c);
        }
        proof {
            assert(b@.take(i + 1) =~= b@.take(i as int) + seq![b@[i as int]]);
            lemma_esc_append(b@.take(i as int), seq![b@[i as int]]);
            lemma_esc_singleton(b@[i as int]);
            assert(out@ =~= start + esc(b@.take(i + 1)));
        }
        i = i + 1;
    }
    proof {
        assert(b@.take(b@.len() as int) =~= b@);
    }
}

/// Appends a JSON string: quote, escaped bytes, quote.
fn push_json_string(out: &mut Vec<u8>, s: &str)
    ensures
        final(out)@ == old(out)@ + json_string(s@),
{
    out.push(34);
    push_escaped(out, s);
    out.push(34);
    proof {
        assert(out@ =~= old(out)@ + json_string(s@));
    }
}

/// Appends the decimal digits of `n`.
fn push_dec(out: &mut Vec<u8>, n: u64)
    ensures
        final(out)@ == old(out)@ + dec_digits(n as nat),
    decreases n,
{
    if n < 10 {
        out.push(48 + n as u8);
        proof {
            assert(out@ =~= old(out)@ + dec_digits(n as nat));
        }
    } else {
        push_dec(out, n / 10);
        out.push(48 + (n % 10) as u8);
        proof {
            assert(out@ =~= old(out)@ + dec_digits(n as nat));
        }
    }
}

/// Appends a JSON integer, minus sign first when negative.
fn push_int(out: &mut Vec<u8>, n: i32)
    ensures
        final(out)@ == old(out)@ + int_json(n as int),
{
    if n >= 0 {
        push_dec(out, n as u64);
    } else {
        push_lit(out, "-");
        let m: i64 = -(n as i64);
        push_dec(out, m as u64);
        proof {
            assert(out@ =~= old(out)@ + int_json(n as int));
        }
    }
}

/// Appends the wire form of an error kind.
fn push_error(out: &mut Vec<u8>, e: &Error)
    ensures
        final(out)@ == old(out)@ + error_json(*e),
{
    match e {
        Error::NoSuchMethodError => {
            push_lit(out, "\"NoSuchMethodError\"");
        },
        Error::ClientNotAvailableError => {
            push_lit(out, "\"ClientNotAvailableError\"");
        },
        Error::ArgumentsNotMatchError(d) => {
            push_lit(out, "{\"ArgumentsNotMatchError\":");
            push_json_string(out, d.as_str());
            push_lit(out, "}");
            proof {
                assert(out@ =~= old(out)@ + error_json(*e));
            }
        },
        Error::SystemIOError() => {
            push_lit(out, "{\"SystemIOError\":[]}");
        },
        Error::OtherError(d) => {
            push_lit(out, "{\"OtherError\":");
            push_json_string(out, d.as_str());
            push_lit(out, "}");
            proof {
                assert(out@ =~= old(out)@ + error_json(*e));
            }
        },
    }
}

/// Appends a header's `error` field: `null` or an error kind.
fn push_opt_error(out: &mut Vec<u8>, e: &Option<Error>)
    ensures
        final(out)@ == old(out)@ + opt_error_json(*e),
{
    match e {
        None => {
            push_lit(out, "null");
        },
        Some(err) => {
            push_error(out, err);
        },
    }
}

/// Serialises a call's header and body into the payload of one frame:
/// a two-element JSON array holding the header object and the body
/// object, byte for byte as `pair_json` names it.
#[verifier::rlimit(60)]
pub fn encode_header_body(h: &Header, b: &Body) -> (r: Vec<u8>)
    ensures
        r@ == pair_json(*h, *b),
{
    let mut out: Vec<u8> = Vec::new();
    push_lit(&mut out, "[");
    push_lit(&mut out, "{\"service\":");
    push_json_string(&mut out, h.service.as_str());
    push_lit(&mut out, ",\"method\":");
    push_json_string(&mut out, h.method.as_str());
    push_lit(&mut out, ",\"seq\":");
    push_dec(&mut out, h.seq as u64);
    push_lit(&mut out, ",\"error\":");
    push_opt_error(&mut out, &h.error);
    push_lit(&mut out, "}");
    push_lit(&mut out, ",{\"contents\":");
    push_lit(&mut out, b.contents.as_str());
    push_lit(&mut out, "}]");
    proof {
        assert(out@ =~= pair_json(*h, *b));
    }
    out
}

/// Serialises a call's header and body and wraps them in one frame: the
/// complete byte string a peer writes to the wire for one call or reply.
pub fn encode_call_frame(h: &Header, b: &Body) -> (r: Vec<u8>)
    ensures
        r@ == crate::codec::frame_bytes(pair_json(*h, *b)),
{
    let payload = encode_header_body(h, b);
    crate::codec::encode_frame(&payload)
}

/// Serialises a handshake message and wraps it in one frame.
pub fn encode_message_frame(m: &Message) -> (r: Vec<u8>)
    ensures
        r@ == crate::codec::frame_bytes(message_json(*m)),
{
    let payload = encode_message(m);
    crate::codec::encode_frame(&payload)
}

// ----------------------------------------------------------------------
// Parsers.  Each is sound: whenever one accepts, the bytes it consumed
// are exactly the wire form of the value it returns, so an accepted
// frame reconstructs byte for byte.
// ----------------------------------------------------------------------

/// Relies on String::from_utf8: returns the string whose UTF-8 encoding
/// is the given bytes, and succeeds exactly on valid UTF-8 input.
#[verifier::external_body]
pub(crate) fn bytes_to_string(v: Vec<u8>) -> (r: Option<String>)
    ensures
        r matches Some(s) ==> encode_utf8(s@) == v@,
        valid_utf8(v@) ==> r is Some,
{
    String::from_utf8(v).ok()
}

/// Consumes an exact literal at `pos`; accepts if and only if the input
/// continues with that literal's UTF-8 bytes.
fn expect_lit(s: &Vec<u8>, pos: usize, lit: &str) -> (r: Option<usize>)
    requires
        pos <= s@.len(),
    ensures
        r matches Some(p) ==> pos <= p <= s@.len() && p == pos + encode_utf8(lit@).len()
            && s@.subrange(pos as int, p as int) == encode_utf8(lit@),
        r is None ==> !(pos + encode_utf8(lit@).len() <= s@.len()
            && s@.subrange(pos as int, pos + encode_utf8(lit@).len()) == encode_utf8(lit@)),
{
    let lb = lit.as_bytes();
    if lb.len() > s.len() - pos {
        return None;
    }
    let mut j: usize = 0;
    while j < lb.len()
        invariant
            j <= lb@.len(),
            pos + lb@.len() <= s@.len(),
            s@.len() <= usize::MAX,
            lb@ == encode_utf8(lit@),
            forall|k: int| 0 <= k < j ==> s@[pos + k] == lb@[k],
        decreases lb@.len() - j,
    {
        if *vstd::slice::slice_index_get(lb, j) != s[pos + j] {
            proof {
                assert(s@.subrange(pos as int, pos + lb@.len())[j as int] == s@[pos + j]);
            }
            return None;
        }
        j = j + 1;
    }
    proof {
        assert(s@.subrange(pos as int, pos + lb@.len()) =~= lb@);
    }
    Some(pos + lb.len())
}

/// The input at `pos` carries exactly the escaped form of `t` followed
/// by the closing quote.
pub open spec fn string_form_at(s: Seq<u8>, pos: int, t: Seq<u8>) -> bool {
    &&& 0 <= pos
    &&& pos + esc(t).len() + 1 <= s.len()
    &&& s.subrange(pos, pos + esc(t).len() + 1) == esc(t) + seq![34u8]
}

/// What the string form says of a nonempty string's head: the input
/// carries the first byte's escaped form, then the form of the rest.
proof fn lemma_string_hyp_head(s: Seq<u8>, pos: int, t: Seq<u8>)
    requires
        string_form_at(s, pos, t),
        t.len() > 0,
    ensures
        forall|k: int| 0 <= k < esc_byte(t[0]).len() ==> s[pos + k] == esc_byte(t[0])[k],
        esc(t).len() == esc_byte(t[0]).len() + esc(t.drop_first()).len(),
        string_form_at(s, pos + esc_byte(t[0]).len(), t.drop_first()),
        needs_escape(t[0]) || esc_byte(t[0]) == seq![t[0]],
{
    let eb = esc_byte(t[0]);
    let rest = esc(t.drop_first());
    assert(esc(t) == eb + rest);
    let whole = s.subrange(pos, pos + esc(t).len() + 1);
    assert forall|k: int| 0 <= k < eb.len() implies s[pos + k] == eb[k] by {
        assert(whole[k] == s[pos + k]);
        assert((esc(t) + seq![34u8])[k] == esc(t)[k]);
        assert(esc(t)[k] == eb[k]);
    }
    assert(s.subrange(pos + eb.len(), pos + eb.len() + rest.len() + 1) =~= rest + seq![34u8]) by {
        assert forall|j: int| 0 <= j < rest.len() + 1 implies s.subrange(
            pos + eb.len(),
            pos + eb.len() + rest.len() + 1,
        )[j] == (rest + seq![34u8])[j] by {
            assert(s.subrange(pos + eb.len(), pos + eb.len() + rest.len() + 1)[j] == s[pos
                + eb.len() + j]);
            assert(whole[eb.len() + j] == s[pos + eb.len() + j]);
            if j < rest.len() {
                assert((esc(t) + seq![34u8])[eb.len() + j] == esc(t)[eb.len() + j]);
                assert(esc(t)[eb.len() + j] == rest[j]);
            } else {
                assert((esc(t) + seq![34u8])[eb.len() + j] == 34);
            }
        }
    }
}

/// The first input byte under a string form: the closing quote when the
/// string is empty, the first escaped byte otherwise.
proof fn lemma_string_form_head_byte(s: Seq<u8>, pos: int, t: Seq<u8>)
    requires
        string_form_at(s, pos, t),
    ensures
        t.len() == 0 ==> s[pos] == 34,
        t.len() > 0 ==> s[pos] == esc_byte(t[0])[0],
{
    if t.len() == 0 {
        assert(esc(t) =~= Seq::<u8>::empty());
        assert(s.subrange(pos, pos + esc(t).len() + 1)[0] == s[pos]);
        assert((esc(t) + seq![34u8])[0] == 34);
    } else {
        lemma_string_hyp_head(s, pos, t);
        assert(s[pos] == esc_byte(t[0])[0]);
    }
}

/// Reads one lowercase hexadecimal digit.
fn from_hex_digit(d: u8) -> (r: Option<u8>)
    ensures
        r matches Some(v) ==> v < 16 && hex_digit(v as nat) == d,
        forall|v: nat| v < 16 && d == hex_digit(v) ==> (r matches Some(w) && w as nat == v),
{
    if 48 <= d && d <= 57 {
        Some(d - 48)
    } else if 97 <= d && d <= 102 {
        Some(d - 87)
    } else {
        None
    }
}

/// Consumes one escape sequence at `pos`, which holds a backslash.
/// Sound: the consumed bytes are the returned byte's escaped form.
/// Complete: under a string form the first byte's escape is recognised.
fn parse_escape(s: &Vec<u8>, pos: usize) -> (r: Option<(u8, usize)>)
    requires
        pos < s@.len(),
        s@[pos as int] == 92,
    ensures
        r matches Some(pair) ==> needs_escape(pair.0) && pair.1 == esc_byte(pair.0).len() && pos
            + pair.1 <= s@.len() && s@.subrange(pos as int, pos + pair.1) == esc_byte(pair.0),
        forall|t: Seq<u8>| #[trigger] string_form_at(s@, pos as int, t) ==> (t.len() > 0 && (
        r matches Some(pair) && pair.0 == t[0])),
{
    proof {
        assert forall|t: Seq<u8>| string_form_at(s@, pos as int, t) implies t.len() > 0
            && needs_escape(t[0]) by {
            lemma_string_form_head_byte(s@, pos as int, t);
            assert(t.len() > 0);
            if !needs_escape(t[0]) {
                assert(s@[pos as int] == t[0]);
            }
        }
    }
    if s.len() - pos < 2 {
        proof {
            assert forall|t: Seq<u8>| string_form_at(s@, pos as int, t) implies false by {
                lemma_string_hyp_head(s@, pos as int, t);
                lemma_esc_byte_from_second(t[0]);
            }
        }
        return None;
    }
    let d = s[pos + 1];
    let short: Option<u8> = if d == 34 {
        Some(34u8)
    } else if d == 92 {
        Some(92u8)
    } else if d == 98 {
        Some(8u8)
    } else if d == 116 {
        Some(9u8)
    } else if d == 110 {
        Some(10u8)
    } else if d == 102 {
        Some(12u8)
    } else if d == 114 {
        Some(13u8)
    } else {
        None
    };
    match short {
        Some(v) => {
            proof {
                assert(esc_byte(v) =~= seq![92u8, d]);
                assert(s@.subrange(pos as int, pos + 2) =~= seq![s@[pos as int], s@[pos + 1]]);
                assert forall|t: Seq<u8>| string_form_at(s@, pos as int, t) implies t[0] == v by {
                    lemma_string_hyp_head(s@, pos as int, t);
                    lemma_esc_byte_from_second(t[0]);
                    assert(esc_byte(t[0])[1] == d);
                }
            }
            return Some((v, 2));
        },
        None => {},
    }
    if d != 117 {
        proof {
            assert forall|t: Seq<u8>| string_form_at(s@, pos as int, t) implies false by {
                lemma_string_hyp_head(s@, pos as int, t);
                lemma_esc_byte_from_second(t[0]);
                assert(esc_byte(t[0])[1] == d);
            }
        }
        return None;
    }
    if s.len() - pos < 6 || s[pos + 2] != 48 || s[pos + 3] != 48 {
        proof {
            assert forall|t: Seq<u8>| string_form_at(s@, pos as int, t) implies false by {
                lemma_string_hyp_head(s@, pos as int, t);
                lemma_esc_byte_from_second(t[0]);
                assert(esc_byte(t[0])[1] == 117);
                assert(esc_byte(t[0]).len() == 6);
            }
        }
        return None;
    }
    let h1 = from_hex_digit(s[pos + 4]);
    let h2 = from_hex_digit(s[pos + 5]);
    let (v1, v2) = match (h1, h2) {
        (Some(a), Some(b)) => (a, b),
        _ => {
            proof {
                assert forall|t: Seq<u8>| string_form_at(s@, pos as int, t) implies false by {
                    lemma_string_hyp_head(s@, pos as int, t);
                    lemma_esc_byte_from_second(t[0]);
                    assert(esc_byte(t[0])[1] == 117);
                    assert(s@[pos + 4] == hex_digit((t[0] / 16) as nat));
                    assert(s@[pos + 5] == hex_digit((t[0] % 16) as nat));
                }
            }
            return None;
        },
    };
    let v = v1 * 16 + v2;
    proof {
        assert(v / 16 == v1 && v % 16 == v2) by {
            lemma_fundamental_div_mod(v as int, 16);
            vstd::arithmetic::div_mod::lemma_small_mod(v2 as nat, 16);
            assert((v1 * 16 + v2) % 16 == v2) by {
                vstd::arithmetic::div_mod::lemma_mod_multiples_vanish(v1 as int, v2 as int, 16);
            }
        }
        assert forall|t: Seq<u8>| string_form_at(s@, pos as int, t) implies t[0] == v by {
            lemma_string_hyp_head(s@, pos as int, t);
            lemma_esc_byte_from_second(t[0]);
            assert(esc_byte(t[0])[1] == 117);
            assert(hex_digit(v1 as nat) == hex_digit((t[0] / 16) as nat));
            assert(hex_digit(v2 as nat) == hex_digit((t[0] % 16) as nat));
            lemma_hex_digit_injective(v1 as nat, (t[0] / 16) as nat);
            lemma_hex_digit_injective(v2 as nat, (t[0] % 16) as nat);
            lemma_fundamental_div_mod(t[0] as int, 16);
        }
    }
    if v >= 32 || v == 8 || v == 9 || v == 10 || v == 12 || v == 13 {
        proof {
            assert forall|t: Seq<u8>| string_form_at(s@, pos as int, t) implies false by {
                lemma_string_hyp_head(s@, pos as int, t);
                lemma_esc_byte_from_second(t[0]);
                assert(esc_byte(t[0])[1] == 117);
                assert(t[0] == v);
                assert(t[0] < 32 && t[0] != 8 && t[0] != 9 && t[0] != 10 && t[0] != 12
                    && t[0] != 13);
            }
        }
        return None;
    }
    proof {
        assert(esc_byte(v) =~= seq![92u8, 117u8, 48u8, 48u8, s@[pos + 4], s@[pos + 5]]);
        assert(s@.subrange(pos as int, pos + 6) =~= seq![
            s@[pos as int],
            s@[pos + 1],
            s@[pos + 2],
            s@[pos + 3],
            s@[pos + 4],
            s@[pos + 5],
        ]);
    }
    Some((v, 6))
}

/// Consumes the rest of a JSON string after its opening quote: escaped
/// bytes up to and including the closing quote.  Sound: the consumed
/// bytes are exactly the escaped form of the returned bytes plus the
/// closing quote.  Complete: an input that carries the escaped form of
/// any byte string is accepted; only the canonical escapes the writer
/// emits are recognised.
fn parse_string(s: &Vec<u8>, pos: usize) -> (r: Option<(Vec<u8>, usize)>)
    requires
        pos <= s@.len(),
    ensures
        r matches Some(pair) ==> pos <= pair.1 <= s@.len()
            && s@.subrange(pos as int, pair.1 as int) == esc(pair.0@) + seq![34u8],
        forall|t: Seq<u8>| #[trigger] string_form_at(s@, pos as int, t) ==> r is Some,
    decreases s@.len() - pos,
{
    if pos >= s.len() {
        proof {
            assert forall|t: Seq<u8>| string_form_at(s@, pos as int, t) implies false by {
                assert(pos + esc(t).len() + 1 <= s@.len());
            }
        }
        return None;
    }
    let c = s[pos];
    if c == 34 {
        let t: Vec<u8> = Vec::new();
        proof {
            assert(esc(t@) =~= Seq::<u8>::empty());
            assert(s@.subrange(pos as int, pos + 1) =~= esc(t@) + seq![34u8]);
        }
        return Some((t, pos + 1));
    }
    let (v, n): (u8, usize) = if c == 92 {
        match parse_escape(s, pos) {
            Some(pair) => pair,
            None => {
                return None;
            },
        }
    } else {
        if c < 32 {
            proof {
                assert forall|t: Seq<u8>| string_form_at(s@, pos as int, t) implies false by {
                    lemma_string_form_head_byte(s@, pos as int, t);
                    assert(t.len() > 0);
                    if needs_escape(t[0]) {
                        lemma_esc_byte_from_second(t[0]);
                        assert(s@[pos as int] == 92);
                    } else {
                        assert(s@[pos as int] == t[0]);
                    }
                }
            }
            return None;
        }
        proof {
            assert(esc_byte(c) =~= seq![c]);
            assert(s@.subrange(pos as int, pos + 1) =~= seq![s@[pos as int]]);
        }
        (c, 1)
    };
    match parse_string(s, pos + n) {
        Some(pair) => {
            let (t_rest, p) = pair;
            let ghost tr = t_rest@;
            let mut t = t_rest;
            t.insert(0, v);
            proof {
                assert(t@ =~= seq![v] + tr);
                lemma_esc_append(seq![v], tr);
                lemma_esc_singleton(v);
                assert(esc(t@) == esc(seq![v] + tr));
                assert(esc(t@) =~= esc_byte(v) + esc(tr));
                assert(s@.subrange(pos as int, p as int) =~= s@.subrange(pos as int, pos + n)
                    + s@.subrange(pos + n, p as int));
                assert(s@.subrange(pos as int, pos + n) == esc_byte(v));
                assert(s@.subrange(pos + n, p as int) == esc(tr) + seq![34u8]);
                assert(s@.subrange(pos as int, p as int) =~= esc(t@) + seq![34u8]);
            }
            Some((t, p))
        },
        None => {
            proof {
                assert forall|t: Seq<u8>| string_form_at(s@, pos as int, t) implies false by {
                    lemma_string_form_head_byte(s@, pos as int, t);
                    assert(t.len() > 0);
                    lemma_string_hyp_head(s@, pos as int, t);
                    assert(t[0] == v) by {
                        if c == 92 {
                        } else {
                            if needs_escape(t[0]) {
                                lemma_esc_byte_from_second(t[0]);
                                assert(s@[pos as int] == 92);
                            } else {
                                assert(s@[pos as int] == t[0]);
                            }
                        }
                    }
                    assert(esc_byte(t[0]).len() == n) by {
                        if c == 92 {
                        } else {
                            assert(esc_byte(v) =~= seq![v]);
                        }
                    }
                    assert(string_form_at(s@, pos + n, t.drop_first()));
                }
            }
            None
        },
    }
}

/// The input at `pos` carries exactly the decimal form of `n`, ending
/// at the input's end or at a non-digit byte.
pub open spec fn number_form_at(s: Seq<u8>, pos: int, n: nat) -> bool {
    &&& 0 <= pos
    &&& pos + dec_digits(n).len() <= s.len()
    &&& s.subrange(pos, pos + dec_digits(n).len()) == dec_digits(n)
    &&& (pos + dec_digits(n).len() == s.len() || !(48 <= s[pos + dec_digits(n).len()] <= 57))
}

/// The shape of a decimal form: at least one digit, one digit exactly
/// for values below ten, and no leading zero above nine.
proof fn lemma_dec_props(n: nat)
    ensures
        dec_digits(n).len() >= 1,
        (dec_digits(n).len() == 1) <==> n < 10,
        n >= 10 ==> dec_digits(n)[0] != 48,
        n < 10 ==> dec_digits(n)[0] == 48 + n,
    decreases n,
{
    if n >= 10 {
        lemma_dec_props(n / 10);
        assert(dec_digits(n) == dec_digits(n / 10) + seq![(48 + n % 10) as u8]);
        assert(dec_digits(n)[0] == dec_digits(n / 10)[0]);
    }
}

/// Converts a run of digit bytes.  Sound: the range is the decimal form
/// of the returned value.  Complete: the decimal form of any value that
/// fits the machine word is converted to exactly that value.
fn digits_value(s: &Vec<u8>, pos: usize, end: usize) -> (r: Option<usize>)
    requires
        pos <= end <= s@.len(),
    ensures
        r matches Some(v) ==> s@.subrange(pos as int, end as int) == dec_digits(v as nat),
        forall|n: nat|
            (n <= usize::MAX && end - pos == dec_digits(n).len() && s@.subrange(
                pos as int,
                end as int,
            ) == #[trigger] dec_digits(n)) ==> (r matches Some(v) && v as nat == n),
    decreases end - pos,
{
    if end == pos {
        proof {
            assert forall|n: nat| end - pos == dec_digits(n).len() implies false by {
                lemma_dec_props(n);
            }
        }
        return None;
    }
    if end - pos == 1 {
        let d = s[pos];
        if 48 <= d && d <= 57 {
            let v = (d - 48) as usize;
            proof {
                assert(s@.subrange(pos as int, end as int) =~= dec_digits(v as nat));
                assert forall|n: nat|
                    (n <= usize::MAX && end - pos == dec_digits(n).len() && s@.subrange(
                        pos as int,
                        end as int,
                    ) == dec_digits(n)) implies v as nat == n by {
                    lemma_dec_props(n);
                    assert(dec_digits(n)[0] == s@[pos as int]);
                }
            }
            return Some(v);
        } else {
            proof {
                assert forall|n: nat|
                    (end - pos == dec_digits(n).len() && s@.subrange(pos as int, end as int)
                        == dec_digits(n)) implies false by {
                    lemma_dec_digits_are_digits(n);
                    assert(dec_digits(n)[0] == s@[pos as int]);
                }
            }
            return None;
        }
    }
    let ghost whole = s@.subrange(pos as int, end as int);
    proof {
        assert forall|n: nat|
            (n <= usize::MAX && end - pos == dec_digits(n).len() && whole == #[trigger] dec_digits(
                n,
            )) implies (n >= 10 && n / 10 >= 1 && n / 10 <= usize::MAX && (end - 1) - pos
            == dec_digits(n / 10).len() && s@.subrange(pos as int, end - 1) == dec_digits(n / 10)
            && s@[end - 1] == 48 + n % 10) by {
            lemma_dec_props(n);
            assert(n >= 10);
            lemma_dec_props(n / 10);
            assert(dec_digits(n) == dec_digits(n / 10) + seq![(48 + n % 10) as u8]);
            assert(s@.subrange(pos as int, end - 1) =~= dec_digits(n / 10)) by {
                assert forall|j: int| 0 <= j < dec_digits(n / 10).len() implies s@.subrange(
                    pos as int,
                    end - 1,
                )[j] == #[trigger] dec_digits(n / 10)[j] by {
                    assert(s@.subrange(pos as int, end - 1)[j] == s@[pos + j]);
                    assert(whole[j] == s@[pos + j]);
                    assert(dec_digits(n)[j] == dec_digits(n / 10)[j]);
                }
            }
            assert(whole[(end - 1) - pos] == s@[end - 1]);
            assert(dec_digits(n).last() == 48 + n % 10);
        }
    }
    let sub = match digits_value(s, pos, end - 1) {
        Some(v) => v,
        None => {
            return None;
        },
    };
    let d = s[end - 1];
    if d < 48 || d > 57 {
        return None;
    }
    if sub == 0 {
        return None;
    }
    let dv = (d - 48) as usize;
    if sub > (usize::MAX - dv) / 10 {
        proof {
            assert forall|n: nat|
                (n <= usize::MAX && end - pos == dec_digits(n).len() && whole
                    == #[trigger] dec_digits(n)) implies false by {
                assert(sub as nat == n / 10);
                assert(dv as nat == n % 10);
                lemma_fundamental_div_mod(n as int, 10);
                assert(sub * 10 + dv <= usize::MAX);
                assert(sub <= (usize::MAX - dv) / 10) by {
                    lemma_fundamental_div_mod((usize::MAX - dv) as int, 10);
                }
            }
        }
        return None;
    }
    let v = sub * 10 + dv;
    proof {
        assert(sub * 10 <= (usize::MAX - dv) / 10 * 10);
        lemma_dec_append(sub as nat, dv as nat);
        assert(s@.subrange(pos as int, end as int) =~= s@.subrange(pos as int, end - 1) + seq![
            s@[end - 1],
        ]);
        assert(s@.subrange(pos as int, end as int) =~= dec_digits(v as nat));
        assert forall|n: nat|
            (n <= usize::MAX && end - pos == dec_digits(n).len() && whole == #[trigger] dec_digits(
                n,
            )) implies v as nat == n by {
            assert(sub as nat == n / 10);
            assert(dv as nat == n % 10);
            lemma_fundamental_div_mod(n as int, 10);
        }
    }
    Some(v)
}

/// Consumes a canonical decimal number at `pos`: digits up to the first
/// non-digit, no leading zeros.  Sound: the consumed bytes are the
/// decimal form of the value, and the number token ends there.
/// Complete: a decimal form that fits the machine word is accepted.
fn parse_usize(s: &Vec<u8>, pos: usize) -> (r: Option<(usize, usize)>)
    requires
        pos <= s@.len(),
    ensures
        r matches Some(pair) ==> pos < pair.1 <= s@.len()
            && s@.subrange(pos as int, pair.1 as int) == dec_digits(pair.0 as nat)
            && (pair.1 == s@.len() || !(48 <= s@[pair.1 as int] <= 57)),
        forall|n: nat| (#[trigger] number_form_at(s@, pos as int, n) && n <= usize::MAX)
            ==> r is Some,
{
    let mut e: usize = pos;
    while e < s.len() && 48 <= s[e] && s[e] <= 57
        invariant
            pos <= e <= s@.len(),
            forall|j: int| pos <= j < e ==> 48 <= #[trigger] s@[j] <= 57,
        decreases s@.len() - e,
    {
        e = e + 1;
    }
    proof {
        assert(e == s@.len() || !(48 <= s@[e as int] <= 57));
        assert forall|n: nat| number_form_at(s@, pos as int, n) implies e - pos == dec_digits(
            n,
        ).len() by {
            lemma_dec_digits_are_digits(n);
            let l = dec_digits(n).len();
            assert forall|j: int| pos <= j < pos + l implies 48 <= #[trigger] s@[j] <= 57 by {
                assert(s@.subrange(pos as int, pos + l)[j - pos] == s@[j]);
                assert(dec_digits(n)[j - pos] == s@[j]);
            }
            if e < pos + l {
                assert(48 <= s@[e as int] <= 57);
                assert(false);
            }
            if e > pos + l {
                assert(pos + l < s@.len());
                assert(48 <= s@[pos + l] <= 57);
                assert(false);
            }
        }
    }
    if e == pos {
        proof {
            assert forall|n: nat| number_form_at(s@, pos as int, n) implies false by {
                lemma_dec_props(n);
            }
        }
        return None;
    }
    if s[pos] == 48 && e - pos > 1 {
        proof {
            assert forall|n: nat| number_form_at(s@, pos as int, n) implies false by {
                lemma_dec_props(n);
                assert(dec_digits(n)[0] == s@[pos as int]);
                assert(n < 10);
            }
        }
        return None;
    }
    match digits_value(s, pos, e) {
        Some(v) => {
            return Some((v, e));
        },
        None => {
            proof {
                assert forall|n: nat| (number_form_at(s@, pos as int, n) && n <= usize::MAX)
                    implies false by {
                    assert(e - pos == dec_digits(n).len());
                    assert(s@.subrange(pos as int, e as int) == dec_digits(n));
                }
            }
            return None;
        },
    }
}

/// The input at `pos` carries exactly the wire form of this `error`
/// field value.
pub open spec fn opt_error_form_at(s: Seq<u8>, pos: int, e: Option<Error>) -> bool {
    &&& 0 <= pos
    &&& pos + opt_error_json(e).len() <= s.len()
    &&& s.subrange(pos, pos + opt_error_json(e).len()) == opt_error_json(e)
}

/// What each error form decomposes into at its position.
proof fn lemma_opt_error_form_parts(s: Seq<u8>, pos: int, e: Option<Error>)
    requires
        opt_error_form_at(s, pos, e),
    ensures
        e is None ==> pos + 4 <= s.len() && s.subrange(pos, pos + 4) == encode_utf8("null"@),
        e matches Some(Error::NoSuchMethodError) ==> pos + 19 <= s.len() && s.subrange(
            pos,
            pos + 19,
        ) == encode_utf8("\"NoSuchMethodError\""@),
        e matches Some(Error::ClientNotAvailableError) ==> pos + 25 <= s.len() && s.subrange(
            pos,
            pos + 25,
        ) == encode_utf8("\"ClientNotAvailableError\""@),
        e matches Some(Error::SystemIOError()) ==> pos + 20 <= s.len() && s.subrange(
            pos,
            pos + 20,
        ) == encode_utf8("{\"SystemIOError\":[]}"@),
        e matches Some(Error::ArgumentsNotMatchError(d)) ==> pos + 26 <= s.len() && s.subrange(
            pos,
            pos + 26,
        ) == encode_utf8("{\"ArgumentsNotMatchError\":"@) && s.subrange(pos + 26, pos + 27)
            == encode_utf8("\""@) && string_form_at(s, pos + 27, encode_utf8(d@))
            && opt_error_json(e).len() == 28 + esc(encode_utf8(d@)).len() + 1 && s.subrange(
            pos + opt_error_json(e).len() - 1,
            pos + opt_error_json(e).len(),
        ) == encode_utf8("}"@),
        e matches Some(Error::OtherError(d)) ==> pos + 14 <= s.len() && s.subrange(pos, pos + 14)
            == encode_utf8("{\"OtherError\":"@) && s.subrange(pos + 14, pos + 15) == encode_utf8(
            "\""@,
        ) && string_form_at(s, pos + 15, encode_utf8(d@)) && opt_error_json(e).len() == 16 + esc(
            encode_utf8(d@),
        ).len() + 1 && s.subrange(
            pos + opt_error_json(e).len() - 1,
            pos + opt_error_json(e).len(),
        ) == encode_utf8("}"@),
{
    lemma_error_tag_bytes();
    lemma_quote_bytes();
    lemma_rbrace_bytes();
    match e {
        None => {},
        Some(Error::NoSuchMethodError) => {},
        Some(Error::ClientNotAvailableError) => {},
        Some(Error::SystemIOError()) => {},
        Some(Error::ArgumentsNotMatchError(d)) => {
            let la = encode_utf8("{\"ArgumentsNotMatchError\":"@);
            let js = json_string(d@);
            let rb = encode_utf8("}"@);
            let ec = esc(encode_utf8(d@));
            assert(opt_error_json(e) == (la + js) + rb);
            lemma_assoc(la, js, rb);
            lemma_sub_decompose(s, pos, la, js + rb);
            lemma_sub_decompose(s, pos + 26, js, rb);
            assert(js =~= seq![34u8] + (ec + seq![34u8]));
            lemma_sub_decompose(s, pos + 26, seq![34u8], ec + seq![34u8]);
            assert(string_form_at(s, pos + 27, encode_utf8(d@)));
            assert(s.subrange(pos + 26, pos + 27) =~= encode_utf8("\""@));
        },
        Some(Error::OtherError(d)) => {
            let la = encode_utf8("{\"OtherError\":"@);
            let js = json_string(d@);
            let rb = encode_utf8("}"@);
            let ec = esc(encode_utf8(d@));
            assert(opt_error_json(e) == (la + js) + rb);
            lemma_assoc(la, js, rb);
            lemma_sub_decompose(s, pos, la, js + rb);
            lemma_sub_decompose(s, pos + 14, js, rb);
            assert(js =~= seq![34u8] + (ec + seq![34u8]));
            lemma_sub_decompose(s, pos + 14, seq![34u8], ec + seq![34u8]);
            assert(string_form_at(s, pos + 15, encode_utf8(d@)));
            assert(s.subrange(pos + 14, pos + 15) =~= encode_utf8("\""@));
        },
    }
}

/// Only an arguments-mismatch form starts with that variant's tag
/// literal.
proof fn lemma_anm_prefix_pins(s: Seq<u8>, pos: int, e: Option<Error>)
    requires
        opt_error_form_at(s, pos, e),
        pos + 26 <= s.len(),
        s.subrange(pos, pos + 26) == encode_utf8("{\"ArgumentsNotMatchError\":"@),
    ensures
        e matches Some(Error::ArgumentsNotMatchError(_)),
{
    lemma_error_tag_bytes();
    lemma_opt_error_form_parts(s, pos, e);
    let la = encode_utf8("{\"ArgumentsNotMatchError\":"@);
    assert(s.subrange(pos, pos + 26)[0] == s[pos]);
    assert(s.subrange(pos, pos + 26)[2] == s[pos + 2]);
    assert(s[pos] == 123 && s[pos + 2] == 65);
    match e {
        None => {
            assert(s.subrange(pos, pos + 4)[0] == s[pos]);
        },
        Some(Error::NoSuchMethodError) => {
            assert(s.subrange(pos, pos + 19)[0] == s[pos]);
        },
        Some(Error::ClientNotAvailableError) => {
            assert(s.subrange(pos, pos + 25)[0] == s[pos]);
        },
        Some(Error::SystemIOError()) => {
            assert(s.subrange(pos, pos + 20)[2] == s[pos + 2]);
        },
        Some(Error::ArgumentsNotMatchError(_)) => {},
        Some(Error::OtherError(_)) => {
            assert(s.subrange(pos, pos + 14)[2] == s[pos + 2]);
        },
    }
}

/// Only an unclassified-failure form starts with that variant's tag
/// literal.
proof fn lemma_oth_prefix_pins(s: Seq<u8>, pos: int, e: Option<Error>)
    requires
        opt_error_form_at(s, pos, e),
        pos + 14 <= s.len(),
        s.subrange(pos, pos + 14) == encode_utf8("{\"OtherError\":"@),
    ensures
        e matches Some(Error::OtherError(_)),
{
    lemma_error_tag_bytes();
    lemma_opt_error_form_parts(s, pos, e);
    assert(s.subrange(pos, pos + 14)[0] == s[pos]);
    assert(s.subrange(pos, pos + 14)[2] == s[pos + 2]);
    assert(s[pos] == 123 && s[pos + 2] == 79);
    match e {
        None => {
            assert(s.subrange(pos, pos + 4)[0] == s[pos]);
        },
        Some(Error::NoSuchMethodError) => {
            assert(s.subrange(pos, pos + 19)[0] == s[pos]);
        },
        Some(Error::ClientNotAvailableError) => {
            assert(s.subrange(pos, pos + 25)[0] == s[pos]);
        },
        Some(Error::SystemIOError()) => {
            assert(s.subrange(pos, pos + 20)[2] == s[pos + 2]);
        },
        Some(Error::ArgumentsNotMatchError(_)) => {
            assert(s.subrange(pos, pos + 26)[2] == s[pos + 2]);
        },
        Some(Error::OtherError(_)) => {},
    }
}

/// Consumes a header's `error` field: `null` or one of the error kinds.
/// Sound: the consumed bytes are the exact wire form of the returned
/// value.  Complete: every error form is accepted.
#[verifier::rlimit(100)]
fn parse_opt_error(s: &Vec<u8>, pos: usize) -> (r: Option<(Option<Error>, usize)>)
    requires
        pos <= s@.len(),
    ensures
        r matches Some(pair) ==> pos <= pair.1 <= s@.len()
            && s@.subrange(pos as int, pair.1 as int) == opt_error_json(pair.0),
        forall|e: Option<Error>| #[trigger] opt_error_form_at(s@, pos as int, e) ==> r is Some,
{
    if let Some(p) = expect_lit(s, pos, "null") {
        return Some((None, p));
    }
    if let Some(p) = expect_lit(s, pos, "\"NoSuchMethodError\"") {
        return Some((Some(Error::NoSuchMethodError), p));
    }
    if let Some(p) = expect_lit(s, pos, "\"ClientNotAvailableError\"") {
        return Some((Some(Error::ClientNotAvailableError), p));
    }
    if let Some(p) = expect_lit(s, pos, "{\"SystemIOError\":[]}") {
        return Some((Some(Error::SystemIOError()), p));
    }
    if let Some(p1) = expect_lit(s, pos, "{\"ArgumentsNotMatchError\":") {
        proof {
            lemma_error_tag_bytes();
            lemma_quote_bytes();
            lemma_rbrace_bytes();
        }
        let p2 = match expect_lit(s, p1, "\"") {
            Some(p) => p,
            None => {
                proof {
                    assert forall|e: Option<Error>| opt_error_form_at(s@, pos as int, e)
                        implies false by {
                        match e {
                            Some(Error::ArgumentsNotMatchError(d)) => {
                                lemma_opt_error_form_parts(s@, pos as int, e);
                            },
                            _ => {
                                lemma_anm_prefix_pins(s@, pos as int, e);
                            },
                        }
                    }
                }
                return None;
            },
        };
        let pair = match parse_string(s, p2) {
            Some(x) => x,
            None => {
                proof {
                    assert forall|e: Option<Error>| opt_error_form_at(s@, pos as int, e)
                        implies false by {
                        match e {
                            Some(Error::ArgumentsNotMatchError(d)) => {
                                lemma_opt_error_form_parts(s@, pos as int, e);
                                assert(string_form_at(s@, p2 as int, encode_utf8(d@)));
                            },
                            _ => {
                                lemma_anm_prefix_pins(s@, pos as int, e);
                            },
                        }
                    }
                }
                return None;
            },
        };
        let (t, p3) = pair;
        let p4 = match expect_lit(s, p3, "}") {
            Some(p) => p,
            None => {
                proof {
                    assert forall|e: Option<Error>| opt_error_form_at(s@, pos as int, e)
                        implies false by {
                        match e {
                            Some(Error::ArgumentsNotMatchError(d)) => {
                                lemma_opt_error_form_parts(s@, pos as int, e);
                                lemma_string_form_align(
                                    s@,
                                    p2 as int,
                                    t@,
                                    p3 as int,
                                    encode_utf8(d@),
                                );
                                assert(s@.subrange(p3 as int, p3 + 1) == encode_utf8("}"@));
                            },
                            _ => {
                                lemma_anm_prefix_pins(s@, pos as int, e);
                            },
                        }
                    }
                }
                return None;
            },
        };
        let d = match bytes_to_string(t) {
            Some(x) => x,
            None => {
                proof {
                    assert forall|e: Option<Error>| opt_error_form_at(s@, pos as int, e)
                        implies false by {
                        match e {
                            Some(Error::ArgumentsNotMatchError(d2)) => {
                                lemma_opt_error_form_parts(s@, pos as int, e);
                                lemma_string_form_align(
                                    s@,
                                    p2 as int,
                                    t@,
                                    p3 as int,
                                    encode_utf8(d2@),
                                );
                                vstd::utf8::encode_utf8_valid_utf8(d2@);
                            },
                            _ => {
                                lemma_anm_prefix_pins(s@, pos as int, e);
                            },
                        }
                    }
                }
                return None;
            },
        };
        let e = Error::ArgumentsNotMatchError(d);
        proof {
            assert(s@.subrange(pos as int, p4 as int) =~= s@.subrange(pos as int, p1 as int)
                + s@.subrange(p1 as int, p2 as int) + s@.subrange(p2 as int, p3 as int)
                + s@.subrange(p3 as int, p4 as int));
            assert(s@.subrange(pos as int, p4 as int) =~= opt_error_json(Some(e)));
        }
        return Some((Some(e), p4));
    }
    if let Some(p1) = expect_lit(s, pos, "{\"OtherError\":") {
        proof {
            lemma_error_tag_bytes();
            lemma_quote_bytes();
            lemma_rbrace_bytes();
        }
        let p2 = match expect_lit(s, p1, "\"") {
            Some(p) => p,
            None => {
                proof {
                    assert forall|e: Option<Error>| opt_error_form_at(s@, pos as int, e)
                        implies false by {
                        match e {
                            Some(Error::OtherError(d)) => {
                                lemma_opt_error_form_parts(s@, pos as int, e);
                            },
                            _ => {
                                lemma_oth_prefix_pins(s@, pos as int, e);
                            },
                        }
                    }
                }
                return None;
            },
        };
        let pair = match parse_string(s, p2) {
            Some(x) => x,
            None => {
                proof {
                    assert forall|e: Option<Error>| opt_error_form_at(s@, pos as int, e)
                        implies false by {
                        match e {
                            Some(Error::OtherError(d)) => {
                                lemma_opt_error_form_parts(s@, pos as int, e);
                                assert(string_form_at(s@, p2 as int, encode_utf8(d@)));
                            },
                            _ => {
                                lemma_oth_prefix_pins(s@, pos as int, e);
                            },
                        }
                    }
                }
                return None;
            },
        };
        let (t, p3) = pair;
        let p4 = match expect_lit(s, p3, "}") {
            Some(p) => p,
            None => {
                proof {
                    assert forall|e: Option<Error>| opt_error_form_at(s@, pos as int, e)
                        implies false by {
                        match e {
                            Some(Error::OtherError(d)) => {
                                lemma_opt_error_form_parts(s@, pos as int, e);
                                lemma_string_form_align(
                                    s@,
                                    p2 as int,
                                    t@,
                                    p3 as int,
                                    encode_utf8(d@),
                                );
                                assert(s@.subrange(p3 as int, p3 + 1) == encode_utf8("}"@));
                            },
                            _ => {
                                lemma_oth_prefix_pins(s@, pos as int, e);
                            },
                        }
                    }
                }
                return None;
            },
        };
        let d = match bytes_to_string(t) {
            Some(x) => x,
            None => {
                proof {
                    assert forall|e: Option<Error>| opt_error_form_at(s@, pos as int, e)
                        implies false by {
                        match e {
                            Some(Error::OtherError(d2)) => {
                                lemma_opt_error_form_parts(s@, pos as int, e);
                                lemma_string_form_align(
                                    s@,
                                    p2 as int,
                                    t@,
                                    p3 as int,
                                    encode_utf8(d2@),
                                );
                                vstd::utf8::encode_utf8_valid_utf8(d2@);
                            },
                            _ => {
                                lemma_oth_prefix_pins(s@, pos as int, e);
                            },
                        }
                    }
                }
                return None;
            },
        };
        let e = Error::OtherError(d);
        proof {
            assert(s@.subrange(pos as int, p4 as int) =~= s@.subrange(pos as int, p1 as int)
                + s@.subrange(p1 as int, p2 as int) + s@.subrange(p2 as int, p3 as int)
                + s@.subrange(p3 as int, p4 as int));
            assert(s@.subrange(pos as int, p4 as int) =~= opt_error_json(Some(e)));
        }
        return Some((Some(e), p4));
    }
    proof {
        assert forall|e: Option<Error>| opt_error_form_at(s@, pos as int, e) implies false by {
            lemma_opt_error_form_parts(s@, pos as int, e);
            lemma_error_tag_bytes();
            match e {
                None => {
                    assert(pos + encode_utf8("null"@).len() <= s@.len());
                    assert(s@.subrange(pos as int, pos + encode_utf8("null"@).len())
                        == encode_utf8("null"@));
                    assert(false);
                },
                Some(Error::NoSuchMethodError) => {
                    assert(pos + encode_utf8("\"NoSuchMethodError\""@).len() <= s@.len());
                    assert(s@.subrange(pos as int, pos + encode_utf8("\"NoSuchMethodError\""@).len())
                        == encode_utf8("\"NoSuchMethodError\""@));
                    assert(false);
                },
                Some(Error::ClientNotAvailableError) => {
                    assert(pos + encode_utf8("\"ClientNotAvailableError\""@).len() <= s@.len());
                    assert(s@.subrange(pos as int, pos + encode_utf8("\"ClientNotAvailableError\""@).len())
                        == encode_utf8("\"ClientNotAvailableError\""@));
                    assert(false);
                },
                Some(Error::SystemIOError()) => {
                    assert(pos + encode_utf8("{\"SystemIOError\":[]}"@).len() <= s@.len());
                    assert(s@.subrange(pos as int, pos + encode_utf8("{\"SystemIOError\":[]}"@).len())
                        == encode_utf8("{\"SystemIOError\":[]}"@));
                    assert(false);
                },
                Some(Error::ArgumentsNotMatchError(_)) => {
                    assert(pos + encode_utf8("{\"ArgumentsNotMatchError\":"@).len() <= s@.len());
                    assert(s@.subrange(pos as int, pos + encode_utf8("{\"ArgumentsNotMatchError\":"@).len())
                        == encode_utf8("{\"ArgumentsNotMatchError\":"@));
                    assert(false);
                },
                Some(Error::OtherError(_)) => {
                    assert(pos + encode_utf8("{\"OtherError\":"@).len() <= s@.len());
                    assert(s@.subrange(pos as int, pos + encode_utf8("{\"OtherError\":"@).len())
                        == encode_utf8("{\"OtherError\":"@));
                    assert(false);
                },
            }
        }
    }
    None
}

/// The input at `pos` carries exactly the wire form of this header.
pub open spec fn header_form_at(s: Seq<u8>, pos: int, h: Header) -> bool {
    &&& 0 <= pos
    &&& pos + header_json(h).len() <= s.len()
    &&& s.subrange(pos, pos + header_json(h).len()) == header_json(h)
}

/// What a header form decomposes into: each key literal, each quoted
/// string form, the number with its boundary, the error form, and the
/// closing brace, at their positions.
#[verifier::rlimit(100)]
proof fn lemma_header_form_parts(s: Seq<u8>, pos: int, h: Header)
    requires
        header_form_at(s, pos, h),
    ensures
        ({
            let l1 = encode_utf8("{\"service\":"@);
            let l2 = encode_utf8(",\"method\":"@);
            let l3 = encode_utf8(",\"seq\":"@);
            let l4 = encode_utf8(",\"error\":"@);
            let q1 = pos + l1.len() as int;
            let a = q1 + 1;
            let b = a + esc(encode_utf8(h.service@)).len() + 1;
            let q2 = b + l2.len();
            let c = q2 + 1;
            let d2 = c + esc(encode_utf8(h.method@)).len() + 1;
            let e2 = d2 + l3.len();
            let f2 = e2 + dec_digits(h.seq as nat).len();
            let g2 = f2 + l4.len();
            let h2 = g2 + opt_error_json(h.error).len();
            &&& s.subrange(pos, q1) == l1
            &&& s.subrange(q1, a) == seq![34u8]
            &&& string_form_at(s, a, encode_utf8(h.service@))
            &&& s.subrange(b, q2) == l2
            &&& s.subrange(q2, c) == seq![34u8]
            &&& string_form_at(s, c, encode_utf8(h.method@))
            &&& s.subrange(d2, e2) == l3
            &&& number_form_at(s, e2, h.seq as nat)
            &&& s.subrange(f2, g2) == l4
            &&& opt_error_form_at(s, g2, h.error)
            &&& s.subrange(h2, h2 + 1) == encode_utf8("}"@)
            &&& h2 + 1 == pos + header_json(h).len()
        }),
{
    let l1 = encode_utf8("{\"service\":"@);
    let l2 = encode_utf8(",\"method\":"@);
    let l3 = encode_utf8(",\"seq\":"@);
    let l4 = encode_utf8(",\"error\":"@);
    let q = seq![34u8];
    let ec1 = esc(encode_utf8(h.service@));
    let ec2 = esc(encode_utf8(h.method@));
    let js1 = json_string(h.service@);
    let js2 = json_string(h.method@);
    let dq = dec_digits(h.seq as nat);
    let oe = opt_error_json(h.error);
    let rb = encode_utf8("}"@);
    lemma_rbrace_bytes();
    lemma_error_key_bytes();
    lemma_header_json_nested(h, Seq::<u8>::empty());
    assert(header_json(h) + Seq::<u8>::empty() =~= header_json(h));
    assert(rb + Seq::<u8>::empty() =~= rb);
    let x4 = oe + rb;
    let x3b = l4 + x4;
    let x3 = dq + x3b;
    let x2b = l3 + x3;
    let x2 = js2 + x2b;
    let x1b = l2 + x2;
    let x1 = js1 + x1b;
    assert(header_json(h) == l1 + x1);
    lemma_sub_decompose(s, pos, l1, x1);
    let q1 = pos + l1.len() as int;
    assert(js1 + x1b =~= q + ((ec1 + q) + x1b));
    lemma_sub_decompose(s, q1, q, (ec1 + q) + x1b);
    let a = q1 + 1;
    lemma_sub_decompose(s, a, ec1 + q, x1b);
    assert(string_form_at(s, a, encode_utf8(h.service@)));
    let b = a + ec1.len() + 1;
    lemma_sub_decompose(s, b, l2, x2);
    let q2 = b + l2.len();
    assert(js2 + x2b =~= q + ((ec2 + q) + x2b));
    lemma_sub_decompose(s, q2, q, (ec2 + q) + x2b);
    let c = q2 + 1;
    lemma_sub_decompose(s, c, ec2 + q, x2b);
    assert(string_form_at(s, c, encode_utf8(h.method@)));
    let d2 = c + ec2.len() + 1;
    lemma_sub_decompose(s, d2, l3, x3);
    let e2 = d2 + l3.len();
    lemma_sub_decompose(s, e2, dq, x3b);
    let f2 = e2 + dq.len();
    lemma_sub_decompose(s, f2, l4, x4);
    let g2 = f2 + l4.len();
    assert(s.subrange(f2, g2)[0] == s[f2]);
    assert(l4[0] == 44);
    lemma_dec_digits_are_digits(h.seq as nat);
    assert(number_form_at(s, e2, h.seq as nat));
    lemma_sub_decompose(s, g2, oe, rb);
    let h2 = g2 + oe.len();
    assert(opt_error_form_at(s, g2, h.error));
}

/// A parsed header and a header form at the same position end together.
proof fn lemma_header_form_align(s: Seq<u8>, pos: int, h1: Header, p1: int, h2: Header)
    requires
        0 <= pos <= p1 <= s.len(),
        s.subrange(pos, p1) == header_json(h1),
        header_form_at(s, pos, h2),
    ensures
        p1 == pos + header_json(h2).len(),
{
    let p2 = pos + header_json(h2).len();
    let n = s.len() as int;
    assert(s.subrange(pos, n) =~= s.subrange(pos, p1) + s.subrange(p1, n));
    assert(s.subrange(pos, n) =~= s.subrange(pos, p2) + s.subrange(p2, n));
    lemma_header_json_unique(h1, h2, s.subrange(p1, n), s.subrange(p2, n));
}

/// Stitches consumed header tokens back into one header form.
#[verifier::rlimit(100)]
proof fn lemma_header_stitch(
    s: Seq<u8>,
    pos: int,
    p1: int,
    p1b: int,
    p2: int,
    p3: int,
    p3b: int,
    p4: int,
    p5: int,
    p6: int,
    p7: int,
    p8: int,
    p9: int,
    h: Header,
)
    requires
        0 <= pos <= p1 <= p1b <= p2 <= p3 <= p3b <= p4 <= p5 <= p6 <= p7 <= p8 <= p9 <= s.len(),
        s.subrange(pos, p1) == encode_utf8("{\"service\":"@),
        s.subrange(p1, p1b) == encode_utf8("\""@),
        s.subrange(p1b, p2) == esc(encode_utf8(h.service@)) + seq![34u8],
        s.subrange(p2, p3) == encode_utf8(",\"method\":"@),
        s.subrange(p3, p3b) == encode_utf8("\""@),
        s.subrange(p3b, p4) == esc(encode_utf8(h.method@)) + seq![34u8],
        s.subrange(p4, p5) == encode_utf8(",\"seq\":"@),
        s.subrange(p5, p6) == dec_digits(h.seq as nat),
        s.subrange(p6, p7) == encode_utf8(",\"error\":"@),
        s.subrange(p7, p8) == opt_error_json(h.error),
        s.subrange(p8, p9) == encode_utf8("}"@),
    ensures
        s.subrange(pos, p9) == header_json(h),
{
    lemma_quote_bytes();
    assert(s.subrange(p1, p2) =~= s.subrange(p1, p1b) + s.subrange(p1b, p2));
    assert(s.subrange(p1, p2) =~= json_string(h.service@));
    assert(s.subrange(p3, p4) =~= s.subrange(p3, p3b) + s.subrange(p3b, p4));
    assert(s.subrange(p3, p4) =~= json_string(h.method@));
    assert(s.subrange(pos, p4) =~= s.subrange(pos, p1) + s.subrange(p1, p2) + s.subrange(p2, p3)
        + s.subrange(p3, p4));
    assert(s.subrange(pos, p9) =~= s.subrange(pos, p4) + s.subrange(p4, p5) + s.subrange(p5, p6)
        + s.subrange(p6, p7) + s.subrange(p7, p8) + s.subrange(p8, p9));
    assert(s.subrange(pos, p9) =~= header_json(h));
}

/// Consumes a header object at `pos`.  Sound: the consumed bytes are
/// exactly the wire form of the returned header.  Complete: every
/// header's wire form is accepted.
#[verifier::rlimit(100)]
fn parse_header_at(s: &Vec<u8>, pos: usize) -> (r: Option<(Header, usize)>)
    requires
        pos <= s@.len(),
    ensures
        r matches Some(pair) ==> pos <= pair.1 <= s@.len()
            && s@.subrange(pos as int, pair.1 as int) == header_json(pair.0),
        forall|h: Header| #[trigger] header_form_at(s@, pos as int, h) ==> r is Some,
{
    proof {
        lemma_quote_bytes();
        lemma_rbrace_bytes();
        lemma_error_key_bytes();
    }
    let p1 = match expect_lit(s, pos, "{\"service\":") {
        Some(p) => p,
        None => {
            proof {
                assert forall|h: Header| header_form_at(s@, pos as int, h) implies false by {
                    lemma_header_form_parts(s@, pos as int, h);
                }
            }
            return None;
        },
    };
    let p1b = match expect_lit(s, p1, "\"") {
        Some(p) => p,
        None => {
            proof {
                assert forall|h: Header| header_form_at(s@, pos as int, h) implies false by {
                    lemma_header_form_parts(s@, pos as int, h);
                }
            }
            return None;
        },
    };
    let (sv, p2) = match parse_string(s, p1b) {
        Some(x) => x,
        None => {
            proof {
                assert forall|h: Header| header_form_at(s@, pos as int, h) implies false by {
                    lemma_header_form_parts(s@, pos as int, h);
                }
            }
            return None;
        },
    };
    let p3 = match expect_lit(s, p2, ",\"method\":") {
        Some(p) => p,
        None => {
            proof {
                assert forall|h: Header| header_form_at(s@, pos as int, h) implies false by {
                    lemma_header_form_parts(s@, pos as int, h);
                    lemma_string_form_align(
                        s@,
                        p1b as int,
                        sv@,
                        p2 as int,
                        encode_utf8(h.service@),
                    );
                }
            }
            return None;
        },
    };
    let p3b = match expect_lit(s, p3, "\"") {
        Some(p) => p,
        None => {
            proof {
                assert forall|h: Header| header_form_at(s@, pos as int, h) implies false by {
                    lemma_header_form_parts(s@, pos as int, h);
                    lemma_string_form_align(
                        s@,
                        p1b as int,
                        sv@,
                        p2 as int,
                        encode_utf8(h.service@),
                    );
                }
            }
            return None;
        },
    };
    let (mv, p4) = match parse_string(s, p3b) {
        Some(x) => x,
        None => {
            proof {
                assert forall|h: Header| header_form_at(s@, pos as int, h) implies false by {
                    lemma_header_form_parts(s@, pos as int, h);
                    lemma_string_form_align(
                        s@,
                        p1b as int,
                        sv@,
                        p2 as int,
                        encode_utf8(h.service@),
                    );
                }
            }
            return None;
        },
    };
    let p5 = match expect_lit(s, p4, ",\"seq\":") {
        Some(p) => p,
        None => {
            proof {
                assert forall|h: Header| header_form_at(s@, pos as int, h) implies false by {
                    lemma_header_form_parts(s@, pos as int, h);
                    lemma_string_form_align(
                        s@,
                        p1b as int,
                        sv@,
                        p2 as int,
                        encode_utf8(h.service@),
                    );
                    lemma_string_form_align(
                        s@,
                        p3b as int,
                        mv@,
                        p4 as int,
                        encode_utf8(h.method@),
                    );
                }
            }
            return None;
        },
    };
    let (seqv, p6) = match parse_usize(s, p5) {
        Some(x) => x,
        None => {
            proof {
                assert forall|h: Header| header_form_at(s@, pos as int, h) implies false by {
                    lemma_header_form_parts(s@, pos as int, h);
                    lemma_string_form_align(
                        s@,
                        p1b as int,
                        sv@,
                        p2 as int,
                        encode_utf8(h.service@),
                    );
                    lemma_string_form_align(
                        s@,
                        p3b as int,
                        mv@,
                        p4 as int,
                        encode_utf8(h.method@),
                    );
                    assert(number_form_at(s@, p5 as int, h.seq as nat));
                }
            }
            return None;
        },
    };
    let p7 = match expect_lit(s, p6, ",\"error\":") {
        Some(p) => p,
        None => {
            proof {
                assert forall|h: Header| header_form_at(s@, pos as int, h) implies false by {
                    lemma_header_form_parts(s@, pos as int, h);
                    lemma_string_form_align(
                        s@,
                        p1b as int,
                        sv@,
                        p2 as int,
                        encode_utf8(h.service@),
                    );
                    lemma_string_form_align(
                        s@,
                        p3b as int,
                        mv@,
                        p4 as int,
                        encode_utf8(h.method@),
                    );
                    lemma_number_form_align(s@, p5 as int, seqv as nat, p6 as int, h.seq as nat);
                }
            }
            return None;
        },
    };
    let (errv, p8) = match parse_opt_error(s, p7) {
        Some(x) => x,
        None => {
            proof {
                assert forall|h: Header| header_form_at(s@, pos as int, h) implies false by {
                    lemma_header_form_parts(s@, pos as int, h);
                    lemma_string_form_align(
                        s@,
                        p1b as int,
                        sv@,
                        p2 as int,
                        encode_utf8(h.service@),
                    );
                    lemma_string_form_align(
                        s@,
                        p3b as int,
                        mv@,
                        p4 as int,
                        encode_utf8(h.method@),
                    );
                    lemma_number_form_align(s@, p5 as int, seqv as nat, p6 as int, h.seq as nat);
                    assert(opt_error_form_at(s@, p7 as int, h.error));
                }
            }
            return None;
        },
    };
    let p9 = match expect_lit(s, p8, "}") {
        Some(p) => p,
        None => {
            proof {
                assert forall|h: Header| header_form_at(s@, pos as int, h) implies false by {
                    lemma_header_form_parts(s@, pos as int, h);
                    lemma_string_form_align(
                        s@,
                        p1b as int,
                        sv@,
                        p2 as int,
                        encode_utf8(h.service@),
                    );
                    lemma_string_form_align(
                        s@,
                        p3b as int,
                        mv@,
                        p4 as int,
                        encode_utf8(h.method@),
                    );
                    lemma_number_form_align(s@, p5 as int, seqv as nat, p6 as int, h.seq as nat);
                    lemma_opt_error_align(s@, p7 as int, errv, p8 as int, h.error);
                }
            }
            return None;
        },
    };
    let service = match bytes_to_string(sv) {
        Some(x) => x,
        None => {
            proof {
                assert forall|h: Header| header_form_at(s@, pos as int, h) implies false by {
                    lemma_header_form_parts(s@, pos as int, h);
                    lemma_string_form_align(
                        s@,
                        p1b as int,
                        sv@,
                        p2 as int,
                        encode_utf8(h.service@),
                    );
                    vstd::utf8::encode_utf8_valid_utf8(h.service@);
                }
            }
            return None;
        },
    };
    let method = match bytes_to_string(mv) {
        Some(x) => x,
        None => {
            proof {
                assert forall|h: Header| header_form_at(s@, pos as int, h) implies false by {
                    lemma_header_form_parts(s@, pos as int, h);
                    lemma_string_form_align(
                        s@,
                        p1b as int,
                        sv@,
                        p2 as int,
                        encode_utf8(h.service@),
                    );
                    lemma_string_form_align(
                        s@,
                        p3b as int,
                        mv@,
                        p4 as int,
                        encode_utf8(h.method@),
                    );
                    vstd::utf8::encode_utf8_valid_utf8(h.method@);
                }
            }
            return None;
        },
    };
    let h = Header::new(service, method, seqv, errv);
    proof {
        lemma_header_stitch(
            s@,
            pos as int,
            p1 as int,
            p1b as int,
            p2 as int,
            p3 as int,
            p3b as int,
            p4 as int,
            p5 as int,
            p6 as int,
            p7 as int,
            p8 as int,
            p9 as int,
            h,
        );
    }
    Some((h, p9))
}

/// The byte sequences of the frame's bracket literals.
proof fn lemma_bracket_bytes()
    ensures
        encode_utf8("["@) == seq![91u8],
        encode_utf8("}]"@) == seq![125u8, 93u8],
{
    reveal_strlit("[");
    reveal_strlit("}]");
    let a = "["@;
    assert(is_ascii_chars(a));
    is_ascii_chars_encode_utf8(a);
    assert(encode_utf8(a) =~= seq![91u8]);
    let b = "}]"@;
    assert(is_ascii_chars(b));
    is_ascii_chars_encode_utf8(b);
    assert(encode_utf8(b) =~= seq![125u8, 93u8]);
}

/// What a call frame's payload decomposes into: the opening bracket, the
/// header form, the contents key, the contents bytes, and the closing
/// bytes.
proof fn lemma_pair_form_parts(s: Seq<u8>, h: Header, b: Body)
    requires
        s == pair_json(h, b),
    ensures
        ({
            let lo = encode_utf8("["@);
            let lc = encode_utf8(",{\"contents\":"@);
            let cb = encode_utf8(b.contents@);
            let le = encode_utf8("}]"@);
            let m = lo.len() + header_json(h).len() as int;
            &&& s.len() == lo.len() + header_json(h).len() + lc.len() + cb.len() + 2
            &&& le.len() == 2
            &&& s.subrange(0, lo.len() as int) == lo
            &&& header_form_at(s, lo.len() as int, h)
            &&& s.subrange(m, m + lc.len() as int) == lc
            &&& s.subrange(m + lc.len() as int, m + lc.len() + cb.len() as int) == cb
            &&& s.subrange(s.len() - 2, s.len() as int) == le
        }),
{
    let lo = encode_utf8("["@);
    let lc = encode_utf8(",{\"contents\":"@);
    let cb = encode_utf8(b.contents@);
    let le = encode_utf8("}]"@);
    let hj = header_json(h);
    lemma_bracket_bytes();
    assert(s == ((lo + hj) + lc + cb) + le);
    lemma_assoc((lo + hj) + lc, cb, le);
    lemma_assoc(lo + hj, lc, cb + le);
    lemma_assoc(lo, hj, lc + (cb + le));
    assert(s.subrange(0, s.len() as int) =~= s);
    lemma_sub_decompose(s, 0, lo, hj + (lc + (cb + le)));
    lemma_sub_decompose(s, lo.len() as int, hj, lc + (cb + le));
    assert(header_form_at(s, lo.len() as int, h));
    let m = lo.len() + hj.len() as int;
    lemma_sub_decompose(s, m, lc, cb + le);
    lemma_sub_decompose(s, m + lc.len() as int, cb, le);
}

/// Deserialises the payload of a call frame.  Sound: on success the
/// payload is, byte for byte, the wire form of the returned header and
/// body.  Complete: the wire form of every header and body is accepted,
/// so decoding an encoded frame always succeeds and, by the wire form's
/// injectivity, yields exactly the encoded frame.
#[verifier::rlimit(100)]
pub fn decode_header_body(payload: &Vec<u8>) -> (r: Option<(Header, Body)>)
    ensures
        r matches Some(pair) ==> payload@ == pair_json(pair.0, pair.1),
        forall|h: Header, b: Body| payload@ == #[trigger] pair_json(h, b) ==> r is Some,
{
    let n = payload.len();
    let p0 = match expect_lit(payload, 0, "[") {
        Some(p) => p,
        None => {
            proof {
                assert forall|h: Header, b: Body| payload@ == pair_json(h, b) implies false by {
                    lemma_pair_form_parts(payload@, h, b);
                }
            }
            return None;
        },
    };
    let (h, p1) = match parse_header_at(payload, p0) {
        Some(x) => x,
        None => {
            proof {
                assert forall|h: Header, b: Body| payload@ == pair_json(h, b) implies false by {
                    lemma_pair_form_parts(payload@, h, b);
                }
            }
            return None;
        },
    };
    let p2 = match expect_lit(payload, p1, ",{\"contents\":") {
        Some(p) => p,
        None => {
            proof {
                assert forall|h2: Header, b2: Body| payload@ == pair_json(h2, b2)
                    implies false by {
                    lemma_pair_form_parts(payload@, h2, b2);
                    lemma_header_form_align(payload@, p0 as int, h, p1 as int, h2);
                }
            }
            return None;
        },
    };
    if n < 2 || p2 > n - 2 {
        proof {
            assert forall|h2: Header, b2: Body| payload@ == pair_json(h2, b2) implies false by {
                lemma_pair_form_parts(payload@, h2, b2);
                lemma_header_form_align(payload@, p0 as int, h, p1 as int, h2);
            }
        }
        return None;
    }
    let p3 = match expect_lit(payload, n - 2, "}]") {
        Some(p) => p,
        None => {
            proof {
                assert forall|h2: Header, b2: Body| payload@ == pair_json(h2, b2)
                    implies false by {
                    lemma_pair_form_parts(payload@, h2, b2);
                }
            }
            return None;
        },
    };
    if p3 != n {
        proof {
            assert forall|h2: Header, b2: Body| payload@ == pair_json(h2, b2) implies false by {
                lemma_pair_form_parts(payload@, h2, b2);
            }
        }
        return None;
    }
    let cb = vstd::slice::slice_to_vec(
        vstd::slice::slice_subrange(payload.as_slice(), p2, n - 2),
    );
    let contents = match bytes_to_string(cb) {
        Some(x) => x,
        None => {
            proof {
                assert forall|h2: Header, b2: Body| payload@ == pair_json(h2, b2)
                    implies false by {
                    lemma_pair_form_parts(payload@, h2, b2);
                    lemma_header_form_align(payload@, p0 as int, h, p1 as int, h2);
                    vstd::utf8::encode_utf8_valid_utf8(b2.contents@);
                }
            }
            return None;
        },
    };
    let b = Body::new(contents);
    proof {
        assert(payload@ =~= payload@.subrange(0, p0 as int) + payload@.subrange(
            p0 as int,
            p1 as int,
        ) + payload@.subrange(p1 as int, p2 as int) + payload@.subrange(p2 as int, n - 2)
            + payload@.subrange(n - 2, n as int));
        assert(payload@ =~= pair_json(h, b));
    }
    Some((h, b))
}

/// What the wire form of a handshake message decomposes into: the key
/// literal, the signed number with its token boundary, and the brace.
proof fn lemma_message_form_parts(s: Seq<u8>, m: Message)
    requires
        s == message_json(m),
    ensures
        ({
            let l1 = encode_utf8("{\"magic_number\":"@);
            let mag = m.magic_number as int;
            &&& l1.len() + int_json(mag).len() + 1 == s.len()
            &&& s.subrange(0, l1.len() as int) == l1
            &&& s.subrange(s.len() - 1, s.len() as int) == encode_utf8("}"@)
            &&& s[s.len() - 1] == 125
            &&& (mag >= 0 ==> number_form_at(s, l1.len() as int, mag as nat) && l1.len()
                + dec_digits(mag as nat).len() + 1 == s.len())
            &&& (mag < 0 ==> s.subrange(l1.len() as int, l1.len() as int + 1) == encode_utf8("-"@)
                && number_form_at(s, l1.len() as int + 1, (-mag) as nat) && l1.len() + 1
                + dec_digits(
                (-mag) as nat,
            ).len() + 1 == s.len())
        }),
{
    let l1 = encode_utf8("{\"magic_number\":"@);
    let rb = encode_utf8("}"@);
    let mag = m.magic_number as int;
    let ij = int_json(mag);
    lemma_rbrace_bytes();
    lemma_dash_bytes();
    assert(s == (l1 + ij) + rb);
    lemma_assoc(l1, ij, rb);
    assert(s.subrange(0, s.len() as int) =~= s);
    lemma_sub_decompose(s, 0, l1, ij + rb);
    lemma_sub_decompose(s, l1.len() as int, ij, rb);
    if mag >= 0 {
        assert(ij == dec_digits(mag as nat));
        lemma_dec_digits_are_digits(mag as nat);
        assert(s[l1.len() + ij.len() as int] == 125);
        assert(number_form_at(s, l1.len() as int, mag as nat));
    } else {
        let d = dec_digits((-mag) as nat);
        assert(ij == encode_utf8("-"@) + d);
        lemma_assoc(encode_utf8("-"@), d, rb);
        assert(ij + rb =~= encode_utf8("-"@) + (d + rb));
        lemma_sub_decompose(s, l1.len() as int, encode_utf8("-"@), d + rb);
        lemma_sub_decompose(s, l1.len() as int + 1, d, rb);
        lemma_dec_digits_are_digits((-mag) as nat);
        assert(s[l1.len() + 1 + d.len() as int] == 125);
        assert(number_form_at(s, l1.len() as int + 1, (-mag) as nat));
    }
    assert(s.subrange(s.len() - 1, s.len() as int) =~= rb);
}

/// Deserialises the payload of a handshake frame.  Sound: on success the
/// payload is, byte for byte, the wire form of the returned message.
/// Complete: the wire form of every message is accepted.
#[verifier::rlimit(100)]
pub fn decode_message(payload: &Vec<u8>) -> (r: Option<Message>)
    ensures
        r matches Some(m) ==> payload@ == message_json(m),
        forall|m: Message| payload@ == #[trigger] message_json(m) ==> r is Some,
{
    let n = payload.len();
    let p1 = match expect_lit(payload, 0, "{\"magic_number\":") {
        Some(p) => p,
        None => {
            proof {
                assert forall|m: Message| payload@ == message_json(m) implies false by {
                    lemma_message_form_parts(payload@, m);
                }
            }
            return None;
        },
    };
    if let Some(pm) = expect_lit(payload, p1, "-") {
        let (v, p2) = match parse_usize(payload, pm) {
            Some(x) => x,
            None => {
                proof {
                    assert forall|m: Message| payload@ == message_json(m) implies false by {
                        lemma_message_form_parts(payload@, m);
                        lemma_dash_bytes();
                        if m.magic_number >= 0 {
                            lemma_number_head_digit(payload@, p1 as int, m.magic_number as nat);
                            assert(payload@.subrange(p1 as int, pm as int)[0] == payload@[
                                p1 as int
                            ]);
                        }
                    }
                }
                return None;
            },
        };
        if v == 0 || v > 2147483648 {
            proof {
                assert forall|m: Message| payload@ == message_json(m) implies false by {
                    lemma_message_form_parts(payload@, m);
                    lemma_dash_bytes();
                    if m.magic_number >= 0 {
                        lemma_number_head_digit(payload@, p1 as int, m.magic_number as nat);
                        assert(payload@.subrange(p1 as int, pm as int)[0] == payload@[p1 as int]);
                    } else {
                        lemma_number_form_align(
                            payload@,
                            pm as int,
                            v as nat,
                            p2 as int,
                            (-(m.magic_number as int)) as nat,
                        );
                    }
                }
            }
            return None;
        }
        let p3 = match expect_lit(payload, p2, "}") {
            Some(p) => p,
            None => {
                proof {
                    assert forall|m: Message| payload@ == message_json(m) implies false by {
                        lemma_message_form_parts(payload@, m);
                        lemma_dash_bytes();
                        lemma_rbrace_bytes();
                        if m.magic_number >= 0 {
                            lemma_number_head_digit(payload@, p1 as int, m.magic_number as nat);
                            assert(payload@.subrange(p1 as int, pm as int)[0] == payload@[
                                p1 as int
                            ]);
                        } else {
                            lemma_number_form_align(
                                payload@,
                                pm as int,
                                v as nat,
                                p2 as int,
                                (-(m.magic_number as int)) as nat,
                            );
                            assert(payload@.subrange(p2 as int, p2 + 1) =~= seq![
                                payload@[p2 as int],
                            ]);
                            assert(payload@.subrange(p2 as int, p2 + 1) == encode_utf8("}"@));
                        }
                    }
                }
                return None;
            },
        };
        if p3 != n {
            proof {
                assert forall|m: Message| payload@ == message_json(m) implies false by {
                    lemma_message_form_parts(payload@, m);
                    lemma_dash_bytes();
                    lemma_rbrace_bytes();
                    if m.magic_number >= 0 {
                        lemma_dec_digits_are_digits(m.magic_number as nat);
                    } else {
                        lemma_number_form_align(
                            payload@,
                            pm as int,
                            v as nat,
                            p2 as int,
                            (-(m.magic_number as int)) as nat,
                        );
                    }
                }
            }
            return None;
        }
        let mag: i64 = -(v as i64);
        let m = Message::new(mag as i32);
        proof {
            assert(payload@ =~= payload@.subrange(0, p1 as int) + payload@.subrange(
                p1 as int,
                pm as int,
            ) + payload@.subrange(pm as int, p2 as int) + payload@.subrange(p2 as int, p3 as int));
            assert(payload@ =~= message_json(m));
        }
        return Some(m);
    }
    let (v, p2) = match parse_usize(payload, p1) {
        Some(x) => x,
        None => {
            proof {
                assert forall|m: Message| payload@ == message_json(m) implies false by {
                    lemma_message_form_parts(payload@, m);
                    lemma_dash_bytes();
                }
            }
            return None;
        },
    };
    if v > 2147483647 {
        proof {
            assert forall|m: Message| payload@ == message_json(m) implies false by {
                lemma_message_form_parts(payload@, m);
                lemma_dash_bytes();
                if m.magic_number >= 0 {
                    lemma_number_form_align(
                        payload@,
                        p1 as int,
                        v as nat,
                        p2 as int,
                        (m.magic_number as int) as nat,
                    );
                }
            }
        }
        return None;
    }
    let p3 = match expect_lit(payload, p2, "}") {
        Some(p) => p,
        None => {
            proof {
                assert forall|m: Message| payload@ == message_json(m) implies false by {
                    lemma_message_form_parts(payload@, m);
                    lemma_dash_bytes();
                    lemma_rbrace_bytes();
                    if m.magic_number >= 0 {
                        lemma_number_form_align(
                            payload@,
                            p1 as int,
                            v as nat,
                            p2 as int,
                            (m.magic_number as int) as nat,
                        );
                        assert(payload@.subrange(p2 as int, p2 + 1) =~= seq![
                            payload@[p2 as int],
                        ]);
                        assert(payload@.subrange(p2 as int, p2 + 1) == encode_utf8("}"@));
                    }
                }
            }
            return None;
        },
    };
    if p3 != n {
        proof {
            assert forall|m: Message| payload@ == message_json(m) implies false by {
                lemma_message_form_parts(payload@, m);
                lemma_dash_bytes();
                lemma_rbrace_bytes();
                if m.magic_number >= 0 {
                    lemma_number_form_align(
                        payload@,
                        p1 as int,
                        v as nat,
                        p2 as int,
                        (m.magic_number as int) as nat,
                    );
                }
            }
        }
        return None;
    }
    let m = Message::new(v as i32);
    proof {
        assert(payload@ =~= payload@.subrange(0, p1 as int) + payload@.subrange(
            p1 as int,
            p2 as int,
        ) + payload@.subrange(p2 as int, p3 as int));
        assert(payload@ =~= message_json(m));
    }
    Some(m)
}

/// Serialises a handshake message into the payload of one frame.
pub fn encode_message(m: &Message) -> (r: Vec<u8>)
    ensures
        r@ == message_json(*m),
{
    let mut out: Vec<u8> = Vec::new();
    push_lit(&mut out, "{\"magic_number\":");
    push_int(&mut out, m.magic_number);
    push_lit(&mut out, "}");
    proof {
        assert(out@ =~= message_json(*m));
    }
    out
}

} // verus!

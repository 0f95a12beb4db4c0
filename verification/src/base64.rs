//! Standard base64 (RFC 4648 alphabet, `=` padding) as used for key blobs
//! in `known_hosts` files.

use vstd::prelude::*;
use crate::text::{chars_of, string_from_chars};

verus! {

// ---------------------------------------------------------------- alphabet

/// The character of the base64 alphabet that stands for the 6-bit value `v`.
pub open spec fn b64_char(v: u8) -> char
    recommends
        v < 64,
{
    if v < 26 {
        (65 + v) as char
    } else if v < 52 {
        (97 + (v - 26)) as char
    } else if v < 62 {
        (48 + (v - 52)) as char
    } else if v == 62 {
        '+'
    } else {
        '/'
    }
}

/// The 6-bit value of a base64 alphabet character, `None` for any other character.
pub open spec fn b64_value(c: char) -> Option<u8> {
    if 'A' <= c && c <= 'Z' {
        Some((c as u32 - 65) as u8)
    } else if 'a' <= c && c <= 'z' {
        Some((c as u32 - 97 + 26) as u8)
    } else if '0' <= c && c <= '9' {
        Some((c as u32 - 48 + 52) as u8)
    } else if c == '+' {
        Some(62u8)
    } else if c == '/' {
        Some(63u8)
    } else {
        None
    }
}

/// The standard base64 alphabet (RFC 4648, table 1), in value order.
pub open spec fn standard_alphabet() -> Seq<char> {
    "ABCDEFGHIJKLMNOPQRSTUVWXYZabcdefghijklmnopqrstuvwxyz0123456789+/"@
}

/// The encoder writes the value `v` as the `v`-th character of the standard
/// alphabet, and the decoder reads that character back as `v`; every other
/// character is not part of the alphabet.
pub proof fn lemma_standard_alphabet()
    ensures
        standard_alphabet().len() == 64,
        forall|v: u8| v < 64 ==> #[trigger] b64_char(v) == standard_alphabet()[v as int],
        forall|v: u8| v < 64 ==> b64_value(#[trigger] standard_alphabet()[v as int]) == Some(v),
        forall|c: char| !standard_alphabet().contains(c) ==> #[trigger] b64_value(c) is None,
{
    reveal_strlit("ABCDEFGHIJKLMNOPQRSTUVWXYZabcdefghijklmnopqrstuvwxyz0123456789+/");
    let a = standard_alphabet();
    assert forall|v: u8| v < 64 implies #[trigger] b64_char(v) == a[v as int] && b64_value(a[v as int])
        == Some(v) by {
        if v < 26 {
        } else if v < 52 {
        } else if v < 62 {
        } else {
        }
    }
    assert forall|c: char| !a.contains(c) implies #[trigger] b64_value(c) is None by {
        if b64_value(c) is Some {
            let v = b64_value(c).unwrap();
            assert(v < 64);
            assert(b64_char(v) == c);
            assert(a[v as int] == c);
        }
    }
}

fn char_of_value(v: u8) -> (c: char)
    requires
        v < 64,
    ensures
        c == b64_char(v),
        b64_value(c) == Some(v),
{
    if v < 26 {
        (65u8 + v) as char
    } else if v < 52 {
        (97u8 + (v - 26)) as char
    } else if v < 62 {
        (48u8 + (v - 52)) as char
    } else if v == 62 {
        '+'
    } else {
        '/'
    }
}

fn value_of_char(c: char) -> (r: Option<u8>)
    ensures
        r == b64_value(c),
        r matches Some(v) ==> v < 64,
{
    if 'A' <= c && c <= 'Z' {
        Some((c as u32 - 65) as u8)
    } else if 'a' <= c && c <= 'z' {
        Some((c as u32 - 97 + 26) as u8)
    } else if '0' <= c && c <= '9' {
        Some((c as u32 - 48 + 52) as u8)
    } else if c == '+' {
        Some(62u8)
    } else if c == '/' {
        Some(63u8)
    } else {
        None
    }
}

// ---------------------------------------------------------------- encoding

/// First 6-bit value of a 3-byte group.
pub open spec fn enc0(b0: u8) -> u8 {
    b0 >> 2
}

/// Second 6-bit value of a 3-byte group.
pub open spec fn enc1(b0: u8, b1: u8) -> u8 {
    ((b0 & 3) << 4) | (b1 >> 4)
}

/// Third 6-bit value of a 3-byte group.
pub open spec fn enc2(b1: u8, b2: u8) -> u8 {
    ((b1 & 15) << 2) | (b2 >> 6)
}

/// Fourth 6-bit value of a 3-byte group.
pub open spec fn enc3(b2: u8) -> u8 {
    b2 & 63
}

/// Standard padded base64 of `bytes`: each group of three bytes gives four
/// characters; a final group of one or two bytes is padded with `=` to four.
pub open spec fn encode_spec(bytes: Seq<u8>) -> Seq<char>
    decreases bytes.len(),
{
    if bytes.len() == 0 {
        seq![]
    } else if bytes.len() == 1 {
        seq![b64_char(enc0(bytes[0])), b64_char(enc1(bytes[0], 0)), '=', '=']
    } else if bytes.len() == 2 {
        seq![
            b64_char(enc0(bytes[0])),
            b64_char(enc1(bytes[0], bytes[1])),
            b64_char(enc2(bytes[1], 0)),
            '=',
        ]
    } else {
        seq![
            b64_char(enc0(bytes[0])),
            b64_char(enc1(bytes[0], bytes[1])),
            b64_char(enc2(bytes[1], bytes[2])),
            b64_char(enc3(bytes[2])),
        ] + encode_spec(bytes.skip(3))
    }
}

proof fn lemma_enc_ranges(b0: u8, b1: u8, b2: u8)
    ensures
        enc0(b0) < 64,
        enc1(b0, b1) < 64,
        enc2(b1, b2) < 64,
        enc3(b2) < 64,
{
    assert(b0 >> 2 < 64u8) by (bit_vector);
    assert(((b0 & 3) << 4) | (b1 >> 4) < 64u8) by (bit_vector);
    assert(((b1 & 15) << 2) | (b2 >> 6) < 64u8) by (bit_vector);
    assert(b2 & 63 < 64u8) by (bit_vector);
}

proof fn lemma_encode_skip(bytes: Seq<u8>, i: int)
    requires
        0 <= i,
        i + 3 <= bytes.len(),
    ensures
        encode_spec(bytes.skip(i)) == seq![
            b64_char(enc0(bytes[i])),
            b64_char(enc1(bytes[i], bytes[i + 1])),
            b64_char(enc2(bytes[i + 1], bytes[i + 2])),
            b64_char(enc3(bytes[i + 2])),
        ] + encode_spec(bytes.skip(i + 3)),
{
    assert(bytes.skip(i).skip(3) =~= bytes.skip(i + 3));
}

/// Encodes `input` as standard base64 with `=` padding.
pub fn base64_encode(input: &[u8]) -> (out: String)
    ensures
        out@ == encode_spec(input@),
{
    let n = input.len();
    let mut out: Vec<char> = Vec::new();
    let mut i: usize = 0;
    assert(input@.skip(0) =~= input@);
    while n - i >= 3
        invariant
            n == input@.len(),
            i <= n,
            out@ + encode_spec(input@.skip(i as int)) == encode_spec(input@),
        decreases n - i,
    {
        let b0 = input[i];
        let b1 = input[i + 1];
        let b2 = input[i + 2];
        proof {
            lemma_enc_ranges(b0, b1, b2);
            lemma_encode_skip(input@, i as int);
        }
        let ghost before = out@;
        out.push(char_of_value(b0 >> 2));
        out.push(char_of_value(((b0 & 3) << 4) | (b1 >> 4)));
        out.push(char_of_value(((b1 & 15) << 2) | (b2 >> 6)));
        out.push(char_of_value(b2 & 63));
        assert(out@ =~= before + seq![
            b64_char(enc0(b0)),
            b64_char(enc1(b0, b1)),
            b64_char(enc2(b1, b2)),
            b64_char(enc3(b2)),
        ]);
        i = i + 3;
    }
    let ghost before = out@;
    let ghost rest = input@.skip(i as int);
    if n - i == 1 {
        let b0 = input[i];
        proof {
            lemma_enc_ranges(b0, 0, 0);
        }
        assert(((b0 & 3) << 4) == (((b0 & 3) << 4) | (0u8 >> 4))) by (bit_vector);
        out.push(char_of_value(b0 >> 2));
        out.push(char_of_value((b0 & 3) << 4));
        out.push('=');
        out.push('=');
        assert(rest.len() == 1 && rest[0] == b0);
        assert(out@ =~= before + encode_spec(rest));
    } else if n - i == 2 {
        let b0 = input[i];
        let b1 = input[i + 1];
        proof {
            lemma_enc_ranges(b0, b1, 0);
        }
        assert(((b1 & 15) << 2) == (((b1 & 15) << 2) | (0u8 >> 6))) by (bit_vector);
        out.push(char_of_value(b0 >> 2));
        out.push(char_of_value(((b0 & 3) << 4) | (b1 >> 4)));
        out.push(char_of_value((b1 & 15) << 2));
        out.push('=');
        assert(rest.len() == 2 && rest[0] == b0 && rest[1] == b1);
        assert(out@ =~= before + encode_spec(rest));
    } else {
        assert(rest.len() == 0);
        assert(out@ =~= before + encode_spec(rest));
    }
    string_from_chars(out.as_slice())
}

// ---------------------------------------------------------------- decoding

/// `s` without its trailing `=` characters.
pub open spec fn strip_padding(s: Seq<char>) -> Seq<char>
    decreases s.len(),
{
    if s.len() > 0 && s.last() == '=' {
        strip_padding(s.drop_last())
    } else {
        s
    }
}

/// The first character of `s` outside the base64 alphabet, if any.
pub open spec fn first_invalid(s: Seq<char>) -> Option<char>
    decreases s.len(),
{
    if s.len() == 0 {
        None
    } else if b64_value(s[0]) is None {
        Some(s[0])
    } else {
        first_invalid(s.drop_first())
    }
}

/// The 6-bit values of a sequence of alphabet characters.
pub open spec fn values_of(s: Seq<char>) -> Seq<u8> {
    s.map_values(|c: char| b64_value(c).unwrap())
}

/// First byte of a 4-value group.
pub open spec fn dec0(v0: u8, v1: u8) -> u8 {
    (v0 << 2) | (v1 >> 4)
}

/// Second byte of a 4-value group.
pub open spec fn dec1(v1: u8, v2: u8) -> u8 {
    ((v1 & 15) << 4) | (v2 >> 2)
}

/// Third byte of a 4-value group.
pub open spec fn dec2(v2: u8, v3: u8) -> u8 {
    ((v2 & 3) << 6) | v3
}

/// The bytes spelled by a sequence of 6-bit values, read as one bit string
/// whose incomplete final byte is dropped: four values give three bytes,
/// a final one, two or three values give zero, one or two bytes.
pub open spec fn decode_values(v: Seq<u8>) -> Seq<u8>
    decreases v.len(),
{
    if v.len() < 2 {
        seq![]
    } else if v.len() == 2 {
        seq![dec0(v[0], v[1])]
    } else if v.len() == 3 {
        seq![dec0(v[0], v[1]), dec1(v[1], v[2])]
    } else {
        seq![dec0(v[0], v[1]), dec1(v[1], v[2]), dec2(v[2], v[3])] + decode_values(v.skip(4))
    }
}

/// First byte of the UTF-8 encoding of `c`.
pub open spec fn utf8_first_byte(c: char) -> u8 {
    let n = c as u32;
    if n < 0x80 {
        n as u8
    } else if n < 0x800 {
        (0xC0 | (n >> 6)) as u8
    } else if n < 0x10000 {
        (0xE0 | (n >> 12)) as u8
    } else {
        (0xF0 | (n >> 18)) as u8
    }
}

/// The error text for a character outside the alphabet: the decoder reads
/// bytes, so it names the first byte of the character's UTF-8 encoding,
/// shown as the character with that code.
pub open spec fn invalid_char_message(c: char) -> Seq<char> {
    "Invalid base64 char: "@ + seq![(utf8_first_byte(c) as u32) as char]
}

/// What decoding `input` gives: trailing `=` are dropped, the first character
/// outside the alphabet is an error, anything else decodes as a bit string.
pub open spec fn decode_spec(input: Seq<char>) -> Result<Seq<u8>, Seq<char>> {
    let t = strip_padding(input);
    match first_invalid(t) {
        Some(c) => Err(invalid_char_message(c)),
        None => Ok(decode_values(values_of(t))),
    }
}

proof fn lemma_strip_padding_take(s: Seq<char>, end: int)
    requires
        0 < end <= s.len(),
        s[end - 1] == '=',
    ensures
        strip_padding(s.take(end)) == strip_padding(s.take(end - 1)),
{
    assert(s.take(end).drop_last() =~= s.take(end - 1));
}

proof fn lemma_first_invalid_at(s: Seq<char>, i: int)
    requires
        0 <= i < s.len(),
        forall|j: int| 0 <= j < i ==> b64_value(#[trigger] s[j]) is Some,
        b64_value(s[i]) is None,
    ensures
        first_invalid(s) == Some(s[i]),
    decreases i,
{
    if i > 0 {
        assert(b64_value(s[0]) is Some);
        let t = s.drop_first();
        assert forall|j: int| 0 <= j < i - 1 implies b64_value(#[trigger] t[j]) is Some by {
            assert(t[j] == s[j + 1]);
        }
        lemma_first_invalid_at(t, i - 1);
    }
}

proof fn lemma_first_invalid_none(s: Seq<char>)
    requires
        forall|j: int| 0 <= j < s.len() ==> b64_value(#[trigger] s[j]) is Some,
    ensures
        first_invalid(s) is None,
    decreases s.len(),
{
    if s.len() > 0 {
        assert(b64_value(s[0]) is Some);
        let t = s.drop_first();
        assert forall|j: int| 0 <= j < t.len() implies b64_value(#[trigger] t[j]) is Some by {
            assert(t[j] == s[j + 1]);
        }
        lemma_first_invalid_none(t);
    }
}

fn utf8_first_byte_of(c: char) -> (b: u8)
    ensures
        b == utf8_first_byte(c),
{
    let n = c as u32;
    if n < 0x80 {
        n as u8
    } else if n < 0x800 {
        assert((0xC0 | (n >> 6)) < 256u32) by (bit_vector)
            requires
                n < 0x800u32,
        ;
        (0xC0 | (n >> 6)) as u8
    } else if n < 0x10000 {
        assert((0xE0 | (n >> 12)) < 256u32) by (bit_vector)
            requires
                n < 0x10000u32,
        ;
        (0xE0 | (n >> 12)) as u8
    } else {
        assert((0xF0 | (n >> 18)) < 256u32) by (bit_vector)
            requires
                n <= 0x10FFFFu32,
        ;
        (0xF0 | (n >> 18)) as u8
    }
}

fn invalid_char_error(c: char) -> (msg: String)
    ensures
        msg@ == invalid_char_message(c),
{
    let prefix = "Invalid base64 char: ";
    let mut v = chars_of(prefix);
    let b = utf8_first_byte_of(c);
    v.push(b as char);
    assert(v@ =~= invalid_char_message(c));
    string_from_chars(v.as_slice())
}

proof fn lemma_decode_skip(v: Seq<u8>, i: int)
    requires
        0 <= i,
        i + 4 <= v.len(),
    ensures
        decode_values(v.skip(i)) == seq![
            dec0(v[i], v[i + 1]),
            dec1(v[i + 1], v[i + 2]),
            dec2(v[i + 2], v[i + 3]),
        ] + decode_values(v.skip(i + 4)),
{
    assert(v.skip(i).skip(4) =~= v.skip(i + 4));
}

/// Decodes base64 text: trailing `=` are ignored, any other character outside
/// the alphabet is an error, and the 6-bit values are read as one bit string.
pub fn base64_decode(input: &str) -> (r: Result<Vec<u8>, String>)
    ensures
        match decode_spec(input@) {
            Ok(bytes) => r is Ok && r->Ok_0@ == bytes,
            Err(msg) => r is Err && r->Err_0@ == msg,
        },
{
    let chars = chars_of(input);
    let mut end = chars.len();
    assert(chars@.take(end as int) =~= chars@);
    while end > 0 && chars[end - 1] == '='
        invariant
            end <= chars@.len(),
            strip_padding(chars@) == strip_padding(chars@.take(end as int)),
        decreases end,
    {
        proof {
            lemma_strip_padding_take(chars@, end as int);
        }
        end = end - 1;
    }
    let ghost t = chars@.take(end as int);
    assert(strip_padding(t) == t);
    let mut vals: Vec<u8> = Vec::new();
    let mut i: usize = 0;
    while i < end
        invariant
            end <= chars@.len(),
            t == chars@.take(end as int),
            strip_padding(input@) == t,
            i <= end,
            vals@.len() == i,
            forall|j: int| 0 <= j < i ==> b64_value(#[trigger] t[j]) is Some,
            forall|j: int| 0 <= j < i ==> vals@[j] == b64_value(#[trigger] t[j]).unwrap(),
            forall|j: int| 0 <= j < i ==> vals@[j] < 64,
        decreases end - i,
    {
        let c = chars[i];
        match value_of_char(c) {
            Some(v) => {
                vals.push(v);
            },
            None => {
                proof {
                    lemma_first_invalid_at(t, i as int);
                }
                return Err(invalid_char_error(c));
            },
        }
        i = i + 1;
    }
    proof {
        lemma_first_invalid_none(t);
        assert(vals@ =~= values_of(t));
    }
    let n = vals.len();
    let mut out: Vec<u8> = Vec::new();
    let mut k: usize = 0;
    assert(vals@.skip(0) =~= vals@);
    while n - k >= 4
        invariant
            n == vals@.len(),
            k <= n,
            forall|j: int| 0 <= j < n ==> vals@[j] < 64,
            out@ + decode_values(vals@.skip(k as int)) == decode_values(vals@),
        decreases n - k,
    {
        let v0 = vals[k];
        let v1 = vals[k + 1];
        let v2 = vals[k + 2];
        let v3 = vals[k + 3];
        proof {
            lemma_decode_skip(vals@, k as int);
        }
        let ghost before = out@;
        out.push((v0 << 2) | (v1 >> 4));
        out.push(((v1 & 15) << 4) | (v2 >> 2));
        out.push(((v2 & 3) << 6) | v3);
        assert(out@ =~= before + seq![dec0(v0, v1), dec1(v1, v2), dec2(v2, v3)]);
        k = k + 4;
    }
    let ghost before = out@;
    let ghost rest = vals@.skip(k as int);
    if n - k == 2 {
        let v0 = vals[k];
        let v1 = vals[k + 1];
        out.push((v0 << 2) | (v1 >> 4));
        assert(out@ =~= before + decode_values(rest));
    } else if n - k == 3 {
        let v0 = vals[k];
        let v1 = vals[k + 1];
        let v2 = vals[k + 2];
        out.push((v0 << 2) | (v1 >> 4));
        out.push(((v1 & 15) << 4) | (v2 >> 2));
        assert(out@ =~= before + decode_values(rest));
    } else {
        assert(out@ =~= before + decode_values(rest));
    }
    Ok(out)
}

// ---------------------------------------------------------------- round trip

/// The 6-bit values that encoding `bytes` writes, padding left out.
pub open spec fn encoded_values(bytes: Seq<u8>) -> Seq<u8>
    decreases bytes.len(),
{
    if bytes.len() == 0 {
        seq![]
    } else if bytes.len() == 1 {
        seq![enc0(bytes[0]), enc1(bytes[0], 0)]
    } else if bytes.len() == 2 {
        seq![enc0(bytes[0]), enc1(bytes[0], bytes[1]), enc2(bytes[1], 0)]
    } else {
        seq![enc0(bytes[0]), enc1(bytes[0], bytes[1]), enc2(bytes[1], bytes[2]), enc3(bytes[2])]
            + encoded_values(bytes.skip(3))
    }
}

proof fn lemma_char_value(v: u8)
    requires
        v < 64,
    ensures
        b64_value(b64_char(v)) == Some(v),
        b64_char(v) != '=',
{
}

proof fn lemma_group_roundtrip(b0: u8, b1: u8, b2: u8)
    ensures
        dec0(enc0(b0), enc1(b0, b1)) == b0,
        dec1(enc1(b0, b1), enc2(b1, b2)) == b1,
        dec2(enc2(b1, b2), enc3(b2)) == b2,
{
    assert(((b0 >> 2) << 2) | ((((b0 & 3) << 4) | (b1 >> 4)) >> 4) == b0) by (bit_vector);
    assert(((((b0 & 3) << 4) | (b1 >> 4)) & 15) << 4 | ((((b1 & 15) << 2) | (b2 >> 6)) >> 2)
        == b1) by (bit_vector);
    assert(((((b1 & 15) << 2) | (b2 >> 6)) & 3) << 6 | (b2 & 63) == b2) by (bit_vector);
}

proof fn lemma_encoded_values_facts(bytes: Seq<u8>)
    ensures
        forall|j: int|
            0 <= j < encoded_values(bytes).len() ==> #[trigger] encoded_values(bytes)[j] < 64,
        bytes.len() > 0 ==> encoded_values(bytes).len() >= 2,
        decode_values(encoded_values(bytes)) == bytes,
    decreases bytes.len(),
{
    let ev = encoded_values(bytes);
    if bytes.len() == 0 {
    } else if bytes.len() == 1 {
        lemma_enc_ranges(bytes[0], 0, 0);
        lemma_group_roundtrip(bytes[0], 0, 0);
        assert(decode_values(ev) =~= bytes);
    } else if bytes.len() == 2 {
        lemma_enc_ranges(bytes[0], bytes[1], 0);
        lemma_group_roundtrip(bytes[0], bytes[1], 0);
        assert(decode_values(ev) =~= bytes);
    } else {
        let rest = bytes.skip(3);
        lemma_encoded_values_facts(rest);
        lemma_enc_ranges(bytes[0], bytes[1], bytes[2]);
        lemma_group_roundtrip(bytes[0], bytes[1], bytes[2]);
        let g = seq![
            enc0(bytes[0]),
            enc1(bytes[0], bytes[1]),
            enc2(bytes[1], bytes[2]),
            enc3(bytes[2]),
        ];
        assert(ev == g + encoded_values(rest));
        assert(ev.skip(4) =~= encoded_values(rest));
        assert(decode_values(ev) == seq![bytes[0], bytes[1], bytes[2]] + rest);
        assert(decode_values(ev) =~= bytes);
        assert forall|j: int| 0 <= j < ev.len() implies #[trigger] ev[j] < 64 by {
            if j >= 4 {
                assert(ev[j] == encoded_values(rest)[j - 4]);
            }
        }
    }
}

proof fn lemma_strip_padding_concat(x: Seq<char>, y: Seq<char>)
    requires
        strip_padding(y).len() > 0,
    ensures
        strip_padding(x + y) == x + strip_padding(y),
    decreases y.len(),
{
    if y.len() > 0 && y.last() == '=' {
        assert((x + y).drop_last() =~= x + y.drop_last());
        lemma_strip_padding_concat(x, y.drop_last());
    } else {
        assert(y.len() > 0);
        assert((x + y).last() == y.last());
    }
}

/// The characters written for the values, padding left out.
pub open spec fn value_chars(v: Seq<u8>) -> Seq<char> {
    v.map_values(|x: u8| b64_char(x))
}

proof fn lemma_strip_encoded(bytes: Seq<u8>)
    ensures
        strip_padding(encode_spec(bytes)) == value_chars(encoded_values(bytes)),
    decreases bytes.len(),
{
    let e = encode_spec(bytes);
    let ev = encoded_values(bytes);
    if bytes.len() == 0 {
        assert(value_chars(ev) =~= seq![]);
    } else if bytes.len() == 1 {
        lemma_enc_ranges(bytes[0], 0, 0);
        lemma_char_value(enc1(bytes[0], 0));
        lemma_char_value(enc0(bytes[0]));
        let e1 = e.drop_last();
        let e2 = e1.drop_last();
        assert(e2 =~= value_chars(ev));
        assert(e1 =~= seq![b64_char(enc0(bytes[0])), b64_char(enc1(bytes[0], 0)), '=']);
        assert(strip_padding(e2) == e2);
        assert(strip_padding(e1) == strip_padding(e2));
        assert(strip_padding(e) == strip_padding(e1));
    } else if bytes.len() == 2 {
        lemma_enc_ranges(bytes[0], bytes[1], 0);
        lemma_char_value(enc2(bytes[1], 0));
        let e1 = e.drop_last();
        assert(e1 =~= value_chars(ev));
        assert(strip_padding(e1) == e1);
        assert(strip_padding(e) == strip_padding(e1));
    } else {
        let rest = bytes.skip(3);
        lemma_enc_ranges(bytes[0], bytes[1], bytes[2]);
        let g = seq![
            b64_char(enc0(bytes[0])),
            b64_char(enc1(bytes[0], bytes[1])),
            b64_char(enc2(bytes[1], bytes[2])),
            b64_char(enc3(bytes[2])),
        ];
        assert(e == g + encode_spec(rest));
        lemma_strip_encoded(rest);
        lemma_encoded_values_facts(rest);
        if rest.len() == 0 {
            lemma_char_value(enc3(bytes[2]));
            assert(e =~= g);
            assert(value_chars(ev) =~= g);
        } else {
            lemma_strip_padding_concat(g, encode_spec(rest));
            assert(value_chars(ev) =~= g + value_chars(encoded_values(rest)));
        }
    }
}

/// The encoder writes alphabet characters and `=` only, and writes something
/// for any non-empty input, ending in an alphabet character or `=`.
pub proof fn lemma_encode_chars(bytes: Seq<u8>)
    ensures
        forall|i: int|
            0 <= i < encode_spec(bytes).len() ==> (b64_value(#[trigger] encode_spec(bytes)[i]) is Some
                || encode_spec(bytes)[i] == '='),
        bytes.len() > 0 ==> encode_spec(bytes).len() > 0,
    decreases bytes.len(),
{
    let e = encode_spec(bytes);
    if bytes.len() == 1 {
        lemma_enc_ranges(bytes[0], 0, 0);
        lemma_char_value(enc0(bytes[0]));
        lemma_char_value(enc1(bytes[0], 0));
    } else if bytes.len() == 2 {
        lemma_enc_ranges(bytes[0], bytes[1], 0);
        lemma_char_value(enc0(bytes[0]));
        lemma_char_value(enc1(bytes[0], bytes[1]));
        lemma_char_value(enc2(bytes[1], 0));
    } else if bytes.len() >= 3 {
        let rest = bytes.skip(3);
        lemma_encode_chars(rest);
        lemma_enc_ranges(bytes[0], bytes[1], bytes[2]);
        lemma_char_value(enc0(bytes[0]));
        lemma_char_value(enc1(bytes[0], bytes[1]));
        lemma_char_value(enc2(bytes[1], bytes[2]));
        lemma_char_value(enc3(bytes[2]));
        assert forall|i: int| 0 <= i < e.len() implies (b64_value(#[trigger] e[i]) is Some || e[i]
            == '=') by {
            if i >= 4 {
                assert(e[i] == encode_spec(rest)[i - 4]);
            }
        }
    }
}

/// Decoding what the encoder wrote gives back the encoded bytes.
pub proof fn lemma_base64_roundtrip(bytes: Seq<u8>)
    ensures
        decode_spec(encode_spec(bytes)) == Ok::<Seq<u8>, Seq<char>>(bytes),
{
    lemma_strip_encoded(bytes);
    lemma_encoded_values_facts(bytes);
    let ev = encoded_values(bytes);
    let t = value_chars(ev);
    assert forall|j: int| 0 <= j < t.len() implies b64_value(#[trigger] t[j]) is Some by {
        lemma_char_value(ev[j]);
    }
    lemma_first_invalid_none(t);
    assert forall|j: int| 0 <= j < t.len() implies #[trigger] values_of(t)[j] == ev[j] by {
        lemma_char_value(ev[j]);
    }
    assert(values_of(t) =~= ev);
}

} // verus!

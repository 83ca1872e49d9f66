//! Base64 text codec (standard and URL-safe alphabets), independent of the
//! mode engines.  Encoding pads with `'='` to a multiple of four characters;
//! decoding requires a length that is a multiple of four, silently discards
//! characters outside the chosen alphabet, and rejects a filtered remainder
//! of an impossible length.

use vstd::arithmetic::div_mod::{
    lemma_fundamental_div_mod, lemma_mod_add_multiples_vanish, lemma_mod_multiples_vanish,
    lemma_small_mod,
};
use vstd::prelude::*;

verus! {

/// Base64 decode failure.
///
/// `InvalidInputLength(len)` reports an input whose length is not a
/// multiple of four.  `InvalidFormat(rem)` reports that, after discarding
/// characters outside the alphabet, the trailing group has a length (`rem`)
/// from which no whole bytes can be recovered.
#[derive(Clone, Copy, Debug, PartialEq, Eq, Structural)]
pub enum Error {
    InvalidInputLength(usize),
    InvalidFormat(usize),
}

/// The alphabet in use: standard (`+`, `/`) or URL-safe (`-`, `_`).
#[derive(Clone, Copy, Debug, PartialEq, Eq, Structural)]
pub enum Kind {
    Basic,
    UrlSafe,
}

/// The alphabet byte for a six-bit value.
pub open spec fn b64_ascii(kind: Kind, v: int) -> u8
    recommends
        0 <= v < 64,
{
    if v < 26 {
        (('A' as u8) + v) as u8
    } else if v < 52 {
        (('a' as u8) + (v - 26)) as u8
    } else if v < 62 {
        (('0' as u8) + (v - 52)) as u8
    } else if v == 62 {
        if kind is Basic {
            '+' as u8
        } else {
            '-' as u8
        }
    } else {
        if kind is Basic {
            '/' as u8
        } else {
            '_' as u8
        }
    }
}

/// The alphabet character for a six-bit value.
pub open spec fn b64_char(kind: Kind, v: int) -> char
    recommends
        0 <= v < 64,
{
    b64_ascii(kind, v) as char
}

/// The six-bit value of a character, or `None` for a character outside the
/// chosen alphabet (the padding character `'='` among them).
pub open spec fn b64_val(kind: Kind, c: char) -> Option<u8> {
    let u = c as int;
    if ('A' as int) <= u <= ('Z' as int) {
        Some((u - ('A' as int)) as u8)
    } else if ('a' as int) <= u <= ('z' as int) {
        Some((u - ('a' as int) + 26) as u8)
    } else if ('0' as int) <= u <= ('9' as int) {
        Some((u - ('0' as int) + 52) as u8)
    } else if u == (if kind is Basic {
        '+' as int
    } else {
        '-' as int
    }) {
        Some(62u8)
    } else if u == (if kind is Basic {
        '/' as int
    } else {
        '_' as int
    }) {
        Some(63u8)
    } else {
        None
    }
}

/// Base64 encoding as alphabet bytes: full three-byte groups become four
/// alphabet bytes; a trailing group of one or two bytes becomes two or
/// three alphabet bytes followed by padding (`'='`, two or one of them),
/// each padding character standing for two appended zero bits.
pub open spec fn encode_ascii(kind: Kind, s: Seq<u8>) -> Seq<u8>
    decreases s.len(),
{
    if s.len() >= 3 {
        seq![
            b64_ascii(kind, (s[0] >> 2) as int),
            b64_ascii(kind, (((s[0] & 3) << 4) | (s[1] >> 4)) as int),
            b64_ascii(kind, (((s[1] & 15) << 2) | (s[2] >> 6)) as int),
            b64_ascii(kind, (s[2] & 63) as int),
        ] + encode_ascii(kind, s.skip(3))
    } else if s.len() == 2 {
        seq![
            b64_ascii(kind, (s[0] >> 2) as int),
            b64_ascii(kind, (((s[0] & 3) << 4) | (s[1] >> 4)) as int),
            b64_ascii(kind, ((s[1] & 15) << 2) as int),
            '=' as u8,
        ]
    } else if s.len() == 1 {
        seq![
            b64_ascii(kind, (s[0] >> 2) as int),
            b64_ascii(kind, ((s[0] & 3) << 4) as int),
            '=' as u8,
            '=' as u8,
        ]
    } else {
        Seq::empty()
    }
}

/// Base64 encoding as text: the alphabet bytes read as characters.
pub open spec fn encode_spec(kind: Kind, s: Seq<u8>) -> Seq<char> {
    encode_ascii(kind, s).map_values(|b: u8| b as char)
}

/// The bytes recovered from one full group of four six-bit values.
pub open spec fn dec4(a: u8, b: u8, c: u8, d: u8) -> Seq<u8> {
    seq![(a << 2) | (b >> 4), (b << 4) | (c >> 2), (c << 6) | d]
}

/// The bytes recovered from a sequence of six-bit values: full groups of
/// four yield three bytes each; a trailing group of two or three values
/// yields one or two bytes; a trailing group of one value yields nothing
/// (no whole byte fits in six bits).
pub open spec fn decode_blocks(s: Seq<u8>) -> Seq<u8>
    decreases s.len(),
{
    if s.len() >= 4 {
        dec4(s[0], s[1], s[2], s[3]) + decode_blocks(s.skip(4))
    } else if s.len() == 2 {
        seq![(s[0] << 2) | (s[1] >> 4)]
    } else if s.len() == 3 {
        seq![(s[0] << 2) | (s[1] >> 4), (s[1] << 4) | (s[2] >> 2)]
    } else {
        Seq::empty()
    }
}

/// Decoding six-bit values: fails exactly when the trailing group holds a
/// single value, from which no whole byte can be recovered.
pub open spec fn decode_core_spec(s: Seq<u8>) -> Result<Seq<u8>, Error> {
    if s.len() % 4 == 1 {
        Err(Error::InvalidFormat(1usize))
    } else {
        Ok(decode_blocks(s))
    }
}

/// The six-bit values of the characters inside the chosen alphabet, in
/// order; everything else is discarded.
pub open spec fn filter_vals(kind: Kind, s: Seq<char>) -> Seq<u8>
    decreases s.len(),
{
    if s.len() == 0 {
        Seq::empty()
    } else {
        match b64_val(kind, s[0]) {
            Some(v) => seq![v] + filter_vals(kind, s.skip(1)),
            None => filter_vals(kind, s.skip(1)),
        }
    }
}

/// Base64 decoding of text: the length must be a multiple of four before
/// any filtering; then the characters inside the alphabet are decoded.
pub open spec fn decode_spec(kind: Kind, s: Seq<char>) -> Result<Seq<u8>, Error> {
    if s.len() % 4 != 0 {
        Err(Error::InvalidInputLength(s.len() as usize))
    } else {
        decode_core_spec(filter_vals(kind, s))
    }
}

impl Kind {
    /// The alphabet character at a six-bit index.
    pub fn value_at(&self, ix: usize) -> (r: char)
        requires
            ix < 64,
        ensures
            r == b64_char(*self, ix as int),
    {
        ascii_at(self, ix as u8) as char
    }

    /// The six-bit value of a character of the alphabet, `None` outside it.
    pub fn is_b64(&self, c: char) -> (r: Option<u8>)
        ensures
            r == b64_val(*self, c),
    {
        let u = c as u32;
        if 65 <= u && u <= 90 {
            Some((u - 65) as u8)
        } else if 97 <= u && u <= 122 {
            Some((u - 97 + 26) as u8)
        } else if 48 <= u && u <= 57 {
            Some((u - 48 + 52) as u8)
        } else {
            let (c62, c63): (u32, u32) = match self {
                Kind::Basic => (43, 47),
                Kind::UrlSafe => (45, 95),
            };
            if u == c62 {
                Some(62)
            } else if u == c63 {
                Some(63)
            } else {
                None
            }
        }
    }
}

/// The alphabet byte at a six-bit index.
fn ascii_at(kind: &Kind, v: u8) -> (r: u8)
    requires
        v < 64,
    ensures
        r == b64_ascii(*kind, v as int),
        r < 128,
{
    if v < 26 {
        65 + v
    } else if v < 52 {
        97 + (v - 26)
    } else if v < 62 {
        48 + (v - 52)
    } else {
        match kind {
            Kind::Basic => if v == 62 {
                43
            } else {
                47
            },
            Kind::UrlSafe => if v == 62 {
                45
            } else {
                95
            },
        }
    }
}

/// Relies on String::from_utf8: bytes below 128 decode to exactly those
/// characters.
#[verifier::external_body]
fn ascii_to_string(bytes: Vec<u8>) -> (r: String)
    requires
        forall|i: int| 0 <= i < bytes@.len() ==> bytes@[i] < 128,
    ensures
        r@ == bytes@.map_values(|b: u8| b as char),
{
    String::from_utf8(bytes).unwrap_or_default()
}

/// Encodes bytes as base64 text in the chosen alphabet, `'='`-padded to a
/// multiple of four characters.
pub fn base64_encode(kind: Kind, bytes: &[u8]) -> (r: String)
    ensures
        r@ == encode_spec(kind, bytes@),
{
    let mut out: Vec<u8> = Vec::new();
    let n = bytes.len();
    let mut i: usize = 0;
    proof {
        assert(bytes@.skip(0) =~= bytes@);
    }
    while n - i >= 3
        invariant
            i <= n,
            n == bytes@.len(),
            encode_ascii(kind, bytes@) == out@ + encode_ascii(kind, bytes@.skip(i as int)),
            forall|j: int| 0 <= j < out@.len() ==> out@[j] < 128,
        decreases n - i,
    {
        let a = bytes[i];
        let b = bytes[i + 1];
        let c = bytes[i + 2];
        proof {
            assert((a >> 2) < 64 && (((a & 3) << 4) | (b >> 4)) < 64 && (((b & 15) << 2) | (c
                >> 6)) < 64 && (c & 63) < 64) by (bit_vector);
        }
        out.push(ascii_at(&kind, a >> 2));
        out.push(ascii_at(&kind, ((a & 3) << 4) | (b >> 4)));
        out.push(ascii_at(&kind, ((b & 15) << 2) | (c >> 6)));
        out.push(ascii_at(&kind, c & 63));
        proof {
            let rest = bytes@.skip(i as int);
            assert(rest.len() >= 3);
            assert(rest[0] == a && rest[1] == b && rest[2] == c);
            assert(rest.skip(3) =~= bytes@.skip(i + 3));
            assert(out@ =~= before_push(out@, 4) + seq![
                b64_ascii(kind, (a >> 2) as int),
                b64_ascii(kind, (((a & 3) << 4) | (b >> 4)) as int),
                b64_ascii(kind, (((b & 15) << 2) | (c >> 6)) as int),
                b64_ascii(kind, (c & 63) as int),
            ]);
        }
        i = i + 3;
    }
    if n - i == 1 {
        let a = bytes[i];
        proof {
            assert((a >> 2) < 64 && ((a & 3) << 4) < 64) by (bit_vector);
        }
        out.push(ascii_at(&kind, a >> 2));
        out.push(ascii_at(&kind, (a & 3) << 4));
        out.push(61);
        out.push(61);
        proof {
            let rest = bytes@.skip(i as int);
            assert(rest.len() == 1 && rest[0] == a);
            assert(out@ =~= before_push(out@, 4) + encode_ascii(kind, rest));
        }
    } else if n - i == 2 {
        let a = bytes[i];
        let b = bytes[i + 1];
        proof {
            assert((a >> 2) < 64 && (((a & 3) << 4) | (b >> 4)) < 64 && ((b & 15) << 2)
                < 64) by (bit_vector);
        }
        out.push(ascii_at(&kind, a >> 2));
        out.push(ascii_at(&kind, ((a & 3) << 4) | (b >> 4)));
        out.push(ascii_at(&kind, (b & 15) << 2));
        out.push(61);
        proof {
            let rest = bytes@.skip(i as int);
            assert(rest.len() == 2 && rest[0] == a && rest[1] == b);
            assert(out@ =~= before_push(out@, 4) + encode_ascii(kind, rest));
        }
    } else {
        proof {
            assert(bytes@.skip(i as int).len() == n - i);
            assert(encode_ascii(kind, bytes@.skip(i as int)) =~= Seq::<u8>::empty());
            assert(out@ + encode_ascii(kind, bytes@.skip(i as int)) =~= out@);
        }
    }
    proof {
        assert(out@ == encode_ascii(kind, bytes@));
    }
    ascii_to_string(out)
}

/// The sequence `s` without its last `k` elements: in a loop proof, the
/// output as it stood before the latest pushes.
spec fn before_push(s: Seq<u8>, k: int) -> Seq<u8>
    recommends
        0 <= k <= s.len(),
{
    s.take(s.len() - k)
}

/// Decodes a sequence of six-bit values into bytes; fails exactly when the
/// trailing group holds a single value.
fn decode_core(filtered: Vec<u8>) -> (r: Result<Vec<u8>, Error>)
    ensures
        r is Ok <==> decode_core_spec(filtered@) is Ok,
        r is Ok ==> r->Ok_0@ == decode_core_spec(filtered@)->Ok_0,
        r is Err ==> r->Err_0 == decode_core_spec(filtered@)->Err_0,
{
    let f = filtered;
    let n = f.len();
    let mut out: Vec<u8> = Vec::new();
    let mut i: usize = 0;
    proof {
        assert(f@.skip(0) =~= f@);
    }
    while n - i >= 4
        invariant
            i <= n,
            n == f@.len(),
            i % 4 == 0,
            decode_blocks(f@) == out@ + decode_blocks(f@.skip(i as int)),
        decreases n - i,
    {
        let a = f[i];
        let b = f[i + 1];
        let c = f[i + 2];
        let d = f[i + 3];
        out.push((a << 2) | (b >> 4));
        out.push((b << 4) | (c >> 2));
        out.push((c << 6) | d);
        proof {
            let rest = f@.skip(i as int);
            assert(rest.len() >= 4);
            assert(rest[0] == a && rest[1] == b && rest[2] == c && rest[3] == d);
            assert(rest.skip(4) =~= f@.skip(i + 4));
            assert(out@ =~= before_push(out@, 3) + dec4(a, b, c, d));
            lemma_mod_add_multiples_vanish(i as int, 4);
        }
        i = i + 4;
    }
    let rem = n - i;
    proof {
        lemma_fundamental_div_mod(i as int, 4);
        lemma_mod_multiples_vanish(i as int / 4, n - i, 4);
        lemma_small_mod((n - i) as nat, 4nat);
        assert(n as int % 4 == rem);
    }
    if rem == 1 {
        return Err(Error::InvalidFormat(1));
    }
    if rem == 2 {
        let a = f[i];
        let b = f[i + 1];
        out.push((a << 2) | (b >> 4));
        proof {
            let rest = f@.skip(i as int);
            assert(rest.len() == 2 && rest[0] == a && rest[1] == b);
            assert(out@ =~= before_push(out@, 1) + decode_blocks(rest));
        }
    } else if rem == 3 {
        let a = f[i];
        let b = f[i + 1];
        let c = f[i + 2];
        out.push((a << 2) | (b >> 4));
        out.push((b << 4) | (c >> 2));
        proof {
            let rest = f@.skip(i as int);
            assert(rest.len() == 3 && rest[0] == a && rest[1] == b && rest[2] == c);
            assert(out@ =~= before_push(out@, 2) + decode_blocks(rest));
        }
    } else {
        proof {
            assert(f@.skip(i as int).len() == 0);
            assert(decode_blocks(f@.skip(i as int)) =~= Seq::<u8>::empty());
            assert(out@ + decode_blocks(f@.skip(i as int)) =~= out@);
        }
    }
    Ok(out)
}

/// The six-bit values an encoded byte stream filters back to: four values
/// for each full three-byte group, three or two for a trailing group of two
/// or one bytes.
spec fn sextets(s: Seq<u8>) -> Seq<u8>
    decreases s.len(),
{
    if s.len() >= 3 {
        seq![
            s[0] >> 2,
            ((s[0] & 3) << 4) | (s[1] >> 4),
            ((s[1] & 15) << 2) | (s[2] >> 6),
            s[2] & 63,
        ] + sextets(s.skip(3))
    } else if s.len() == 2 {
        seq![s[0] >> 2, ((s[0] & 3) << 4) | (s[1] >> 4), (s[1] & 15) << 2]
    } else if s.len() == 1 {
        seq![s[0] >> 2, (s[0] & 3) << 4]
    } else {
        Seq::empty()
    }
}

/// Every alphabet character carries its six-bit value back out.
proof fn lemma_val_of_ascii(kind: Kind, v: int)
    requires
        0 <= v < 64,
    ensures
        b64_val(kind, b64_ascii(kind, v) as char) == Some(v as u8),
{
    let a = b64_ascii(kind, v);
    assert(((a as char) as int) == a as int);
}

/// The padding character is outside both alphabets.
proof fn lemma_pad_not_b64(kind: Kind)
    ensures
        b64_val(kind, ('=' as u8) as char) == None::<u8>,
{
    assert(((('=' as u8) as char) as int) == ('=' as int));
}

/// Filtering distributes over concatenation.
proof fn lemma_filter_vals_append(kind: Kind, x: Seq<char>, y: Seq<char>)
    ensures
        filter_vals(kind, x + y) == filter_vals(kind, x) + filter_vals(kind, y),
    decreases x.len(),
{
    if x.len() == 0 {
        assert(x + y =~= y);
        assert(filter_vals(kind, x) + filter_vals(kind, y) =~= filter_vals(kind, y));
    } else {
        assert((x + y)[0] == x[0]);
        assert((x + y).skip(1) =~= x.skip(1) + y);
        lemma_filter_vals_append(kind, x.skip(1), y);
        assert(filter_vals(kind, x + y) =~= filter_vals(kind, x) + filter_vals(kind, y));
    }
}

/// Filtering a one-character text keeps its value or nothing.
proof fn lemma_filter_vals_single(kind: Kind, c: char)
    ensures
        filter_vals(kind, seq![c]) == (match b64_val(kind, c) {
            Some(v) => seq![v],
            None => Seq::<u8>::empty(),
        }),
{
    assert(seq![c].skip(1) =~= Seq::<char>::empty());
    assert(filter_vals(kind, Seq::<char>::empty()) == Seq::<u8>::empty());
    match b64_val(kind, c) {
        Some(v) => {
            assert(filter_vals(kind, seq![c]) =~= seq![v]);
        },
        None => {
            assert(filter_vals(kind, seq![c]) =~= Seq::<u8>::empty());
        },
    }
}

/// Mapping bytes to characters distributes over concatenation.
proof fn lemma_map_char_append(x: Seq<u8>, y: Seq<u8>)
    ensures
        (x + y).map_values(|b: u8| b as char) == x.map_values(|b: u8| b as char) + y.map_values(
            |b: u8| b as char,
        ),
{
    assert((x + y).map_values(|b: u8| b as char) =~= x.map_values(|b: u8| b as char)
        + y.map_values(|b: u8| b as char));
}

/// Filtering an encoded text recovers exactly the six-bit values: the
/// alphabet characters keep their values and the padding falls away.
proof fn lemma_filter_encode(kind: Kind, s: Seq<u8>)
    ensures
        filter_vals(kind, encode_spec(kind, s)) == sextets(s),
    decreases s.len(),
{
    let f = |b: u8| b as char;
    if s.len() >= 3 {
        let a = s[0];
        let b = s[1];
        let c = s[2];
        let v0 = a >> 2;
        let v1 = ((a & 3) << 4) | (b >> 4);
        let v2 = ((b & 15) << 2) | (c >> 6);
        let v3 = c & 63;
        assert((a >> 2) < 64 && (((a & 3) << 4) | (b >> 4)) < 64 && (((b & 15) << 2) | (c >> 6))
            < 64 && (c & 63) < 64) by (bit_vector);
        let ha = seq![
            b64_ascii(kind, v0 as int),
            b64_ascii(kind, v1 as int),
            b64_ascii(kind, v2 as int),
            b64_ascii(kind, v3 as int),
        ];
        assert(encode_ascii(kind, s) == ha + encode_ascii(kind, s.skip(3)));
        lemma_map_char_append(ha, encode_ascii(kind, s.skip(3)));
        let hc = ha.map_values(f);
        assert(hc =~= seq![b64_char(kind, v0 as int)] + seq![b64_char(kind, v1 as int)] + seq![
            b64_char(kind, v2 as int),
        ] + seq![b64_char(kind, v3 as int)]);
        lemma_filter_vals_append(kind, hc, encode_spec(kind, s.skip(3)));
        lemma_filter_vals_append(
            kind,
            seq![b64_char(kind, v0 as int)] + seq![b64_char(kind, v1 as int)] + seq![
                b64_char(kind, v2 as int),
            ],
            seq![b64_char(kind, v3 as int)],
        );
        lemma_filter_vals_append(
            kind,
            seq![b64_char(kind, v0 as int)] + seq![b64_char(kind, v1 as int)],
            seq![b64_char(kind, v2 as int)],
        );
        lemma_filter_vals_append(
            kind,
            seq![b64_char(kind, v0 as int)],
            seq![b64_char(kind, v1 as int)],
        );
        lemma_val_of_ascii(kind, v0 as int);
        lemma_val_of_ascii(kind, v1 as int);
        lemma_val_of_ascii(kind, v2 as int);
        lemma_val_of_ascii(kind, v3 as int);
        lemma_filter_vals_single(kind, b64_char(kind, v0 as int));
        lemma_filter_vals_single(kind, b64_char(kind, v1 as int));
        lemma_filter_vals_single(kind, b64_char(kind, v2 as int));
        lemma_filter_vals_single(kind, b64_char(kind, v3 as int));
        lemma_filter_encode(kind, s.skip(3));
        assert(filter_vals(kind, encode_spec(kind, s)) =~= sextets(s));
    } else if s.len() == 2 {
        let a = s[0];
        let b = s[1];
        let v0 = a >> 2;
        let v1 = ((a & 3) << 4) | (b >> 4);
        let v2 = (b & 15) << 2;
        assert((a >> 2) < 64 && (((a & 3) << 4) | (b >> 4)) < 64 && ((b & 15) << 2)
            < 64) by (bit_vector);
        let hc = encode_ascii(kind, s).map_values(f);
        assert(hc =~= seq![b64_char(kind, v0 as int)] + seq![b64_char(kind, v1 as int)] + seq![
            b64_char(kind, v2 as int),
        ] + seq![('=' as u8) as char]);
        lemma_filter_vals_append(
            kind,
            seq![b64_char(kind, v0 as int)] + seq![b64_char(kind, v1 as int)] + seq![
                b64_char(kind, v2 as int),
            ],
            seq![('=' as u8) as char],
        );
        lemma_filter_vals_append(
            kind,
            seq![b64_char(kind, v0 as int)] + seq![b64_char(kind, v1 as int)],
            seq![b64_char(kind, v2 as int)],
        );
        lemma_filter_vals_append(
            kind,
            seq![b64_char(kind, v0 as int)],
            seq![b64_char(kind, v1 as int)],
        );
        lemma_val_of_ascii(kind, v0 as int);
        lemma_val_of_ascii(kind, v1 as int);
        lemma_val_of_ascii(kind, v2 as int);
        lemma_pad_not_b64(kind);
        lemma_filter_vals_single(kind, b64_char(kind, v0 as int));
        lemma_filter_vals_single(kind, b64_char(kind, v1 as int));
        lemma_filter_vals_single(kind, b64_char(kind, v2 as int));
        lemma_filter_vals_single(kind, ('=' as u8) as char);
        assert(filter_vals(kind, encode_spec(kind, s)) =~= sextets(s));
    } else if s.len() == 1 {
        let a = s[0];
        let v0 = a >> 2;
        let v1 = (a & 3) << 4;
        assert((a >> 2) < 64 && ((a & 3) << 4) < 64) by (bit_vector);
        let hc = encode_ascii(kind, s).map_values(f);
        assert(hc =~= seq![b64_char(kind, v0 as int)] + seq![b64_char(kind, v1 as int)] + seq![
            ('=' as u8) as char,
        ] + seq![('=' as u8) as char]);
        lemma_filter_vals_append(
            kind,
            seq![b64_char(kind, v0 as int)] + seq![b64_char(kind, v1 as int)] + seq![
                ('=' as u8) as char,
            ],
            seq![('=' as u8) as char],
        );
        lemma_filter_vals_append(
            kind,
            seq![b64_char(kind, v0 as int)] + seq![b64_char(kind, v1 as int)],
            seq![('=' as u8) as char],
        );
        lemma_filter_vals_append(
            kind,
            seq![b64_char(kind, v0 as int)],
            seq![b64_char(kind, v1 as int)],
        );
        lemma_val_of_ascii(kind, v0 as int);
        lemma_val_of_ascii(kind, v1 as int);
        lemma_pad_not_b64(kind);
        lemma_filter_vals_single(kind, b64_char(kind, v0 as int));
        lemma_filter_vals_single(kind, b64_char(kind, v1 as int));
        lemma_filter_vals_single(kind, ('=' as u8) as char);
        assert(filter_vals(kind, encode_spec(kind, s)) =~= sextets(s));
    } else {
        assert(encode_ascii(kind, s).map_values(f) =~= Seq::<char>::empty());
        assert(filter_vals(kind, encode_spec(kind, s)) =~= sextets(s));
    }
}

/// Decoding the six-bit values of a byte stream gives the stream back, and
/// their count never leaves a single trailing value.
proof fn lemma_decode_sextets(s: Seq<u8>)
    ensures
        decode_blocks(sextets(s)) == s,
        sextets(s).len() as int % 4 != 1,
    decreases s.len(),
{
    if s.len() >= 3 {
        let a = s[0];
        let b = s[1];
        let c = s[2];
        let head = seq![a >> 2, ((a & 3) << 4) | (b >> 4), ((b & 15) << 2) | (c >> 6), c & 63];
        assert(sextets(s) == head + sextets(s.skip(3)));
        lemma_decode_sextets(s.skip(3));
        let t = head + sextets(s.skip(3));
        assert(t.skip(4) =~= sextets(s.skip(3)));
        assert(((a >> 2) << 2) | ((((a & 3) << 4) | (b >> 4)) >> 4) == a) by (bit_vector);
        assert(((((a & 3) << 4) | (b >> 4)) << 4) | ((((b & 15) << 2) | (c >> 6)) >> 2)
            == b) by (bit_vector);
        assert(((((b & 15) << 2) | (c >> 6)) << 6) | (c & 63) == c) by (bit_vector);
        assert(dec4(t[0], t[1], t[2], t[3]) =~= seq![a, b, c]);
        assert(decode_blocks(sextets(s)) =~= s);
        lemma_mod_add_multiples_vanish(sextets(s.skip(3)).len() as int, 4);
    } else if s.len() == 2 {
        let a = s[0];
        let b = s[1];
        assert(((a >> 2) << 2) | ((((a & 3) << 4) | (b >> 4)) >> 4) == a) by (bit_vector);
        assert(((((a & 3) << 4) | (b >> 4)) << 4) | (((b & 15) << 2) >> 2) == b) by (bit_vector);
        assert(decode_blocks(sextets(s)) =~= s);
    } else if s.len() == 1 {
        let a = s[0];
        assert(((a >> 2) << 2) | (((a & 3) << 4) >> 4) == a) by (bit_vector);
        assert(decode_blocks(sextets(s)) =~= s);
    } else {
        assert(decode_blocks(sextets(s)) =~= s);
    }
}

/// Encoded text always has a length that is a multiple of four.
proof fn lemma_encode_ascii_len(kind: Kind, s: Seq<u8>)
    ensures
        encode_ascii(kind, s).len() as int % 4 == 0,
    decreases s.len(),
{
    if s.len() >= 3 {
        lemma_encode_ascii_len(kind, s.skip(3));
        lemma_mod_add_multiples_vanish(encode_ascii(kind, s.skip(3)).len() as int, 4);
    }
}

/// Round trip: decoding an encoded byte stream recovers it exactly, for
/// any input length and either alphabet.
pub proof fn lemma_base64_round_trip(kind: Kind, data: Seq<u8>)
    ensures
        decode_spec(kind, encode_spec(kind, data)) == Ok::<Seq<u8>, Error>(data),
{
    lemma_encode_ascii_len(kind, data);
    lemma_filter_encode(kind, data);
    lemma_decode_sextets(data);
}

/// The text with its characters outside the alphabet removed; what remains
/// is decoded exactly as the original is.
pub open spec fn strip_spec(kind: Kind, s: Seq<char>) -> Seq<char>
    decreases s.len(),
{
    if s.len() == 0 {
        Seq::empty()
    } else if b64_val(kind, s[0]) is Some {
        seq![s[0]] + strip_spec(kind, s.skip(1))
    } else {
        strip_spec(kind, s.skip(1))
    }
}

/// Stripping changes the values not at all.
proof fn lemma_filter_strip(kind: Kind, s: Seq<char>)
    ensures
        filter_vals(kind, strip_spec(kind, s)) == filter_vals(kind, s),
    decreases s.len(),
{
    if s.len() == 0 {
        assert(filter_vals(kind, strip_spec(kind, s)) =~= filter_vals(kind, s));
    } else {
        lemma_filter_strip(kind, s.skip(1));
        if b64_val(kind, s[0]) is Some {
            let tail = strip_spec(kind, s.skip(1));
            assert((seq![s[0]] + tail)[0] == s[0]);
            assert((seq![s[0]] + tail).skip(1) =~= tail);
            assert(filter_vals(kind, strip_spec(kind, s)) =~= filter_vals(kind, s));
        } else {
            assert(filter_vals(kind, strip_spec(kind, s)) =~= filter_vals(kind, s));
        }
    }
}

/// Decoding discards characters outside the alphabet: text with foreign
/// characters interleaved decodes exactly as the stripped text does,
/// whenever both still have lengths that are multiples of four.
pub proof fn lemma_decode_ignores_foreign(kind: Kind, s: Seq<char>)
    requires
        s.len() as int % 4 == 0,
        strip_spec(kind, s).len() as int % 4 == 0,
    ensures
        decode_spec(kind, s) == decode_spec(kind, strip_spec(kind, s)),
{
    lemma_filter_strip(kind, s);
}

/// Decodes base64 text in the chosen alphabet: the text length must be a
/// multiple of four; characters outside the alphabet are then discarded
/// before decoding, and a filtered remainder of a single value is rejected.
pub fn base64_decode(kind: Kind, string: &str) -> (r: Result<Vec<u8>, Error>)
    ensures
        r is Ok <==> decode_spec(kind, string@) is Ok,
        r is Ok ==> r->Ok_0@ == decode_spec(kind, string@)->Ok_0,
        r is Err ==> r->Err_0 == decode_spec(kind, string@)->Err_0,
{
    let n = string.unicode_len();
    if n % 4 != 0 {
        return Err(Error::InvalidInputLength(n));
    }
    let mut filtered: Vec<u8> = Vec::new();
    let mut i: usize = 0;
    proof {
        assert(string@.skip(0) =~= string@);
    }
    while i < n
        invariant
            i <= n,
            n == string@.len(),
            filter_vals(kind, string@) == filtered@ + filter_vals(kind, string@.skip(i as int)),
        decreases n - i,
    {
        let c = string.get_char(i);
        proof {
            let rest = string@.skip(i as int);
            assert(rest.len() > 0);
            assert(rest[0] == c);
            assert(rest.skip(1) =~= string@.skip(i + 1));
        }
        match kind.is_b64(c) {
            Some(v) => {
                filtered.push(v);
                proof {
                    assert(filtered@ =~= before_push(filtered@, 1) + seq![v]);
                }
            },
            None => {},
        }
        i = i + 1;
    }
    proof {
        assert(string@.skip(n as int).len() == 0);
        assert(filter_vals(kind, string@.skip(n as int)) =~= Seq::<u8>::empty());
        assert(filtered@ + filter_vals(kind, string@.skip(n as int)) =~= filtered@);
        assert(filtered@ == filter_vals(kind, string@));
    }
    decode_core(filtered)
}

} // verus!

use vstd::prelude::*;
use vstd::slice::slice_subrange;
use vstd::slice::slice_to_vec;
use vstd::string::*;
use vstd::utf8::encode_utf8;
use vstd::utf8::is_ascii_chars;

use crate::types::RitError;
use crate::types::Types;

verus! {

// ---------------------------------------------------------------------------
// Decimal digits
// ---------------------------------------------------------------------------

/// The canonical decimal representation of `n` as ASCII digit bytes,
/// without leading zeros.
pub open spec fn dec_bytes(n: nat) -> Seq<u8>
    decreases n,
{
    if n < 10 {
        seq![(48 + n) as u8]
    } else {
        dec_bytes(n / 10).push((48 + n % 10) as u8)
    }
}

pub fn usize_to_dec(n: usize) -> (r: Vec<u8>)
    ensures
        r@ == dec_bytes(n as nat),
    decreases n,
{
    if n < 10 {
        let mut v: Vec<u8> = Vec::new();
        v.push(48 + n as u8);
        proof {
            assert(v@ =~= dec_bytes(n as nat));
        }
        v
    } else {
        let mut v = usize_to_dec(n / 10);
        v.push(48 + (n % 10) as u8);
        v
    }
}

// ---------------------------------------------------------------------------
// Hex encoding
// ---------------------------------------------------------------------------

/// The lowercase hex digit for a value below 16.
pub open spec fn hex_digit(v: u8) -> char {
    if v < 10 {
        ((48 + v) as u8) as char
    } else {
        ((87 + v) as u8) as char
    }
}

/// Lowercase hex encoding: two digits for each byte.
pub open spec fn hex_of(bytes: Seq<u8>) -> Seq<char> {
    Seq::new(
        bytes.len() * 2,
        |i: int|
            if i % 2 == 0 {
                hex_digit(bytes[i / 2] / 16)
            } else {
                hex_digit(bytes[i / 2] % 16)
            },
    )
}

pub open spec fn is_hex_char(c: char) -> bool {
    (48 <= c as u32 && c as u32 <= 57) || (97 <= c as u32 && c as u32 <= 102)
}

pub open spec fn is_hex_chars(s: Seq<char>) -> bool {
    forall|i: int| 0 <= i < s.len() ==> is_hex_char(#[trigger] s[i])
}

/// What a well-formed object id looks like: forty lowercase hex digits.
pub open spec fn is_oid_chars(s: Seq<char>) -> bool {
    s.len() == 40 && is_hex_chars(s)
}

pub open spec fn hex_val(c: char) -> u8 {
    if (c as u32) < 97 {
        ((c as u32) - 48) as u8
    } else {
        ((c as u32) - 87) as u8
    }
}

/// The bytes an even-length hex string denotes.
pub open spec fn unhex(s: Seq<char>) -> Seq<u8> {
    Seq::new((s.len() / 2) as nat, |i: int| (hex_val(s[2 * i]) * 16 + hex_val(s[2 * i + 1])) as u8)
}

pub proof fn lemma_hex_of_valid(b: Seq<u8>)
    ensures
        is_hex_chars(hex_of(b)),
        hex_of(b).len() == b.len() * 2,
{
    assert forall|i: int| 0 <= i < hex_of(b).len() implies is_hex_char(#[trigger] hex_of(b)[i]) by {
        let v = if i % 2 == 0 {
            b[i / 2] / 16
        } else {
            b[i / 2] % 16
        };
        assert(v < 16);
    }
}

/// UTF-8 encoding distributes over concatenation.
pub proof fn lemma_encode_utf8_concat(a: Seq<char>, b: Seq<char>)
    ensures
        encode_utf8(a + b) == encode_utf8(a) + encode_utf8(b),
    decreases a.len(),
{
    if a.len() == 0 {
        assert(a + b =~= b);
        assert(encode_utf8(a) + encode_utf8(b) =~= encode_utf8(b));
    } else {
        assert((a + b).drop_first() =~= a.drop_first() + b);
        assert((a + b)[0] == a[0]);
        lemma_encode_utf8_concat(a.drop_first(), b);
        assert(encode_utf8(a + b) =~= encode_utf8(a) + encode_utf8(b));
    }
}

/// Hex digits are ASCII characters.
pub proof fn lemma_hex_chars_ascii(s: Seq<char>)
    requires
        is_hex_chars(s),
    ensures
        is_ascii_chars(s),
{
    assert forall|i: int| 0 <= i < s.len() implies '\0' <= #[trigger] s[i] <= '\u{7f}' by {
        assert(is_hex_char(s[i]));
        let u = s[i] as u32;
        vstd::utf8::char_u32_cast(s[i], u);
        assert(u <= 102);
        assert((u as char) == s[i]);
    }
}

/// Decoding the hex encoding of any byte sequence gives those bytes back.
pub proof fn lemma_unhex_hex_of(b: Seq<u8>)
    ensures
        unhex(hex_of(b)) =~= b,
{
    assert forall|i: int| 0 <= i < b.len() implies unhex(hex_of(b))[i] == b[i] by {
        let hi = b[i] / 16;
        let lo = b[i] % 16;
        assert(hex_of(b)[2 * i] == hex_digit(hi));
        assert(hex_of(b)[2 * i + 1] == hex_digit(lo));
        assert(hex_val(hex_digit(hi)) == hi);
        assert(hex_val(hex_digit(lo)) == lo);
    }
}

// ---------------------------------------------------------------------------
// Canonical object bytes
// ---------------------------------------------------------------------------

/// The canonical on-disk byte representation of an object:
/// `"<kind> <decimal payload length>\0<payload>"`.
pub open spec fn obj_bytes(kind: Types, data: Seq<u8>) -> Seq<u8> {
    encode_utf8(kind.chars()) + seq![32u8] + dec_bytes(data.len()) + seq![0u8] + data
}

/// Build the canonical byte representation of an object.
pub fn encode_object(kind: Types, data: &Vec<u8>) -> (r: Vec<u8>)
    ensures
        r@ == obj_bytes(kind, data@),
{
    let kind_str = kind.as_string();
    let mut out = kind_str.as_str().as_bytes_vec();
    out.push(32u8);
    let mut digits = usize_to_dec(data.len());
    out.append(&mut digits);
    out.push(0u8);
    let mut payload = slice_to_vec(data.as_slice());
    out.append(&mut payload);
    proof {
        assert(out@ =~= obj_bytes(kind, data@));
    }
    out
}

// ---------------------------------------------------------------------------
// The content digest
// ---------------------------------------------------------------------------

/// The digest that addresses objects, named but never written out: it stands
/// for what the digest call returns on the given bytes, the same in every
/// process.
pub uninterp spec fn sha1_of(bytes: Seq<u8>) -> Seq<u8>;

/// Relies on `ring::digest::digest` with `SHA1_FOR_LEGACY_USE_ONLY`: the
/// digest is a function of the input bytes alone and is 20 bytes long
/// (`ring::digest::SHA1_OUTPUT_LEN`).
#[verifier::external_body]
pub(crate) fn sha1(data: &Vec<u8>) -> (r: Vec<u8>)
    ensures
        r@ == sha1_of(data@),
        r@.len() == 20,
{
    ring::digest::digest(&ring::digest::SHA1_FOR_LEGACY_USE_ONLY, data.as_slice()).as_ref().to_vec()
}

/// Relies on `hex::encode`: lowercase hex, two digits for each input byte.
#[verifier::external_body]
pub(crate) fn hex_encode(data: &Vec<u8>) -> (r: String)
    ensures
        r@ == hex_of(data@),
{
    hex::encode(data.as_slice())
}

/// Relies on `hex::decode`: an even-length lowercase hex string decodes
/// without error to the bytes it denotes.
#[verifier::external_body]
pub(crate) fn hex_decode(s: &String) -> (r: Vec<u8>)
    requires
        is_hex_chars(s@),
        s@.len() % 2 == 0,
    ensures
        r@ == unhex(s@),
{
    match hex::decode(s.as_str()) {
        Ok(v) => v,
        Err(_) => Vec::new(),
    }
}

// ---------------------------------------------------------------------------
// Decoding canonical bytes
// ---------------------------------------------------------------------------

/// The header prefix that identifies an object's kind: the kind tag and a
/// space.
pub open spec fn kind_prefix(k: Types) -> Seq<u8> {
    encode_utf8(k.chars()) + seq![32u8]
}

pub proof fn lemma_kind_shape(k: Types)
    ensures
        is_ascii_chars(k.chars()),
        k.chars().len() == (match k {
            Types::Blob => 4int,
            Types::Tree => 4int,
            Types::Commit => 6int,
        }),
        forall|i: int| 0 <= i < k.chars().len() ==> (#[trigger] k.chars()[i] as u32) >= 98,
        k.chars()[0] == (match k {
            Types::Blob => 'b',
            Types::Tree => 't',
            Types::Commit => 'c',
        }),
        kind_prefix(k).len() == k.chars().len() + 1,
        kind_prefix(k)[0] == (match k {
            Types::Blob => 98u8,
            Types::Tree => 116u8,
            Types::Commit => 99u8,
        }),
{
    reveal_strlit("blob");
    reveal_strlit("tree");
    reveal_strlit("commit");
    match k {
        Types::Blob => {
            let s = "blob"@;
            assert(s[0] == 'b' && s[1] == 'l' && s[2] == 'o' && s[3] == 'b');
            assert forall|i: int| 0 <= i < s.len() implies (#[trigger] s[i] as u32) >= 98 by {
                assert(i == 0 || i == 1 || i == 2 || i == 3);
            }
            assert forall|i: int| 0 <= i < s.len() implies '\0' <= #[trigger] s[i] <= '\u{7f}' by {
                assert(i == 0 || i == 1 || i == 2 || i == 3);
            }
        },
        Types::Tree => {
            let s = "tree"@;
            assert(s[0] == 't' && s[1] == 'r' && s[2] == 'e' && s[3] == 'e');
            assert forall|i: int| 0 <= i < s.len() implies (#[trigger] s[i] as u32) >= 98 by {
                assert(i == 0 || i == 1 || i == 2 || i == 3);
            }
            assert forall|i: int| 0 <= i < s.len() implies '\0' <= #[trigger] s[i] <= '\u{7f}' by {
                assert(i == 0 || i == 1 || i == 2 || i == 3);
            }
        },
        Types::Commit => {
            let s = "commit"@;
            assert(s[0] == 'c' && s[1] == 'o' && s[2] == 'm' && s[3] == 'm' && s[4] == 'i' && s[5]
                == 't');
            assert forall|i: int| 0 <= i < s.len() implies (#[trigger] s[i] as u32) >= 98 by {
                assert(i == 0 || i == 1 || i == 2 || i == 3 || i == 4 || i == 5);
            }
            assert forall|i: int| 0 <= i < s.len() implies '\0' <= #[trigger] s[i] <= '\u{7f}' by {
                assert(i == 0 || i == 1 || i == 2 || i == 3 || i == 4 || i == 5);
            }
        },
    }
    vstd::utf8::is_ascii_chars_encode_utf8(k.chars());
}

pub proof fn lemma_dec_bytes_digits(n: nat)
    ensures
        dec_bytes(n).len() >= 1,
        forall|i: int| 0 <= i < dec_bytes(n).len() ==> 48 <= #[trigger] dec_bytes(n)[i] <= 57,
    decreases n,
{
    if n >= 10 {
        lemma_dec_bytes_digits(n / 10);
    }
}

/// The length of an object's header, up to but not including the NUL.
pub open spec fn header_len(k: Types, d: Seq<u8>) -> int {
    k.chars().len() + 1 + dec_bytes(d.len()).len() as int
}

/// How canonical bytes are laid out: a NUL-free header naming the kind and the
/// payload length, one NUL, then the payload verbatim.
pub proof fn lemma_obj_bytes_shape(k: Types, d: Seq<u8>)
    ensures
        obj_bytes(k, d).len() == header_len(k, d) + 1 + d.len(),
        forall|i: int| 0 <= i < header_len(k, d) ==> #[trigger] obj_bytes(k, d)[i] != 0,
        obj_bytes(k, d)[header_len(k, d)] == 0,
        obj_bytes(k, d).subrange(header_len(k, d) + 1, obj_bytes(k, d).len() as int) =~= d,
        obj_bytes(k, d).subrange(0, k.chars().len() as int + 1) =~= kind_prefix(k),
        obj_bytes(k, d)[0] == (match k {
            Types::Blob => 98u8,
            Types::Tree => 116u8,
            Types::Commit => 99u8,
        }),
{
    lemma_kind_shape(k);
    vstd::utf8::is_ascii_chars_encode_utf8(k.chars());
    lemma_dec_bytes_digits(d.len());
    let e = encode_utf8(k.chars());
    let hl = header_len(k, d);
    let b = obj_bytes(k, d);
    assert forall|i: int| 0 <= i < hl implies #[trigger] b[i] != 0 by {
        if i < e.len() {
            assert(b[i] == e[i]);
            assert(e[i] == k.chars()[i] as u8);
            assert((k.chars()[i] as u32) >= 98);
        } else if i == e.len() {
            assert(b[i] == 32u8);
        } else {
            assert(b[i] == dec_bytes(d.len())[i - e.len() - 1]);
        }
    }
}

/// Canonical bytes pin the object down: equal encodings mean equal kind and
/// equal payload. This is the round-trip law behind decoding: the stored
/// bytes of an object determine exactly one (kind, payload) pair.
pub proof fn lemma_obj_bytes_injective(k1: Types, d1: Seq<u8>, k2: Types, d2: Seq<u8>)
    requires
        obj_bytes(k1, d1) == obj_bytes(k2, d2),
    ensures
        k1 == k2,
        d1 == d2,
{
    lemma_obj_bytes_shape(k1, d1);
    lemma_obj_bytes_shape(k2, d2);
    let b = obj_bytes(k1, d1);
    assert(b[0] == obj_bytes(k2, d2)[0]);
    assert(k1 == k2);
    let h1 = header_len(k1, d1);
    let h2 = header_len(k2, d2);
    if h1 < h2 {
        assert(b[h1] == 0);
        assert(obj_bytes(k2, d2)[h1] != 0);
    } else if h2 < h1 {
        assert(b[h2] != 0);
        assert(obj_bytes(k2, d2)[h2] == 0);
    }
    assert(h1 == h2);
    assert(d1 =~= d2) by {
        assert(d1 =~= b.subrange(h1 + 1, b.len() as int));
        assert(d2 =~= obj_bytes(k2, d2).subrange(h2 + 1, obj_bytes(k2, d2).len() as int));
    }
}

fn has_prefix(bytes: &Vec<u8>, p: &Vec<u8>) -> (r: bool)
    ensures
        r == (p@.len() <= bytes@.len() && bytes@.subrange(0, p@.len() as int) == p@),
{
    if p.len() > bytes.len() {
        return false;
    }
    let mut i: usize = 0;
    while i < p.len()
        invariant
            i <= p.len() <= bytes.len(),
            forall|j: int| 0 <= j < i ==> bytes@[j] == p@[j],
        decreases p.len() - i,
    {
        if bytes[i] != p[i] {
            proof {
                assert(bytes@.subrange(0, p@.len() as int)[i as int] != p@[i as int]);
            }
            return false;
        }
        i += 1;
    }
    proof {
        assert(bytes@.subrange(0, p@.len() as int) =~= p@);
    }
    true
}

fn find_nul(bytes: &Vec<u8>) -> (r: Option<usize>)
    ensures
        match r {
            Some(z) => z < bytes@.len() && bytes@[z as int] == 0 && forall|j: int|
                0 <= j < z ==> bytes@[j] != 0,
            None => forall|j: int| 0 <= j < bytes@.len() ==> bytes@[j] != 0,
        },
{
    let mut i: usize = 0;
    while i < bytes.len()
        invariant
            i <= bytes.len(),
            forall|j: int| 0 <= j < i ==> bytes@[j] != 0,
        decreases bytes.len() - i,
    {
        if bytes[i] == 0 {
            return Some(i);
        }
        i += 1;
    }
    None
}

fn eq_bytes(a: &Vec<u8>, b: &Vec<u8>) -> (r: bool)
    ensures
        r == (a@ == b@),
{
    if a.len() != b.len() {
        return false;
    }
    let mut i: usize = 0;
    while i < a.len()
        invariant
            i <= a.len() == b.len(),
            forall|j: int| 0 <= j < i ==> a@[j] == b@[j],
        decreases a.len() - i,
    {
        if a[i] != b[i] {
            return false;
        }
        i += 1;
    }
    proof {
        assert(a@ =~= b@);
    }
    true
}

proof fn lemma_prefix_of_obj_bytes(k: Types, d: Seq<u8>)
    ensures
        obj_bytes(k, d).len() >= k.chars().len() + 1,
        obj_bytes(k, d).subrange(0, k.chars().len() as int + 1) =~= kind_prefix(k),
{
    lemma_obj_bytes_shape(k, d);
}

/// Look for one of the three kind headers at the front of the bytes.
fn detect_kind(bytes: &Vec<u8>) -> (r: Option<Types>)
    ensures
        match r {
            Some(k) => bytes@.len() >= kind_prefix(k).len() && bytes@.subrange(
                0,
                kind_prefix(k).len() as int,
            ) == kind_prefix(k),
            None => forall|k: Types|
                !(bytes@.len() >= (#[trigger] kind_prefix(k)).len() && bytes@.subrange(
                    0,
                    kind_prefix(k).len() as int,
                ) == kind_prefix(k)),
        },
{
    let pb = ("blob ").as_bytes_vec();
    let pt = ("tree ").as_bytes_vec();
    let pc = ("commit ").as_bytes_vec();
    proof {
        reveal_strlit("blob ");
        reveal_strlit("tree ");
        reveal_strlit("commit ");
        reveal_strlit("blob");
        reveal_strlit("tree");
        reveal_strlit("commit");
        lemma_kind_shape(Types::Blob);
        lemma_kind_shape(Types::Tree);
        lemma_kind_shape(Types::Commit);
        assert(is_ascii_chars("blob "@)) by {
            assert forall|i: int| 0 <= i < "blob "@.len() implies '\0' <= #[trigger] "blob "@[i]
                <= '\u{7f}' by {
                assert(i == 0 || i == 1 || i == 2 || i == 3 || i == 4);
            }
        }
        assert(is_ascii_chars("tree "@)) by {
            assert forall|i: int| 0 <= i < "tree "@.len() implies '\0' <= #[trigger] "tree "@[i]
                <= '\u{7f}' by {
                assert(i == 0 || i == 1 || i == 2 || i == 3 || i == 4);
            }
        }
        assert(is_ascii_chars("commit "@)) by {
            assert forall|i: int|
                0 <= i < "commit "@.len() implies '\0' <= #[trigger] "commit "@[i] <= '\u{7f}' by {
                assert(i == 0 || i == 1 || i == 2 || i == 3 || i == 4 || i == 5 || i == 6);
            }
        }
        vstd::utf8::is_ascii_chars_encode_utf8("blob "@);
        vstd::utf8::is_ascii_chars_encode_utf8("tree "@);
        vstd::utf8::is_ascii_chars_encode_utf8("commit "@);
        vstd::utf8::is_ascii_chars_encode_utf8(Types::Blob.chars());
        vstd::utf8::is_ascii_chars_encode_utf8(Types::Tree.chars());
        vstd::utf8::is_ascii_chars_encode_utf8(Types::Commit.chars());
        assert forall|i: int| 0 <= i < 5 implies pb@[i] == kind_prefix(Types::Blob)[i] by {
            assert(i == 0 || i == 1 || i == 2 || i == 3 || i == 4);
            assert(pb@[i] == "blob "@[i] as u8);
            if i < 4 {
                assert(kind_prefix(Types::Blob)[i] == "blob"@[i] as u8);
            } else {
                assert("blob "@[4] == ' ');
                assert(kind_prefix(Types::Blob)[i] == 32u8);
            }
        }
        assert(pb@ =~= kind_prefix(Types::Blob));
        assert forall|i: int| 0 <= i < 5 implies pt@[i] == kind_prefix(Types::Tree)[i] by {
            assert(i == 0 || i == 1 || i == 2 || i == 3 || i == 4);
            assert(pt@[i] == "tree "@[i] as u8);
            if i < 4 {
                assert(kind_prefix(Types::Tree)[i] == "tree"@[i] as u8);
            } else {
                assert("tree "@[4] == ' ');
                assert(kind_prefix(Types::Tree)[i] == 32u8);
            }
        }
        assert(pt@ =~= kind_prefix(Types::Tree));
        assert forall|i: int| 0 <= i < 7 implies pc@[i] == kind_prefix(Types::Commit)[i] by {
            assert(i == 0 || i == 1 || i == 2 || i == 3 || i == 4 || i == 5 || i == 6);
            assert(pc@[i] == "commit "@[i] as u8);
            if i < 6 {
                assert(kind_prefix(Types::Commit)[i] == "commit"@[i] as u8);
            } else {
                assert("commit "@[6] == ' ');
                assert(kind_prefix(Types::Commit)[i] == 32u8);
            }
        }
        assert(pc@ =~= kind_prefix(Types::Commit));
    }
    if has_prefix(bytes, &pb) {
        Some(Types::Blob)
    } else if has_prefix(bytes, &pt) {
        Some(Types::Tree)
    } else if has_prefix(bytes, &pc) {
        Some(Types::Commit)
    } else {
        proof {
            assert forall|k: Types|
                !(bytes@.len() >= (#[trigger] kind_prefix(k)).len() && bytes@.subrange(
                    0,
                    kind_prefix(k).len() as int,
                ) == kind_prefix(k)) by {
                match k {
                    Types::Blob => {},
                    Types::Tree => {},
                    Types::Commit => {},
                }
            }
        }
        None
    }
}

/// Decode canonical object bytes back into their kind and payload.
///
/// Succeeds exactly on byte strings that are the canonical encoding of some
/// object, and then returns that object's kind and its exact payload bytes,
/// embedded NUL bytes included.
pub fn decode_object(bytes: &Vec<u8>) -> (r: Result<(Types, Vec<u8>), RitError>)
    ensures
        r matches Ok(p) ==> bytes@ == obj_bytes(p.0, p.1@),
        forall|k: Types, d: Seq<u8>|
            bytes@ == obj_bytes(k, d) ==> (r matches Ok(p) && p.0 == k && p.1@ == d),
        r is Err ==> r == Err::<(Types, Vec<u8>), RitError>(RitError::Corrupt),
{
    let kind: Types;
    match detect_kind(bytes) {
        Some(k0) => {
            kind = k0;
        },
        None => {
            proof {
                assert forall|k: Types, d: Seq<u8>| bytes@ != obj_bytes(k, d) by {
                    if bytes@ == obj_bytes(k, d) {
                        lemma_prefix_of_obj_bytes(k, d);
                        lemma_kind_shape(k);
                    }
                }
            }
            return Err(RitError::Corrupt);
        },
    }
    match find_nul(bytes) {
        None => {
            proof {
                assert forall|k: Types, d: Seq<u8>| bytes@ != obj_bytes(k, d) by {
                    if bytes@ == obj_bytes(k, d) {
                        lemma_obj_bytes_shape(k, d);
                        assert(bytes@[header_len(k, d)] == 0);
                    }
                }
            }
            Err(RitError::Corrupt)
        },
        Some(z) => {
            let n = bytes.len();
            let payload = slice_to_vec(slice_subrange(bytes.as_slice(), z + 1, n));
            let enc = encode_object(kind, &payload);
            if eq_bytes(&enc, bytes) {
                proof {
                    assert forall|k: Types, d: Seq<u8>| bytes@ == obj_bytes(k, d) implies kind == k
                        && payload@ == d by {
                        lemma_obj_bytes_injective(kind, payload@, k, d);
                    }
                }
                Ok((kind, payload))
            } else {
                proof {
                    assert forall|k: Types, d: Seq<u8>| bytes@ != obj_bytes(k, d) by {
                        if bytes@ == obj_bytes(k, d) {
                            lemma_obj_bytes_shape(k, d);
                            lemma_kind_shape(Types::Blob);
                            lemma_kind_shape(Types::Tree);
                            lemma_kind_shape(Types::Commit);
                            assert(kind == k) by {
                                assert(bytes@.subrange(0, kind_prefix(kind).len() as int)[0]
                                    == bytes@[0]);
                                assert(bytes@[0] == kind_prefix(kind)[0]);
                                assert(bytes@[0] == obj_bytes(k, d)[0]);
                            }
                            assert(z == header_len(k, d)) by {
                                if (z as int) < header_len(k, d) {
                                    assert(bytes@[z as int] != 0);
                                } else if header_len(k, d) < (z as int) {
                                    assert(bytes@[header_len(k, d)] != 0);
                                }
                            }
                            assert(payload@ =~= d);
                            assert(enc@ == bytes@);
                        }
                    }
                }
                Err(RitError::Corrupt)
            }
        },
    }
}

/// Determinism: byte-identical payloads of one kind give identical canonical
/// bytes and an identical object id, on every call.
pub proof fn lemma_hash_deterministic(k: Types, d1: Seq<u8>, d2: Seq<u8>)
    requires
        d1 == d2,
    ensures
        obj_bytes(k, d1) == obj_bytes(k, d2),
        oid_of(k, d1) == oid_of(k, d2),
{
}

/// The object id of an object with the given kind and payload: the hex-encoded
/// digest of its canonical bytes.
pub open spec fn oid_of(kind: Types, data: Seq<u8>) -> Seq<char> {
    hex_of(sha1_of(obj_bytes(kind, data)))
}

/// Hash canonical object bytes into the hex object id used as a storage key.
pub fn hash_content(content: &Vec<u8>) -> (r: String)
    ensures
        r@ == hex_of(sha1_of(content@)),
        is_oid_chars(r@),
{
    let digest = sha1(content);
    let r = hex_encode(&digest);
    proof {
        lemma_hex_of_valid(digest@);
    }
    r
}

} // verus!

//! Content digests: BLAKE3 and SHA-256 through their crates, and the
//! lowercase hexadecimal text of a digest.

use sha2::Digest;
use vstd::prelude::*;

verus! {

/// The big-endian value of `bytes`.
pub open spec fn be_value(bytes: Seq<u8>) -> nat
    decreases bytes.len(),
{
    if bytes.len() == 0 {
        0
    } else {
        be_value(bytes.drop_last()) * 256 + bytes.last() as nat
    }
}

/// The big-endian value of the sixteen bytes of `bytes` from `from`.
pub fn be_u128(bytes: &[u8], from: usize) -> (value: u128)
    requires
        from + 16 <= bytes@.len(),
    ensures
        value == be_value(bytes@.subrange(from as int, from + 16)),
{
    let ghost s = bytes@.subrange(from as int, from + 16);
    let n = bytes.len();
    let mut value: u128 = 0;
    let mut k: usize = 0;
    proof {
        vstd::arithmetic::power2::lemma2_to64();
    }
    while k < 16
        invariant
            k <= 16,
            n == bytes@.len(),
            from + 16 <= bytes@.len(),
            s == bytes@.subrange(from as int, from + 16),
            value == be_value(s.take(k as int)),
            be_value(s.take(k as int)) < vstd::arithmetic::power2::pow2(8 * k as nat),
        decreases 16 - k,
    {
        let ghost before = value as nat;
        let ghost p = vstd::arithmetic::power2::pow2(8 * k as nat);
        let b = bytes[from + k];
        proof {
            assert(s[k as int] == b);
            assert(s.take(k + 1).drop_last() =~= s.take(k as int));
            vstd::arithmetic::power2::lemma_pow2_adds(8 * k as nat, 8);
            vstd::arithmetic::power2::lemma2_to64();
            assert(vstd::arithmetic::power2::pow2(8) == 256);
            vstd::arithmetic::power2::lemma_pow2_adds(64, 64);
            if k + 1 < 16 {
                vstd::arithmetic::power2::lemma_pow2_strictly_increases(8 * (k + 1) as nat, 128);
            }
            assert(vstd::arithmetic::power2::pow2(128) == 0x1_0000_0000_0000_0000_0000_0000_0000_0000);
            assert(before * 256 + b < p * 256) by (nonlinear_arith)
                requires
                    before < p,
                    b < 256,
            ;
        }
        value = value * 256 + b as u128;
        k = k + 1;
    }
    assert(s.take(16) =~= s);
    value
}

/// The value of the hexadecimal digit `c`, in either case.
pub open spec fn hex_value(c: char) -> Option<u8> {
    if '0' <= c <= '9' {
        Some((c as u32 - '0' as u32) as u8)
    } else if 'a' <= c <= 'f' {
        Some((c as u32 - 'a' as u32 + 10) as u8)
    } else if 'A' <= c <= 'F' {
        Some((c as u32 - 'A' as u32 + 10) as u8)
    } else {
        None
    }
}

/// The bytes that hexadecimal text `s` spells, two digits per byte with the
/// high nibble first; none when `s` has an odd number of characters or a
/// character that is no hexadecimal digit.
pub open spec fn hex_decoded(s: Seq<char>) -> Option<Seq<u8>> {
    if s.len() % 2 != 0 || exists|i: int| 0 <= i < s.len() && hex_value(#[trigger] s[i]) is None {
        None
    } else {
        Some(Seq::new(s.len() / 2, |i: int| (hex_value(s[2 * i]).unwrap() * 16 + hex_value(s[2 * i + 1]).unwrap()) as u8))
    }
}

/// The message with which `hex::decode` refuses `s`.
pub uninterp spec fn hex_decode_failure(s: Seq<char>) -> Seq<char>;

/// `hex::decode`: the bytes that `s` spells as `hex_decoded` states, or the
/// error's message, named by `hex_decode_failure`.
#[verifier::external_body]
pub(crate) fn hex_decode(s: &str) -> (r: Result<Vec<u8>, String>)
    ensures
        r matches Ok(bytes) ==> hex_decoded(s@) == Some(bytes@),
        r matches Err(message) ==> hex_decoded(s@) is None && message@ == hex_decode_failure(s@),
{
    match hex::decode(s) {
        Ok(bytes) => Ok(bytes),
        Err(error) => Err(error.to_string()),
    }
}

/// The 32-byte BLAKE3 hash of `data`.
pub uninterp spec fn blake3_digest(data: Seq<u8>) -> Seq<u8>;

/// The 32-byte BLAKE3 keyed hash of `data` under `key`.
pub uninterp spec fn blake3_keyed_digest(key: Seq<u8>, data: Seq<u8>) -> Seq<u8>;

/// The 32-byte SHA-256 digest of `data`.
pub uninterp spec fn sha256_digest(data: Seq<u8>) -> Seq<u8>;

/// `blake3::hash`: the BLAKE3 hash of `data`, named by `blake3_digest`.
#[verifier::external_body]
pub(crate) fn blake3_hash(data: &[u8]) -> (out: [u8; 32])
    ensures
        out@ == blake3_digest(data@),
{
    *blake3::hash(data).as_bytes()
}

/// `blake3::keyed_hash` (the one-call form of `Hasher::new_keyed`, `update`,
/// `finalize`): the keyed hash of `data` under `key`, named by
/// `blake3_keyed_digest`.
#[verifier::external_body]
pub(crate) fn blake3_keyed(key: &[u8; 32], data: &[u8]) -> (out: [u8; 32])
    ensures
        out@ == blake3_keyed_digest(key@, data@),
{
    *blake3::keyed_hash(key, data).as_bytes()
}

/// `<sha2::Sha256 as Digest>::digest`: the SHA-256 digest of `data`, named by
/// `sha256_digest`.
#[verifier::external_body]
pub(crate) fn sha256(data: &[u8]) -> (out: [u8; 32])
    ensures
        out@ == sha256_digest(data@),
{
    sha2::Sha256::digest(data).into()
}

/// The lowercase hexadecimal digit of `d`.
pub open spec fn hex_digit(d: u8) -> char {
    if d < 10 {
        ((d as int) + ('0' as int)) as char
    } else {
        ((d as int) - 10 + ('a' as int)) as char
    }
}

/// Two lowercase hexadecimal digits per byte, high nibble first.
pub open spec fn hex_text(bytes: Seq<u8>) -> Seq<char>
    decreases bytes.len(),
{
    if bytes.len() == 0 {
        Seq::empty()
    } else {
        hex_text(bytes.drop_last()) + seq![hex_digit(bytes.last() / 16), hex_digit(bytes.last() % 16)]
    }
}

pub(crate) fn hex_digit_text(d: u8) -> (s: &'static str)
    requires
        d < 16,
    ensures
        s@ == seq![hex_digit(d)],
{
    proof {
        reveal_strlit("0");
        reveal_strlit("1");
        reveal_strlit("2");
        reveal_strlit("3");
        reveal_strlit("4");
        reveal_strlit("5");
        reveal_strlit("6");
        reveal_strlit("7");
        reveal_strlit("8");
        reveal_strlit("9");
        reveal_strlit("a");
        reveal_strlit("b");
        reveal_strlit("c");
        reveal_strlit("d");
        reveal_strlit("e");
        reveal_strlit("f");
    }
    let table = ["0", "1", "2", "3", "4", "5", "6", "7", "8", "9", "a", "b", "c", "d", "e", "f"];
    let s = table[d as usize];
    assert(s@ == seq![hex_digit(d)]) by {
        if d == 0 { } else if d == 1 { } else if d == 2 { } else if d == 3 { } else if d == 4 { } else if d == 5 {
        } else if d == 6 { } else if d == 7 { } else if d == 8 { } else if d == 9 { } else if d == 10 {
        } else if d == 11 { } else if d == 12 { } else if d == 13 { } else if d == 14 { } else { }
    }
    s
}

/// The lowercase hexadecimal text of `bytes`, as `hex::encode` and BLAKE3's
/// `to_hex` write it.
pub fn hex_encode(bytes: &[u8]) -> (text: String)
    ensures
        text@ == hex_text(bytes@),
{
    let mut text = String::new();
    let n = bytes.len();
    let mut i: usize = 0;
    assert(bytes@.take(0) =~= Seq::<u8>::empty());
    while i < n
        invariant
            n == bytes@.len(),
            i <= n,
            text@ == hex_text(bytes@.take(i as int)),
        decreases n - i,
    {
        let b = bytes[i];
        text.append(hex_digit_text(b / 16));
        text.append(hex_digit_text(b % 16));
        assert(bytes@.take(i + 1).drop_last() =~= bytes@.take(i as int));
        i = i + 1;
    }
    assert(bytes@.take(n as int) =~= bytes@);
    text
}

} // verus!

verus! {

/// Hexadecimal text reads back as the bytes it was written from: the text
/// has two digits per byte, and decoding it gives the bytes again.
pub proof fn law_hex_round_trip(bytes: Seq<u8>)
    ensures
        hex_text(bytes).len() == 2 * bytes.len(),
        hex_decoded(hex_text(bytes)) == Some(bytes),
{
    lemma_hex_text_digits(bytes);
    let t = hex_text(bytes);
    assert forall|i: int| 0 <= i < t.len() implies hex_value(#[trigger] t[i]) is Some by {
        let k = i / 2;
        if i % 2 == 0 {
            assert(i == 2 * k);
            lemma_hex_digit_value((bytes[k] / 16) as u8);
        } else {
            assert(i == 2 * k + 1);
            lemma_hex_digit_value((bytes[k] % 16) as u8);
        }
    }
    let decoded = Seq::new(t.len() / 2, |i: int| (hex_value(t[2 * i]).unwrap() * 16 + hex_value(t[2 * i + 1]).unwrap()) as u8);
    assert(t.len() % 2 == 0);
    assert forall|k: int| 0 <= k < bytes.len() implies decoded[k] == bytes[k] by {
        lemma_hex_digit_value((bytes[k] / 16) as u8);
        lemma_hex_digit_value((bytes[k] % 16) as u8);
        assert(bytes[k] == (bytes[k] / 16) * 16 + bytes[k] % 16);
    }
    assert(decoded =~= bytes);
}

proof fn lemma_hex_digit_value(d: u8)
    requires
        d < 16,
    ensures
        hex_value(hex_digit(d)) == Some(d),
{
    if d < 10 {
        assert('0' <= hex_digit(d) <= '9');
        assert((hex_digit(d) as u32) == d + ('0' as u32));
    } else {
        assert('a' <= hex_digit(d) <= 'f');
        assert((hex_digit(d) as u32) == d - 10 + ('a' as u32));
    }
}

proof fn lemma_hex_text_digits(bytes: Seq<u8>)
    ensures
        hex_text(bytes).len() == 2 * bytes.len(),
        forall|k: int|
            0 <= k < bytes.len() ==> hex_text(bytes)[2 * k] == hex_digit(#[trigger] bytes[k] / 16) && hex_text(bytes)[2 * k + 1]
                == hex_digit(bytes[k] % 16),
    decreases bytes.len(),
{
    if bytes.len() > 0 {
        let front = bytes.drop_last();
        lemma_hex_text_digits(front);
        let t = hex_text(bytes);
        let last = bytes.last();
        assert(t == hex_text(front) + seq![hex_digit(last / 16), hex_digit(last % 16)]);
        assert forall|k: int| 0 <= k < bytes.len() implies t[2 * k] == hex_digit(#[trigger] bytes[k] / 16) && t[2 * k + 1]
            == hex_digit(bytes[k] % 16) by {
            if k < front.len() {
                assert(front[k] == bytes[k]);
            }
        }
    }
}

} // verus!

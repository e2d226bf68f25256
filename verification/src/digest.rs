//! SHA-512 digests of strings, written as lower-case hexadecimal: the form in
//! which the password list stores a password and in which a session token is
//! handed to the browser.
use sha2::{Digest, Sha512};
use vstd::prelude::*;

verus! {

/// The SHA-512 digest of a byte sequence.
pub uninterp spec fn sha512(data: Seq<u8>) -> Seq<u8>;

/// Calls `sha2::Sha512::digest`. Trusted to give the digest of exactly the
/// bytes handed in (named `sha512`) and, as SHA-512 does, 64 bytes; nothing is
/// claimed of which bytes they are.
#[verifier::external_body]
fn sha512_digest(data: &[u8]) -> (d: Vec<u8>)
    ensures
        d@ == sha512(data@),
        d@.len() == 64,
{
    Sha512::digest(data).to_vec()
}

/// The lower-case hexadecimal digit for `n < 16`.
pub open spec fn hex_digit(n: int) -> char {
    if n < 10 {
        (48 + n) as char
    } else {
        (87 + n) as char
    }
}

/// Bytes written as lower-case hexadecimal, two digits per byte, high half first.
pub open spec fn lower_hex(b: Seq<u8>) -> Seq<char>
    decreases b.len(),
{
    if b.len() == 0 {
        seq![]
    } else {
        lower_hex(b.drop_last()) + seq![hex_digit(b.last() as int / 16), hex_digit(b.last() as int % 16)]
    }
}

/// The UTF-8 bytes of a string.
pub open spec fn utf8(s: Seq<char>) -> Seq<u8> {
    vstd::utf8::encode_utf8(s)
}

/// What `generate_sha512_string` gives of a string: the digest of its UTF-8
/// bytes in lower-case hexadecimal.
pub open spec fn sha512_hex(s: Seq<char>) -> Seq<char> {
    lower_hex(sha512(utf8(s)))
}

fn hex_char(n: u8) -> (c: char)
    requires
        n < 16,
    ensures
        c == hex_digit(n as int),
{
    if n < 10 {
        (48 + n) as char
    } else {
        (87 + n) as char
    }
}

/// `bytes` in lower-case hexadecimal.
pub fn to_lower_hex(bytes: &Vec<u8>) -> (s: String)
    ensures
        s@ == lower_hex(bytes@),
{
    let mut s = String::new();
    let mut i: usize = 0;
    proof {
        assert(bytes@.take(0) =~= Seq::<u8>::empty());
    }
    while i < bytes.len()
        invariant
            i <= bytes@.len(),
            s@ == lower_hex(bytes@.take(i as int)),
        decreases bytes@.len() - i,
    {
        let b = bytes[i];
        s.push(hex_char(b / 16));
        s.push(hex_char(b % 16));
        proof {
            let t = bytes@.take(i + 1);
            assert(t.drop_last() =~= bytes@.take(i as int));
            assert(t.last() == b);
        }
        i = i + 1;
    }
    proof {
        assert(bytes@.take(bytes@.len() as int) =~= bytes@);
    }
    s
}

/// Every character of a hexadecimal string is a digit or a letter `a` to `f`.
pub proof fn lemma_lower_hex_digits(b: Seq<u8>)
    ensures
        forall|j: int|
            0 <= j < lower_hex(b).len() ==> {
                let c = #[trigger] lower_hex(b)[j];
                ('0' <= c <= '9') || ('a' <= c <= 'f')
            },
        lower_hex(b).len() == 2 * b.len(),
    decreases b.len(),
{
    if b.len() > 0 {
        lemma_lower_hex_digits(b.drop_last());
        let h = lower_hex(b.drop_last());
        let x = b.last() as int;
        assert(0 <= x / 16 < 16 && 0 <= x % 16 < 16);
        assert forall|j: int| 0 <= j < lower_hex(b).len() implies {
            let c = #[trigger] lower_hex(b)[j];
            ('0' <= c <= '9') || ('a' <= c <= 'f')
        } by {
            if j < h.len() {
                assert(lower_hex(b)[j] == h[j]);
            } else if j == h.len() {
                assert(lower_hex(b)[j] == hex_digit(x / 16));
            } else {
                assert(lower_hex(b)[j] == hex_digit(x % 16));
            }
        }
    }
}

/// The SHA-512 digest of the string's UTF-8 bytes, in lower-case hexadecimal
/// (128 characters).
pub fn generate_sha512_string(string: String) -> (digest: String)
    ensures
        digest@ == sha512_hex(string@),
        digest@.len() == 128,
{
    let d = sha512_digest(string.as_str().as_bytes());
    proof {
        lemma_lower_hex_digits(d@);
    }
    to_lower_hex(&d)
}

} // verus!

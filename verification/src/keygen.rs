//! Generation and formatting of client-authorization keypairs.
//!
//! The key material comes from the x25519 and base32 crates behind trusted
//! wrappers; assembling the configuration strings from the encoded keys is
//! verified.

use vstd::prelude::*;

verus! {

/// A container for generated client-authorization keys.
///
/// Holds the keys in the formats required for server and client
/// configuration.
pub struct TorKeys {
    /// The formatted string for the server-side configuration (public key).
    /// Format: `descriptor:x25519:<PUBLIC_KEY_BASE32>`
    pub server_string: String,
    /// The formatted string for the client-side configuration (private key).
    /// Format: `<PUBLIC_KEY_BASE32>:descriptor:x25519:<PRIVATE_KEY_BASE32>`
    pub client_string: String,
    /// The raw public key encoded in base32 (RFC 4648, no padding), lower
    /// case.
    pub public_b32: String,
}

/// The public key that x25519 derives from a 32-byte secret.
pub uninterp spec fn x25519_public_of(secret: Seq<u8>) -> Seq<u8>;

/// The RFC 4648 base32 rendering of a byte string, without padding.
pub uninterp spec fn base32_of(data: Seq<u8>) -> Seq<u8>;

/// A byte of the upper-case base32 alphabet: `A`..`Z` or `2`..`7`.
pub open spec fn is_b32_byte(b: u8) -> bool {
    (65 <= b && b <= 90) || (50 <= b && b <= 55)
}

/// A character of the lower-case base32 alphabet: `a`..`z` or `2`..`7`.
pub open spec fn is_b32l_char(c: char) -> bool {
    ('a' <= c && c <= 'z') || ('2' <= c && c <= '7')
}

/// The lower-case form of one ASCII byte.
pub open spec fn lower_byte(b: u8) -> u8 {
    if 65 <= b && b <= 90 {
        (b + 32) as u8
    } else {
        b
    }
}

/// The characters of an ASCII byte string.
pub open spec fn chars_of(s: Seq<u8>) -> Seq<char> {
    s.map_values(|b: u8| b as char)
}

/// The lower-case base32 rendering of a byte string, as characters: what one
/// key encodes to in the configuration strings.
pub open spec fn b32l(data: Seq<u8>) -> Seq<char> {
    chars_of(base32_of(data).map_values(|b: u8| lower_byte(b)))
}

/// Relies on `x25519_dalek::StaticSecret::random`: a fresh 32-byte secret key
/// from the system generator. Nothing is assumed of its value.
#[verifier::external_body]
fn fresh_secret_bytes() -> (r: Vec<u8>)
    ensures
        r@.len() == 32,
{
    x25519_dalek::StaticSecret::random().to_bytes().to_vec()
}

/// Relies on `x25519_dalek::PublicKey::From<&StaticSecret>`: the public key is
/// a function of the secret bytes alone, and is 32 bytes long.
#[verifier::external_body]
fn x25519_public_bytes(secret: &Vec<u8>) -> (r: Vec<u8>)
    requires
        secret@.len() == 32,
    ensures
        r@ == x25519_public_of(secret@),
        r@.len() == 32,
{
    let mut raw = [0u8; 32];
    raw.copy_from_slice(secret.as_slice());
    let sk = x25519_dalek::StaticSecret::from(raw);
    x25519_dalek::PublicKey::from(&sk).as_bytes().to_vec()
}

/// Relies on `base32::encode` with the RFC 4648 alphabet and no padding: the
/// result is a function of the input alone, one output byte per five input
/// bits (rounded up), every output byte from the upper-case base32 alphabet.
#[verifier::external_body]
fn base32_nopad(data: &Vec<u8>) -> (r: Vec<u8>)
    ensures
        r@ == base32_of(data@),
        r@.len() == (data@.len() * 8 + 4) / 5,
        forall|i: int| 0 <= i < r@.len() ==> is_b32_byte(#[trigger] r@[i]),
{
    base32::encode(base32::Alphabet::Rfc4648 { padding: false }, data.as_slice()).into_bytes()
}

/// Relies on `String::from_utf8`: ASCII bytes decode to the same code points,
/// one character per byte.
#[verifier::external_body]
fn ascii_string(v: Vec<u8>) -> (r: String)
    requires
        forall|i: int| 0 <= i < v@.len() ==> v@[i] < 128,
    ensures
        r@ == chars_of(v@),
{
    String::from_utf8(v).unwrap_or_default()
}

/// Lower-cases every byte of an ASCII string.
fn lower_bytes_exec(v: &Vec<u8>) -> (r: Vec<u8>)
    ensures
        r@ == v@.map_values(|b: u8| lower_byte(b)),
{
    let mut out: Vec<u8> = Vec::new();
    let mut i: usize = 0;
    while i < v.len()
        invariant
            i <= v@.len(),
            out@ == v@.take(i as int).map_values(|b: u8| lower_byte(b)),
        decreases v@.len() - i,
    {
        let b = v[i];
        if 65 <= b && b <= 90 {
            out.push(b + 32);
        } else {
            out.push(b);
        }
        proof {
            assert(v@.take(i + 1).drop_last() =~= v@.take(i as int));
            assert(v@.take(i + 1).map_values(|b: u8| lower_byte(b)) =~= v@.take(
                i as int,
            ).map_values(|b: u8| lower_byte(b)).push(lower_byte(v@[i as int])));
        }
        i = i + 1;
    }
    proof {
        assert(v@.take(v@.len() as int) =~= v@);
    }
    out
}

/// The configuration strings that a given 32-byte secret formats to. Both
/// encoded segments are 52 characters of the lower-case base32 alphabet — in
/// particular colon-free, so the client string splits on its separator into
/// exactly the two segments.
pub open spec fn keys_match(k: TorKeys, secret: Seq<u8>) -> bool {
    &&& k.public_b32@ == b32l(x25519_public_of(secret))
    &&& k.public_b32@.len() == 52
    &&& b32l(secret).len() == 52
    &&& forall|i: int| 0 <= i < k.public_b32@.len() ==> is_b32l_char(#[trigger] k.public_b32@[i])
    &&& forall|i: int| 0 <= i < b32l(secret).len() ==> is_b32l_char(#[trigger] b32l(secret)[i])
    &&& k.server_string@ == "descriptor:x25519:"@ + k.public_b32@
    &&& k.client_string@ == k.public_b32@ + ":descriptor:x25519:"@ + b32l(secret)
}

/// Formats one 32-byte secret into the server- and client-side configuration
/// strings.
pub fn keys_from_secret(secret: &Vec<u8>) -> (k: TorKeys)
    requires
        secret@.len() == 32,
    ensures
        keys_match(k, secret@),
{
    let public_bytes = x25519_public_bytes(secret);
    let public_upper = base32_nopad(&public_bytes);
    let public_lower = lower_bytes_exec(&public_upper);
    proof {
        assert(forall|i: int| 0 <= i < public_lower@.len() ==> public_lower@[i] < 128) by {
            assert(forall|i: int|
                0 <= i < public_upper@.len() ==> lower_byte(#[trigger] public_upper@[i]) < 128);
        }
    }
    let public_b32 = ascii_string(public_lower);
    let secret_upper = base32_nopad(secret);
    let secret_lower = lower_bytes_exec(&secret_upper);
    proof {
        assert(forall|i: int| 0 <= i < secret_lower@.len() ==> secret_lower@[i] < 128) by {
            assert(forall|i: int|
                0 <= i < secret_upper@.len() ==> lower_byte(#[trigger] secret_upper@[i]) < 128);
        }
    }
    let secret_b32 = ascii_string(secret_lower);
    let mut server_string = String::from_str("descriptor:x25519:");
    server_string.append(public_b32.as_str());
    let mut client_string = public_b32.clone();
    client_string.append(":descriptor:x25519:");
    client_string.append(secret_b32.as_str());
    TorKeys { server_string, client_string, public_b32 }
}

/// Generates a new ephemeral x25519 keypair for client authorization.
///
/// The secret is drawn fresh from the system generator; the returned strings
/// are its formats for the server and the client configuration.
pub fn generate_keys() -> (k: TorKeys)
    ensures
        exists|s: Seq<u8>| s.len() == 32 && keys_match(k, s),
{
    let secret = fresh_secret_bytes();
    let k = keys_from_secret(&secret);
    proof {
        assert(secret@.len() == 32 && keys_match(k, secret@));
    }
    k
}

/// The index of the last occurrence of `c` in `s`, or `-1` if `c` does not
/// occur.
pub open spec fn rfind_char(s: Seq<char>, c: char) -> int
    decreases s.len(),
{
    if s.len() == 0 {
        -1
    } else if s.last() == c {
        s.len() - 1
    } else {
        rfind_char(s.drop_last(), c)
    }
}

pub proof fn lemma_rfind_char(s: Seq<char>, c: char)
    ensures
        rfind_char(s, c) == -1 ==> forall|j: int| 0 <= j < s.len() ==> s[j] != c,
        rfind_char(s, c) != -1 ==> {
            let r = rfind_char(s, c);
            &&& 0 <= r < s.len()
            &&& s[r] == c
            &&& forall|j: int| r < j < s.len() ==> s[j] != c
        },
    decreases s.len(),
{
    if s.len() > 0 && s.last() != c {
        lemma_rfind_char(s.drop_last(), c);
        assert(forall|j: int| 0 <= j < s.len() - 1 ==> s[j] == s.drop_last()[j]);
    }
}

/// The part of a client configuration string after its last `:`: the encoded
/// secret key. A string without `:` is returned whole.
pub fn client_secret_part(client: &str) -> (r: String)
    ensures
        rfind_char(client@, ':') == -1 ==> r@ == client@,
        rfind_char(client@, ':') != -1 ==> r@ == client@.subrange(
            rfind_char(client@, ':') + 1,
            client@.len() as int,
        ),
{
    let len = client.unicode_len();
    let mut i: usize = len;
    while i > 0
        invariant
            i <= len,
            len == client@.len(),
            forall|j: int| i <= j < len ==> client@[j] != ':',
        decreases i,
    {
        if client.get_char(i - 1) == ':' {
            proof {
                lemma_rfind_char(client@, ':');
                assert(rfind_char(client@, ':') == i - 1);
            }
            return client.substring_char(i, len).to_owned();
        }
        i = i - 1;
    }
    proof {
        lemma_rfind_char(client@, ':');
    }
    client.to_owned()
}

} // verus!

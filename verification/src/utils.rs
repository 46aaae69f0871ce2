//! Digests and base64.
use vstd::prelude::*;
use vstd::string::*;
use vstd::utf8::*;

use base64::Engine;
use sha2::Digest;

use crate::text::{decimal, hex_bytes, same_text, to_hex_string};

verus! {

/// The digests there are.
#[derive(Clone, Copy, Debug, PartialEq, Eq, Structural)]
pub enum Hasher {
    Md5,
    Sha1,
    Sha224,
    Sha256,
    Sha384,
    Sha512,
}

/// The digest of a name.
pub open spec fn hasher_of(name: Seq<char>) -> Option<Hasher> {
    if name == "md5"@ {
        Some(Hasher::Md5)
    } else if name == "sha1"@ {
        Some(Hasher::Sha1)
    } else if name == "sha224"@ {
        Some(Hasher::Sha224)
    } else if name == "sha256"@ {
        Some(Hasher::Sha256)
    } else if name == "sha384"@ {
        Some(Hasher::Sha384)
    } else if name == "sha512"@ {
        Some(Hasher::Sha512)
    } else {
        None
    }
}

/// The MD5 digest of bytes.
pub uninterp spec fn md5_of(data: Seq<u8>) -> Seq<u8>;

/// `md5::Md5::digest` gives sixteen bytes that depend on the data alone.
#[verifier::external_body]
fn md5_digest(data: &[u8]) -> (r: Vec<u8>)
    ensures
        r@ == md5_of(data@),
        r@.len() == 16,
{
    md5::Md5::digest(data).to_vec()
}

/// The SHA-1 digest of bytes.
pub uninterp spec fn sha1_of(data: Seq<u8>) -> Seq<u8>;

/// `sha1::Sha1::digest` gives twenty bytes that depend on the data alone.
#[verifier::external_body]
fn sha1_digest(data: &[u8]) -> (r: Vec<u8>)
    ensures
        r@ == sha1_of(data@),
        r@.len() == 20,
{
    sha1::Sha1::digest(data).to_vec()
}

/// The SHA-224 digest of bytes.
pub uninterp spec fn sha224_of(data: Seq<u8>) -> Seq<u8>;

/// `sha2::Sha224::digest` gives 28 bytes that depend on the data alone.
#[verifier::external_body]
fn sha224_digest(data: &[u8]) -> (r: Vec<u8>)
    ensures
        r@ == sha224_of(data@),
        r@.len() == 28,
{
    sha2::Sha224::digest(data).to_vec()
}

/// The SHA-256 digest of bytes.
pub uninterp spec fn sha256_of(data: Seq<u8>) -> Seq<u8>;

/// `sha2::Sha256::digest` gives 32 bytes that depend on the data alone.
#[verifier::external_body]
fn sha256_digest(data: &[u8]) -> (r: Vec<u8>)
    ensures
        r@ == sha256_of(data@),
        r@.len() == 32,
{
    sha2::Sha256::digest(data).to_vec()
}

/// The SHA-384 digest of bytes.
pub uninterp spec fn sha384_of(data: Seq<u8>) -> Seq<u8>;

/// `sha2::Sha384::digest` gives 48 bytes that depend on the data alone.
#[verifier::external_body]
fn sha384_digest(data: &[u8]) -> (r: Vec<u8>)
    ensures
        r@ == sha384_of(data@),
        r@.len() == 48,
{
    sha2::Sha384::digest(data).to_vec()
}

/// The SHA-512 digest of bytes.
pub uninterp spec fn sha512_of(data: Seq<u8>) -> Seq<u8>;

/// `sha2::Sha512::digest` gives 64 bytes that depend on the data alone.
#[verifier::external_body]
fn sha512_digest(data: &[u8]) -> (r: Vec<u8>)
    ensures
        r@ == sha512_of(data@),
        r@.len() == 64,
{
    sha2::Sha512::digest(data).to_vec()
}

/// The digest of bytes by a hasher.
pub open spec fn digest_of(h: Hasher, data: Seq<u8>) -> Seq<u8> {
    match h {
        Hasher::Md5 => md5_of(data),
        Hasher::Sha1 => sha1_of(data),
        Hasher::Sha224 => sha224_of(data),
        Hasher::Sha256 => sha256_of(data),
        Hasher::Sha384 => sha384_of(data),
        Hasher::Sha512 => sha512_of(data),
    }
}

/// The number of bytes of a digest.
pub open spec fn digest_len(h: Hasher) -> nat {
    match h {
        Hasher::Md5 => 16,
        Hasher::Sha1 => 20,
        Hasher::Sha224 => 28,
        Hasher::Sha256 => 32,
        Hasher::Sha384 => 48,
        Hasher::Sha512 => 64,
    }
}

/// The digest of a name.
pub fn select_hasher(s: &str) -> (r: Option<Hasher>)
    ensures
        r == hasher_of(s@),
{
    if same_text(s, "md5") {
        Some(Hasher::Md5)
    } else if same_text(s, "sha1") {
        Some(Hasher::Sha1)
    } else if same_text(s, "sha224") {
        Some(Hasher::Sha224)
    } else if same_text(s, "sha256") {
        Some(Hasher::Sha256)
    } else if same_text(s, "sha384") {
        Some(Hasher::Sha384)
    } else if same_text(s, "sha512") {
        Some(Hasher::Sha512)
    } else {
        None
    }
}

/// The digest of bytes by a hasher.
pub fn use_hasher(hasher: Hasher, data: &[u8]) -> (r: Vec<u8>)
    ensures
        r@ == digest_of(hasher, data@),
        r@.len() == digest_len(hasher),
        hasher is Md5 ==> r@ == md5_of(data@) && r@.len() == 16,
        hasher is Sha1 ==> r@ == sha1_of(data@) && r@.len() == 20,
        hasher is Sha224 ==> r@ == sha224_of(data@) && r@.len() == 28,
        hasher is Sha256 ==> r@ == sha256_of(data@) && r@.len() == 32,
        hasher is Sha384 ==> r@ == sha384_of(data@) && r@.len() == 48,
        hasher is Sha512 ==> r@ == sha512_of(data@) && r@.len() == 64,
{
    match hasher {
        Hasher::Md5 => md5_digest(data),
        Hasher::Sha1 => sha1_digest(data),
        Hasher::Sha224 => sha224_digest(data),
        Hasher::Sha256 => sha256_digest(data),
        Hasher::Sha384 => sha384_digest(data),
        Hasher::Sha512 => sha512_digest(data),
    }
}

/// Every name of a digest stands for that digest, taken of the whole of the data,
/// and no other text is a name of one.
pub proof fn law_digests_are_of_the_whole_data(name: Seq<char>, data: Seq<u8>)
    ensures
        name == "md5"@ ==> (hasher_of(name) matches Some(h) && digest_of(h, data) == md5_of(data)),
        name == "sha1"@ ==> (hasher_of(name) matches Some(h) && digest_of(h, data) == sha1_of(
            data,
        )),
        name == "sha224"@ ==> (hasher_of(name) matches Some(h) && digest_of(h, data) == sha224_of(
            data,
        )),
        name == "sha256"@ ==> (hasher_of(name) matches Some(h) && digest_of(h, data) == sha256_of(
            data,
        )),
        name == "sha384"@ ==> (hasher_of(name) matches Some(h) && digest_of(h, data) == sha384_of(
            data,
        )),
        name == "sha512"@ ==> (hasher_of(name) matches Some(h) && digest_of(h, data) == sha512_of(
            data,
        )),
        hasher_of(name) is Some ==> name == "md5"@ || name == "sha1"@ || name == "sha224"@ || name
            == "sha256"@ || name == "sha384"@ || name == "sha512"@,
{
    reveal_strlit("md5");
    assert("md5"@.len() == 3);
    reveal_strlit("sha1");
    assert("sha1"@.len() == 4);
    reveal_strlit("sha224");
    assert("sha224"@.len() == 6);
    reveal_strlit("sha256");
    assert("sha256"@.len() == 6);
    reveal_strlit("sha384");
    assert("sha384"@.len() == 6);
    reveal_strlit("sha512");
    assert("sha512"@.len() == 6);
    assert("sha224"@[4] != "sha256"@[4]);
    assert("sha224"@[3] != "sha384"@[3]);
    assert("sha224"@[3] != "sha512"@[3]);
    assert("sha256"@[3] != "sha384"@[3]);
    assert("sha256"@[3] != "sha512"@[3]);
    assert("sha384"@[3] != "sha512"@[3]);
}

proof fn lemma_hex_len(b: Seq<u8>)
    ensures
        hex_bytes(b).len() == 2 * b.len(),
    decreases b.len(),
{
    if b.len() > 0 {
        lemma_hex_len(b.drop_last());
    }
}

/// The digest of bytes in lowercase hexadecimal, by the hasher of a name.
pub fn hash(hasher_type: &str, data: &[u8]) -> (r: Result<String, String>)
    ensures
        match hasher_of(hasher_type@) {
            Some(h) => r matches Ok(s) && s@ == hex_bytes(digest_of(h, data@)) && s@.len() == 2
                * digest_len(h),
            None => r matches Err(m) && m@ == "unsupported hasher "@ + hasher_type@,
        },
        hasher_type@ == "md5"@ ==> (r matches Ok(s) && s@ == hex_bytes(md5_of(data@))),
        hasher_type@ == "sha1"@ ==> (r matches Ok(s) && s@ == hex_bytes(sha1_of(data@))),
        hasher_type@ == "sha224"@ ==> (r matches Ok(s) && s@ == hex_bytes(sha224_of(data@))),
        hasher_type@ == "sha256"@ ==> (r matches Ok(s) && s@ == hex_bytes(sha256_of(data@))),
        hasher_type@ == "sha384"@ ==> (r matches Ok(s) && s@ == hex_bytes(sha384_of(data@))),
        hasher_type@ == "sha512"@ ==> (r matches Ok(s) && s@ == hex_bytes(sha512_of(data@))),
{
    proof {
        law_digests_are_of_the_whole_data(hasher_type@, data@);
    }
    match select_hasher(hasher_type) {
        Some(h) => {
            let res = use_hasher(h, data);
            proof {
                lemma_hex_len(res@);
            }
            Ok(to_hex_string(res.as_slice()))
        },
        None => {
            let mut m = "unsupported hasher ".to_owned();
            m.append(hasher_type);
            Err(m)
        },
    }
}

/// The character of six bits.
pub open spec fn sextet_char(n: int) -> char {
    if n < 26 {
        (65 + n) as char
    } else if n < 52 {
        (71 + n) as char
    } else if n < 62 {
        (n - 4) as char
    } else if n == 62 {
        '+'
    } else {
        '/'
    }
}

/// The base64 text of bytes: four characters for every three bytes, with padding
/// at the end.
pub open spec fn base64_text(data: Seq<u8>) -> Seq<char>
    decreases data.len(),
{
    if data.len() == 0 {
        Seq::empty()
    } else if data.len() == 1 {
        let a = data[0] as int;
        seq![sextet_char(a / 4), sextet_char(a % 4 * 16), '=', '=']
    } else if data.len() == 2 {
        let a = data[0] as int;
        let b = data[1] as int;
        seq![
            sextet_char(a / 4),
            sextet_char(a % 4 * 16 + b / 16),
            sextet_char(b % 16 * 4),
            '=',
        ]
    } else {
        let a = data[0] as int;
        let b = data[1] as int;
        let c = data[2] as int;
        seq![
            sextet_char(a / 4),
            sextet_char(a % 4 * 16 + b / 16),
            sextet_char(b % 16 * 4 + c / 64),
            sextet_char(c % 64),
        ] + base64_text(data.skip(3))
    }
}

/// Whether a byte is one of the symbols of base64, of which padding is none.
pub open spec fn is_symbol(c: u8) -> bool {
    65 <= c <= 90 || 97 <= c <= 122 || 48 <= c <= 57 || c == 43 || c == 47
}

/// How many bytes come before the first that is no symbol.
pub open spec fn leading_symbols(b: Seq<u8>) -> nat
    decreases b.len(),
{
    if b.len() == 0 || !is_symbol(b[0]) {
        0
    } else {
        1 + leading_symbols(b.skip(1))
    }
}

/// The report of a byte that may not stand where it does.
pub open spec fn misplaced(b: Seq<u8>, i: int) -> Seq<char> {
    "Invalid symbol "@ + decimal(b[i] as int) + ", offset "@ + decimal(i) + "."@
}

/// The error of `base64`'s standard engine for a text that is not the base64
/// text of any bytes. A lone byte behind the last four is looked at first; then
/// comes the first byte that is no symbol, unless padding begins there behind at
/// least two symbols of the last four and runs to the end; then the length; at
/// last the unused bits of the last symbol.
pub open spec fn base64_error(text: Seq<char>) -> Seq<char> {
    let b = encode_utf8(text);
    let n = b.len() as int;
    let first = leading_symbols(b) as int;
    let last_four = if n % 4 == 0 {
        n - 4
    } else {
        n - n % 4
    };
    let padded = first >= last_four + 2 && forall|i: int| first <= i < n ==> #[trigger] b[i] == 61;
    if n % 4 == 1 && !is_symbol(b[n - 1]) && b[n - 1] != 61 {
        misplaced(b, n - 1)
    } else if first < n && !padded {
        misplaced(b, first)
    } else if n % 4 == 1 {
        "Invalid input length: "@ + decimal(n)
    } else if n % 4 != 0 {
        "Invalid padding"@
    } else {
        "Invalid last symbol "@ + decimal(b[first - 1] as int) + ", offset "@ + decimal(first - 1)
            + "."@
    }
}

/// Whether a text is the base64 text of some bytes.
pub open spec fn is_base64(text: Seq<char>) -> bool {
    exists|data: Seq<u8>| #[trigger] base64_text(data) == text
}

/// `encode` of `base64`'s standard engine gives the padded text.
#[verifier::external_body]
fn encode_base64(data: &[u8]) -> (r: String)
    ensures
        r@ == base64_text(data@),
{
    base64::engine::general_purpose::STANDARD.encode(data)
}

/// The base64 text of bytes.
pub fn base64_encode(data: &[u8]) -> (r: String)
    ensures
        r@ == base64_text(data@),
        is_base64(r@),
{
    let r = encode_base64(data);
    assert(base64_text(data@) == r@);
    r
}

/// `decode` of `base64`'s standard engine accepts exactly the texts that `encode`
/// gives, padding and unused bits included, and yields the bytes they stand for.
/// The text of its error names the first thing that it finds wrong.
#[verifier::external_body]
fn decode_base64(text: &str) -> (r: Result<Vec<u8>, String>)
    ensures
        match r {
            Ok(data) => base64_text(data@) == text@,
            Err(e) => !is_base64(text@) && e@ == base64_error(text@),
        },
{
    base64::engine::general_purpose::STANDARD.decode(text).map_err(|e| e.to_string())
}

proof fn lemma_sextet(m: int, n: int)
    requires
        0 <= m < 64,
        0 <= n < 64,
        sextet_char(m) == sextet_char(n),
    ensures
        m == n,
{
}

proof fn lemma_not_padding(n: int)
    requires
        0 <= n < 64,
    ensures
        sextet_char(n) != '=',
{
}

/// No two byte strings have the same base64 text: what was encoded can be decoded
/// to nothing else.
pub proof fn law_base64_is_unambiguous(a: Seq<u8>, b: Seq<u8>)
    requires
        base64_text(a) == base64_text(b),
    ensures
        a == b,
    decreases a.len(),
{
    let s = base64_text(a);
    let t = base64_text(b);
    if a.len() == 0 || b.len() == 0 {
        assert(a.len() == 0 && b.len() == 0) by {
            if a.len() > 0 {
                assert(s.len() >= 4);
            }
            if b.len() > 0 {
                assert(t.len() >= 4);
            }
        }
        assert(a =~= b);
    } else {
        lemma_first_group(a);
        lemma_first_group(b);
        assert(a[0] as int / 4 == b[0] as int / 4) by {
            lemma_sextet(a[0] as int / 4, b[0] as int / 4);
        }
        let a1 = if a.len() > 1 {
            a[1] as int
        } else {
            0
        };
        let b1 = if b.len() > 1 {
            b[1] as int
        } else {
            0
        };
        lemma_sextet(a[0] as int % 4 * 16 + a1 / 16, b[0] as int % 4 * 16 + b1 / 16);
        assert(a[0] == b[0]);
        assert(a1 / 16 == b1 / 16);
        assert(a.len() > 1 <==> b.len() > 1) by {
            if a.len() > 1 {
                let c = if a.len() > 2 {
                    a[2] as int
                } else {
                    0
                };
                lemma_not_padding(a1 % 16 * 4 + c / 64);
            }
            if b.len() > 1 {
                let c = if b.len() > 2 {
                    b[2] as int
                } else {
                    0
                };
                lemma_not_padding(b1 % 16 * 4 + c / 64);
            }
        }
        if a.len() == 1 {
            assert(a =~= b);
        } else {
            let a2 = if a.len() > 2 {
                a[2] as int
            } else {
                0
            };
            let b2 = if b.len() > 2 {
                b[2] as int
            } else {
                0
            };
            lemma_sextet(a1 % 16 * 4 + a2 / 64, b1 % 16 * 4 + b2 / 64);
            assert(a[1] == b[1]);
            assert(a2 / 64 == b2 / 64);
            assert(a.len() > 2 <==> b.len() > 2) by {
                if a.len() > 2 {
                    lemma_not_padding(a2 % 64);
                }
                if b.len() > 2 {
                    lemma_not_padding(b2 % 64);
                }
            }
            if a.len() == 2 {
                assert(a =~= b);
            } else {
                lemma_sextet(a2 % 64, b2 % 64);
                assert(a[2] == b[2]);
                assert(s.skip(4) =~= base64_text(a.skip(3)));
                assert(t.skip(4) =~= base64_text(b.skip(3)));
                law_base64_is_unambiguous(a.skip(3), b.skip(3));
                assert(a =~= a.take(3) + a.skip(3));
                assert(b =~= b.take(3) + b.skip(3));
                assert(a.take(3) =~= b.take(3));
            }
        }
    }
}

/// The six bits of a character of base64: `A` to `Z`, `a` to `z`, `0` to `9`, `+`
/// and `/` count from zero to 63.
pub open spec fn sextet_of(c: char) -> int {
    if 'A' <= c <= 'Z' {
        c as int - 'A' as int
    } else if 'a' <= c <= 'z' {
        c as int - 'a' as int + 26
    } else if '0' <= c <= '9' {
        c as int - '0' as int + 52
    } else if c == '+' {
        62
    } else if c == '/' {
        63
    } else {
        -1
    }
}

proof fn lemma_sextet_of(n: int)
    requires
        0 <= n < 64,
    ensures
        sextet_of(sextet_char(n)) == n,
{
}

/// The bits of a group of four characters, six each, are the bits of the three
/// bytes in its place, eight each; for bytes that are missing at the end there are
/// signs of padding and zeros.
pub open spec fn holds_bits(data: Seq<u8>, s: Seq<char>, q: int) -> bool {
    let v0 = sextet_of(s[4 * q]);
    let v1 = sextet_of(s[4 * q + 1]);
    let v2 = sextet_of(s[4 * q + 2]);
    let v3 = sextet_of(s[4 * q + 3]);
    &&& 4 * q + 3 < s.len()
    &&& 0 <= v0 && 0 <= v1
    &&& data[3 * q] == 4 * v0 + v1 / 16
    &&& if 3 * q + 1 < data.len() {
        0 <= v2 && data[3 * q + 1] == v1 % 16 * 16 + v2 / 4
    } else {
        s[4 * q + 2] == '=' && v1 % 16 == 0
    }
    &&& if 3 * q + 2 < data.len() {
        0 <= v3 && data[3 * q + 2] == v2 % 4 * 64 + v3
    } else {
        s[4 * q + 3] == '=' && (3 * q + 1 < data.len() ==> v2 % 4 == 0)
    }
}

proof fn lemma_first_bits(data: Seq<u8>)
    requires
        data.len() > 0,
    ensures
        holds_bits(data, base64_text(data), 0),
{
    let a = data[0] as int;
    let b = if data.len() > 1 {
        data[1] as int
    } else {
        0
    };
    let c = if data.len() > 2 {
        data[2] as int
    } else {
        0
    };
    lemma_first_group(data);
    lemma_sextet_of(a / 4);
    lemma_sextet_of(a % 4 * 16 + b / 16);
    lemma_sextet_of(b % 16 * 4 + c / 64);
    lemma_sextet_of(c % 64);
}

/// A base64 text has four characters for every three bytes begun, and every four
/// hold the bits of their three.
#[verifier::rlimit(40)]
pub proof fn law_base64_holds_the_bits(data: Seq<u8>, q: int)
    requires
        0 <= q,
        3 * q < data.len(),
    ensures
        base64_text(data).len() == 4 * ((data.len() + 2) / 3),
        holds_bits(data, base64_text(data), q),
    decreases data.len(),
{
    lemma_base64_len(data);
    if q == 0 {
        lemma_first_bits(data);
    } else {
        let s = base64_text(data);
        let rest = data.skip(3);
        let t = base64_text(rest);
        let p = q - 1;
        law_base64_holds_the_bits(rest, p);
        assert(s.skip(4) =~= t);
        assert(s.skip(4)[4 * p] == s[4 * q]);
        assert(s.skip(4)[4 * p + 1] == s[4 * q + 1]);
        assert(s.skip(4)[4 * p + 2] == s[4 * q + 2]);
        assert(s.skip(4)[4 * p + 3] == s[4 * q + 3]);
        assert(rest[3 * p] == data[3 * q]);
        assert(3 * p + 1 < rest.len() ==> rest[3 * p + 1] == data[3 * q + 1]);
        assert(3 * p + 2 < rest.len() ==> rest[3 * p + 2] == data[3 * q + 2]);
    }
}

proof fn lemma_base64_len(data: Seq<u8>)
    ensures
        base64_text(data).len() == 4 * ((data.len() + 2) / 3),
    decreases data.len(),
{
    if data.len() >= 3 {
        lemma_base64_len(data.skip(3));
    }
}

/// The first four characters of a text that is not empty.
proof fn lemma_first_group(a: Seq<u8>)
    requires
        a.len() > 0,
    ensures
        ({
            let s = base64_text(a);
            let a0 = a[0] as int;
            let a1 = if a.len() > 1 {
                a[1] as int
            } else {
                0
            };
            let a2 = if a.len() > 2 {
                a[2] as int
            } else {
                0
            };
            &&& s.len() >= 4
            &&& s[0] == sextet_char(a0 / 4)
            &&& s[1] == sextet_char(a0 % 4 * 16 + a1 / 16)
            &&& s[2] == if a.len() > 1 {
                sextet_char(a1 % 16 * 4 + a2 / 64)
            } else {
                '='
            }
            &&& s[3] == if a.len() > 2 {
                sextet_char(a2 % 64)
            } else {
                '='
            }
        }),
{
}

/// The bytes that a base64 text stands for.
pub fn base64_decode(text: &str) -> (r: Result<Vec<u8>, String>)
    ensures
        forall|data: Seq<u8>| #[trigger]
            base64_text(data) == text@ ==> (r matches Ok(got) && got@ == data),
        !is_base64(text@) ==> (r matches Err(e) && e@ == base64_error(text@)),
{
    let r = decode_base64(text);
    proof {
        assert forall|data: Seq<u8>| #[trigger] base64_text(data) == text@ implies (r matches Ok(
            got,
        ) && got@ == data) by {
            assert(is_base64(text@));
            law_base64_is_unambiguous(r->Ok_0@, data);
        }
    }
    r
}

} // verus!

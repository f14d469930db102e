//! Content hashes: SHA-512 of small files, and for large files a fingerprint
//! of the head, the tail and the size.

use vstd::prelude::*;
use crate::text::push_char;

verus! {

/// What SHA-512 makes of a byte sequence.
pub uninterp spec fn sha512_of(data: Seq<u8>) -> Seq<u8>;

/// Relies on `sha2::Sha512` through `Digest::digest`: the 64-byte SHA-512
/// digest, which depends on the bytes alone.
#[verifier::external_body]
fn sha512(data: &Vec<u8>) -> (r: Vec<u8>)
    ensures
        r@ == sha512_of(data@),
        r@.len() == 64,
{
    <sha2::Sha512 as sha2::Digest>::digest(data.as_slice()).to_vec()
}

/// Files up to this size are hashed whole.
pub const FAST_HASH_THRESHOLD: u64 = 2097152;

/// The length of the head and of the tail of a fingerprint.
pub const FINGERPRINT_CHUNK: u64 = 65536;

pub open spec fn hex_digit(d: u8) -> char {
    if d < 10 {
        (('0' as u8) + d) as char
    } else {
        (('a' as u8) + d - 10) as char
    }
}

/// Two lowercase hex digits per byte.
pub open spec fn hex_spec(b: Seq<u8>) -> Seq<char>
    decreases b.len(),
{
    if b.len() == 0 {
        Seq::empty()
    } else {
        hex_spec(b.drop_last()).push(hex_digit(b.last() / 16)).push(hex_digit(b.last() % 16))
    }
}

fn hex_char(d: u8) -> (c: char)
    requires
        d < 16,
    ensures
        c == hex_digit(d),
{
    if d < 10 {
        ((48u8) + d) as char
    } else {
        ((97u8) + d - 10) as char
    }
}

/// Lowercase hex of a byte sequence.
pub fn to_hex(b: &Vec<u8>) -> (r: String)
    ensures
        r@ == hex_spec(b@),
{
    let mut s = String::new();
    let mut i: usize = 0;
    while i < b.len()
        invariant
            i <= b@.len(),
            s@ == hex_spec(b@.subrange(0, i as int)),
        decreases b@.len() - i,
    {
        let x = b[i];
        push_char(&mut s, hex_char(x / 16));
        push_char(&mut s, hex_char(x % 16));
        assert(b@.subrange(0, i + 1).drop_last() == b@.subrange(0, i as int));
        i = i + 1;
    }
    assert(b@.subrange(0, b@.len() as int) == b@);
    s
}

/// The eight little-endian bytes of `n`, from `k` bytes on.
pub open spec fn le_spec(n: nat, k: nat) -> Seq<u8>
    decreases k,
{
    if k == 0 {
        Seq::empty()
    } else {
        seq![(n % 256) as u8] + le_spec(n / 256, (k - 1) as nat)
    }
}

/// The little-endian bytes of a size.
pub fn le_bytes(n: u64) -> (r: Vec<u8>)
    ensures
        r@ == le_spec(n as nat, 8),
{
    let mut out: Vec<u8> = Vec::new();
    let mut v: u64 = n;
    let mut k: usize = 0;
    while k < 8
        invariant
            k <= 8,
            out@ + le_spec(v as nat, (8 - k) as nat) == le_spec(n as nat, 8),
        decreases 8 - k,
    {
        let ghost before = out@;
        out.push((v % 256) as u8);
        assert(le_spec(v as nat, (8 - k) as nat) == seq![(v % 256) as u8] + le_spec((v / 256) as nat, (8 - k - 1) as nat));
        assert(out@ == before.push((v % 256) as u8));
        assert(out@ + le_spec((v / 256) as nat, (8 - k - 1) as nat) == before + le_spec(v as nat, (8 - k) as nat));
        v = v / 256;
        k = k + 1;
    }
    assert(out@ + le_spec(v as nat, 0) == out@);
    out
}

/// The bytes a fingerprint hashes for content `c`: up to the first 64 KiB,
/// the last 64 KiB when the content is longer than twice that, and the
/// length as eight little-endian bytes.
pub open spec fn fingerprint_input(c: Seq<u8>) -> Seq<u8> {
    let n = c.len();
    let head = c.subrange(0, if n < 65536 { n as int } else { 65536 });
    let tail = if n > 131072 { c.subrange(n - 65536, n as int) } else { Seq::empty() };
    head + tail + le_spec(n, 8)
}

/// The stored hash of content `c`: hex SHA-512 up to the threshold, else
/// `fp:` and the hex SHA-512 of the fingerprint input.
pub open spec fn content_hash_spec(c: Seq<u8>) -> Seq<char> {
    if c.len() > 2097152 {
        "fp:"@ + hex_spec(sha512_of(fingerprint_input(c)))
    } else {
        hex_spec(sha512_of(c))
    }
}

/// How much of a file the hash reads.
#[derive(PartialEq, Eq, Structural, Clone, Copy, Debug)]
pub enum HashPlan {
    /// Read the whole file.
    Whole,
    /// Read `head` bytes from the start and, when `tail` is set, the last
    /// `FINGERPRINT_CHUNK` bytes.
    Fingerprint { head: u64, tail: bool },
}

/// What to read of a file of `size` bytes.
pub fn hash_plan(size: u64) -> (r: HashPlan)
    ensures
        size <= FAST_HASH_THRESHOLD ==> r == HashPlan::Whole,
        size > FAST_HASH_THRESHOLD ==> r == (HashPlan::Fingerprint {
            head: if size < FINGERPRINT_CHUNK { size } else { FINGERPRINT_CHUNK },
            tail: size > 2 * FINGERPRINT_CHUNK,
        }),
{
    if size <= FAST_HASH_THRESHOLD {
        HashPlan::Whole
    } else {
        HashPlan::Fingerprint {
            head: if size < FINGERPRINT_CHUNK { size } else { FINGERPRINT_CHUNK },
            tail: size > 2 * FINGERPRINT_CHUNK,
        }
    }
}

/// The hash of a small file from its whole content.
pub fn whole_hash(content: &Vec<u8>) -> (r: String)
    requires
        content@.len() <= FAST_HASH_THRESHOLD,
    ensures
        r@ == content_hash_spec(content@),
{
    let d = sha512(content);
    to_hex(&d)
}

/// The hash of a large file from the pieces that `hash_plan` asked for:
/// `head` its first bytes, `tail` its last `FINGERPRINT_CHUNK` bytes (empty
/// when the plan reads no tail), and `size` its length.
pub fn fingerprint_hash(head: &Vec<u8>, tail: &Vec<u8>, size: u64) -> (r: String)
    ensures
        r@ == "fp:"@ + hex_spec(sha512_of(head@ + tail@ + le_spec(size as nat, 8))),
{
    let mut input: Vec<u8> = Vec::new();
    let mut i: usize = 0;
    while i < head.len()
        invariant
            i <= head@.len(),
            input@ == head@.subrange(0, i as int),
        decreases head@.len() - i,
    {
        input.push(head[i]);
        i = i + 1;
    }
    let mut j: usize = 0;
    while j < tail.len()
        invariant
            j <= tail@.len(),
            head@.subrange(0, head@.len() as int) == head@,
            input@ == head@ + tail@.subrange(0, j as int),
        decreases tail@.len() - j,
    {
        input.push(tail[j]);
        assert(head@ + tail@.subrange(0, j + 1) == (head@ + tail@.subrange(0, j as int)).push(tail@[j as int]));
        j = j + 1;
    }
    let le = le_bytes(size);
    let mut k: usize = 0;
    assert(tail@.subrange(0, tail@.len() as int) == tail@);
    while k < le.len()
        invariant
            k <= le@.len(),
            input@ == head@ + tail@ + le@.subrange(0, k as int),
        decreases le@.len() - k,
    {
        input.push(le[k]);
        assert(head@ + tail@ + le@.subrange(0, k + 1) == (head@ + tail@ + le@.subrange(0, k as int)).push(le@[k as int]));
        k = k + 1;
    }
    assert(le@.subrange(0, le@.len() as int) == le@);
    let d = sha512(&input);
    let mut out = String::from_str("fp:");
    let hx = to_hex(&d);
    out.append(hx.as_str());
    out
}

/// The fingerprint of a large file depends only on its head, its tail and
/// its length: two contents of the same length that agree there get the same
/// hash whatever lies between (the known collision window), while contents
/// whose first bytes differ are hashed from different inputs.
pub proof fn law_fingerprint_window(c1: Seq<u8>, c2: Seq<u8>)
    requires
        c1.len() == c2.len(),
        c1.len() > 2097152,
    ensures
        c1.subrange(0, 65536) == c2.subrange(0, 65536)
            && c1.subrange(c1.len() - 65536, c1.len() as int) == c2.subrange(c2.len() - 65536, c2.len() as int)
            ==> content_hash_spec(c1) == content_hash_spec(c2),
        c1[0] != c2[0] ==> fingerprint_input(c1) != fingerprint_input(c2),
{
    if c1[0] != c2[0] {
        assert(fingerprint_input(c1)[0] == c1[0]);
        assert(fingerprint_input(c2)[0] == c2[0]);
    }
}

} // verus!

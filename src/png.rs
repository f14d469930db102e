//! Reading the text chunks of a PNG file: the signature, the chunk stream,
//! `tEXt` and `iTXt` entries, up to `IEND`.

use vstd::prelude::*;

verus! {

/// What `String::from_utf8_lossy` makes of a byte sequence.
pub uninterp spec fn utf8_lossy_of(b: Seq<u8>) -> Seq<char>;

/// What zlib decompression read into a string yields for a byte sequence.
pub uninterp spec fn zlib_text_of(b: Seq<u8>) -> Seq<char>;

/// Relies on `String::from_utf8_lossy`: the text depends on the bytes alone.
#[verifier::external_body]
fn lossy_text(b: &Vec<u8>) -> (r: String)
    ensures
        r@ == utf8_lossy_of(b@),
{
    String::from_utf8_lossy(b.as_slice()).into_owned()
}

/// Relies on `flate2::read::ZlibDecoder` and `Read::read_to_string`: the
/// text inflated from the bytes, or what was read before an error; it
/// depends on the bytes alone.
#[verifier::external_body]
fn inflate_text(b: &Vec<u8>) -> (r: String)
    ensures
        r@ == zlib_text_of(b@),
{
    let mut out = String::new();
    std::io::Read::read_to_string(&mut flate2::read::ZlibDecoder::new(b.as_slice()), &mut out).ok();
    out
}

/// Why a file's text chunks could not be read.
#[derive(PartialEq, Eq, Structural, Clone, Copy, Debug)]
pub enum PngError {
    /// Shorter than the signature, or a text chunk runs past the end.
    Truncated,
    /// The signature is not PNG's.
    NotPng,
}

pub open spec fn png_sig() -> Seq<u8> {
    seq![0x89u8, 0x50u8, 0x4Eu8, 0x47u8, 0x0Du8, 0x0Au8, 0x1Au8, 0x0Au8]
}

pub open spec fn t_text() -> Seq<u8> {
    seq![0x74u8, 0x45u8, 0x58u8, 0x74u8]
}

pub open spec fn i_text() -> Seq<u8> {
    seq![0x69u8, 0x54u8, 0x58u8, 0x74u8]
}

pub open spec fn i_end() -> Seq<u8> {
    seq![0x49u8, 0x45u8, 0x4Eu8, 0x44u8]
}

/// The big-endian 32-bit number at `p`.
pub open spec fn be32(d: Seq<u8>, p: int) -> int {
    d[p] as int * 16777216 + d[p + 1] as int * 65536 + d[p + 2] as int * 256 + d[p + 3] as int
}

/// The first position of a zero byte, or -1.
pub open spec fn first_zero(s: Seq<u8>) -> int
    decreases s.len(),
{
    if s.len() == 0 {
        -1
    } else if first_zero(s.drop_last()) >= 0 {
        first_zero(s.drop_last())
    } else if s.last() == 0 {
        s.len() - 1
    } else {
        -1
    }
}

/// Where the text of an `iTXt` entry starts after its compression fields:
/// past the zero that ends the translated keyword, or at 0 when the
/// language tag and the keyword are not both terminated.
pub open spec fn text_start(after: Seq<u8>) -> int {
    let z1 = first_zero(after);
    if z1 < 0 {
        0
    } else {
        let z2 = first_zero(after.subrange(z1 + 1, after.len() as int));
        if z2 < 0 { 0 } else { z1 + 1 + z2 + 1 }
    }
}

/// The keyword and text of a `tEXt` chunk's data; `None` without a zero.
pub open spec fn text_entry(d: Seq<u8>) -> Option<(Seq<char>, Seq<char>)> {
    let z = first_zero(d);
    if z < 0 {
        None
    } else {
        Some((utf8_lossy_of(d.subrange(0, z)), utf8_lossy_of(d.subrange(z + 1, d.len() as int))))
    }
}

/// The keyword and text of an `iTXt` chunk's data, inflated when the
/// compression flag is 1; `None` without a zero or the two flag bytes.
pub open spec fn itxt_entry(d: Seq<u8>) -> Option<(Seq<char>, Seq<char>)> {
    let z = first_zero(d);
    if z < 0 {
        None
    } else {
        let rest = d.subrange(z + 1, d.len() as int);
        if rest.len() < 2 {
            None
        } else {
            let after = rest.subrange(2, rest.len() as int);
            let t = after.subrange(text_start(after), after.len() as int);
            Some((utf8_lossy_of(d.subrange(0, z)), if rest[0] == 1 { zlib_text_of(t) } else { utf8_lossy_of(t) }))
        }
    }
}

/// The text entries of the chunks from position `p` on; `None` when a text
/// chunk's data runs past the end. A chunk header cut short ends the stream.
pub open spec fn chunks_from(d: Seq<u8>, p: int) -> Option<Seq<(Seq<char>, Seq<char>)>>
    decreases d.len() - p,
{
    if p < 0 || p + 8 > d.len() {
        Some(Seq::empty())
    } else {
        let ty = d.subrange(p + 4, p + 8);
        let body_end = p + 8 + be32(d, p);
        let next = body_end + 4;
        let rest = if next > d.len() { Some(Seq::empty()) } else { chunks_from(d, next) };
        if ty == t_text() || ty == i_text() {
            if body_end > d.len() {
                None
            } else {
                let body = d.subrange(p + 8, body_end);
                let e = if ty == t_text() { text_entry(body) } else { itxt_entry(body) };
                match rest {
                    None => None,
                    Some(r) => Some(
                        match e {
                            Some(x) => seq![x] + r,
                            None => r,
                        },
                    ),
                }
            }
        } else if ty == i_end() {
            Some(Seq::empty())
        } else {
            rest
        }
    }
}

/// The text entries of a whole file.
pub open spec fn png_text_spec(d: Seq<u8>) -> Result<Seq<(Seq<char>, Seq<char>)>, PngError> {
    if d.len() < 8 {
        Err(PngError::Truncated)
    } else if d.subrange(0, 8) != png_sig() {
        Err(PngError::NotPng)
    } else {
        match chunks_from(d, 8) {
            Some(l) => Ok(l),
            None => Err(PngError::Truncated),
        }
    }
}

/// The views of a list of (key, text) pairs.
pub open spec fn entries_view(v: Seq<(String, String)>) -> Seq<(Seq<char>, Seq<char>)> {
    v.map_values(|e: (String, String)| (e.0@, e.1@))
}

fn copy_range(d: &Vec<u8>, a: usize, b: usize) -> (r: Vec<u8>)
    requires
        a <= b <= d@.len(),
    ensures
        r@ == d@.subrange(a as int, b as int),
{
    let mut out: Vec<u8> = Vec::new();
    let mut i: usize = a;
    while i < b
        invariant
            a <= i <= b,
            b <= d@.len(),
            out@ == d@.subrange(a as int, i as int),
        decreases b - i,
    {
        out.push(d[i]);
        assert(d@.subrange(a as int, i + 1) == d@.subrange(a as int, i as int).push(d@[i as int]));
        i = i + 1;
    }
    out
}

proof fn lemma_first_zero(s: Seq<u8>)
    ensures
        -1 <= first_zero(s) < s.len(),
        first_zero(s) >= 0 ==> s[first_zero(s)] == 0,
        forall|j: int| 0 <= j < s.len() && (first_zero(s) < 0 || j < first_zero(s)) ==> s[j] != 0,
    decreases s.len(),
{
    if s.len() > 0 {
        lemma_first_zero(s.drop_last());
        assert forall|j: int| 0 <= j < s.len() - 1 implies s[j] == s.drop_last()[j] by {}
    }
}

/// The first zero at or after `from`, as an offset from `from`.
fn find_zero(d: &Vec<u8>, from: usize, to: usize) -> (r: Option<usize>)
    requires
        from <= to <= d@.len(),
    ensures
        match r {
            Some(z) => z as int == first_zero(d@.subrange(from as int, to as int)) && z < to - from,
            None => first_zero(d@.subrange(from as int, to as int)) < 0,
        },
{
    let ghost s = d@.subrange(from as int, to as int);
    proof {
        lemma_first_zero(s);
    }
    let mut i: usize = from;
    while i < to
        invariant
            from <= i <= to,
            to <= d@.len(),
            s == d@.subrange(from as int, to as int),
            forall|j: int| from <= j < i ==> d@[j] != 0,
        decreases to - i,
    {
        if d[i] == 0 {
            proof {
                lemma_first_zero(s);
                let fz = first_zero(s);
                assert(s[i - from] == d@[i as int]);
                if fz >= 0 && fz < i - from {
                    assert(s[fz] == d@[from + fz]);
                }
            }
            return Some(i - from);
        }
        i = i + 1;
    }
    proof {
        if first_zero(s) >= 0 {
            assert(s[first_zero(s)] == d@[from + first_zero(s)]);
        }
    }
    None
}

fn text_entry_of(d: &Vec<u8>, a: usize, b: usize) -> (r: Option<(String, String)>)
    requires
        a <= b <= d@.len(),
    ensures
        match (r, text_entry(d@.subrange(a as int, b as int))) {
            (Some(x), Some(y)) => (x.0@, x.1@) == y,
            (None, None) => true,
            _ => false,
        },
{
    let ghost body = d@.subrange(a as int, b as int);
    match find_zero(d, a, b) {
        Some(z) => {
            proof {
                lemma_first_zero(body);
            }
            let k = copy_range(d, a, a + z);
            let v = copy_range(d, a + z + 1, b);
            assert(k@ == body.subrange(0, z as int));
            assert(v@ == body.subrange(z + 1, body.len() as int));
            Some((lossy_text(&k), lossy_text(&v)))
        },
        None => None,
    }
}

fn itxt_entry_of(d: &Vec<u8>, a: usize, b: usize) -> (r: Option<(String, String)>)
    requires
        a <= b <= d@.len(),
    ensures
        match (r, itxt_entry(d@.subrange(a as int, b as int))) {
            (Some(x), Some(y)) => (x.0@, x.1@) == y,
            (None, None) => true,
            _ => false,
        },
{
    let ghost body = d@.subrange(a as int, b as int);
    proof {
        lemma_first_zero(body);
    }
    let z = match find_zero(d, a, b) {
        Some(z) => z,
        None => return None,
    };
    let rest_start = a + z + 1;
    let ghost rest = body.subrange(z + 1, body.len() as int);
    assert(rest == d@.subrange(rest_start as int, b as int));
    if b - rest_start < 2 {
        return None;
    }
    let flag = d[rest_start];
    assert(rest[0] == flag);
    let after_start = rest_start + 2;
    let ghost after = rest.subrange(2, rest.len() as int);
    assert(after == d@.subrange(after_start as int, b as int));
    let start: usize = match find_zero(d, after_start, b) {
        None => 0,
        Some(z1) => {
            proof {
                lemma_first_zero(after);
                assert(after.subrange(z1 + 1, after.len() as int) == d@.subrange(after_start + z1 + 1, b as int));
            }
            match find_zero(d, after_start + z1 + 1, b) {
                None => 0,
                Some(z2) => z1 + 1 + z2 + 1,
            }
        },
    };
    assert(start as int == text_start(after));
    let key = copy_range(d, a, a + z);
    assert(key@ == body.subrange(0, z as int));
    let t = copy_range(d, after_start + start, b);
    assert(t@ == after.subrange(start as int, after.len() as int));
    let val = if flag == 1 { inflate_text(&t) } else { lossy_text(&t) };
    Some((lossy_text(&key), val))
}

/// `out` followed by what the rest of the stream yields.
pub open spec fn then_rest(
    out: Seq<(Seq<char>, Seq<char>)>,
    rest: Option<Seq<(Seq<char>, Seq<char>)>>,
) -> Option<Seq<(Seq<char>, Seq<char>)>> {
    match rest {
        None => None,
        Some(r) => Some(out + r),
    }
}

fn type_is(d: &Vec<u8>, p: usize, t: [u8; 4]) -> (r: bool)
    requires
        p + 8 <= d@.len(),
    ensures
        r == (d@.subrange(p + 4, p + 8) == seq![t[0], t[1], t[2], t[3]]),
{
    let _n = d.len();
    let r = d[p + 4] == t[0] && d[p + 5] == t[1] && d[p + 6] == t[2] && d[p + 7] == t[3];
    proof {
        let a = d@.subrange(p + 4, p + 8);
        let b = seq![t[0], t[1], t[2], t[3]];
        if r {
            assert(a =~= b);
        } else if a == b {
            assert(a[0] == b[0] && a[1] == b[1] && a[2] == b[2] && a[3] == b[3]);
        }
    }
    r
}

/// The `(keyword, text)` entries of a PNG file's `tEXt` and `iTXt` chunks,
/// in file order.
pub fn png_text_chunks(d: &Vec<u8>) -> (r: Result<Vec<(String, String)>, PngError>)
    ensures
        match (r, png_text_spec(d@)) {
            (Ok(v), Ok(l)) => entries_view(v@) == l,
            (Err(e), Err(f)) => e == f,
            _ => false,
        },
{
    let n = d.len();
    if n < 8 {
        return Err(PngError::Truncated);
    }
    let sig_ok = d[0] == 0x89 && d[1] == 0x50 && d[2] == 0x4E && d[3] == 0x47 && d[4] == 0x0D && d[5] == 0x0A
        && d[6] == 0x1A && d[7] == 0x0A;
    proof {
        let a = d@.subrange(0, 8);
        if sig_ok {
            assert(a =~= png_sig());
        } else if a == png_sig() {
            assert(a[0] == 0x89u8 && a[1] == 0x50u8 && a[2] == 0x4Eu8 && a[3] == 0x47u8);
            assert(a[4] == 0x0Du8 && a[5] == 0x0Au8 && a[6] == 0x1Au8 && a[7] == 0x0Au8);
        }
    }
    if !sig_ok {
        return Err(PngError::NotPng);
    }
    let mut out: Vec<(String, String)> = Vec::new();
    let mut p: usize = 8;
    assert(entries_view(out@) =~= Seq::empty());
    assert(then_rest(entries_view(out@), chunks_from(d@, 8)) == chunks_from(d@, 8)) by {
        assert(Seq::<(Seq<char>, Seq<char>)>::empty() + chunks_from(d@, 8)->0 =~= chunks_from(d@, 8)->0);
    }
    loop
        invariant_except_break
            n == d@.len(),
            8 <= p <= n,
            d@.subrange(0, 8) == png_sig(),
            then_rest(entries_view(out@), chunks_from(d@, p as int)) == chunks_from(d@, 8),
        ensures
            chunks_from(d@, 8) == Some(entries_view(out@)),
        decreases n - p,
    {
        if n - p < 8 {
            assert(entries_view(out@) + Seq::empty() =~= entries_view(out@));
            break;
        }
        let len: u64 = (d[p] as u64) * 16777216 + (d[p + 1] as u64) * 65536 + (d[p + 2] as u64) * 256 + (d[p + 3] as u64);
        let body_start = p + 8;
        let avail = (n - body_start) as u64;
        let is_t = type_is(d, p, [0x74, 0x45, 0x58, 0x74]);
        let is_i = type_is(d, p, [0x69, 0x54, 0x58, 0x74]);
        let is_end = type_is(d, p, [0x49, 0x45, 0x4E, 0x44]);
        proof {
            assert(seq![0x74u8, 0x45u8, 0x58u8, 0x74u8] == t_text());
            assert(seq![0x69u8, 0x54u8, 0x58u8, 0x74u8] == i_text());
            assert(seq![0x49u8, 0x45u8, 0x4Eu8, 0x44u8] == i_end());
            assert(len as int == be32(d@, p as int));
        }
        if is_t || is_i {
            if len > avail {
                assert(chunks_from(d@, p as int).is_none());
                return Err(PngError::Truncated);
            }
            let body_end = body_start + len as usize;
            let e = if is_t { text_entry_of(d, body_start, body_end) } else { itxt_entry_of(d, body_start, body_end) };
            let ghost before = entries_view(out@);
            match e {
                Some(x) => {
                    out.push(x);
                    assert(entries_view(out@) =~= before.push((x.0@, x.1@)));
                },
                None => {},
            }
            proof {
                let ev = if is_t { text_entry(d@.subrange(body_start as int, body_end as int)) } else { itxt_entry(d@.subrange(body_start as int, body_end as int)) };
                assert forall|r: Seq<(Seq<char>, Seq<char>)>| #![auto] before + (match ev { Some(x) => seq![x] + r, None => r }) == entries_view(out@) + r by {
                    match ev {
                        Some(x) => { assert(before + (seq![x] + r) =~= before.push(x) + r); },
                        None => {},
                    }
                }
            }
            if n - body_end < 4 {
                assert(entries_view(out@) + Seq::empty() =~= entries_view(out@));
                break;
            }
            p = body_end + 4;
        } else if is_end {
            assert(entries_view(out@) + Seq::empty() =~= entries_view(out@));
            break;
        } else {
            if len > avail || (avail - len) < 4 {
                assert(entries_view(out@) + Seq::empty() =~= entries_view(out@));
                break;
            }
            p = body_start + len as usize + 4;
        }
    }
    Ok(out)
}

} // verus!

//! Generator metadata found in PNG text chunks: the AUTOMATIC1111
//! `parameters` text, and the choice between it and a ComfyUI workflow.

use vstd::prelude::*;
use crate::text::{has_prefix, lower_of, lowercase, push_char, str_eq};

verus! {

/// Prompt and model name of an image's generator.
pub struct AiBasic {
    pub prompt: String,
    pub model: String,
}

/// The first position at or after `i` where `pat` occurs in `s`, or -1.
pub open spec fn find_from(s: Seq<char>, pat: Seq<char>, i: int) -> int
    decreases s.len() - i,
{
    if i < 0 || i + pat.len() > s.len() {
        -1
    } else if pat.len() == 0 || s.subrange(i, i + pat.len()) == pat {
        i
    } else {
        find_from(s, pat, i + 1)
    }
}

pub open spec fn contains_pat(s: Seq<char>, pat: Seq<char>) -> bool {
    find_from(s, pat, 0) >= 0
}

/// `s[i..]` split at every occurrence of a non-empty `pat`.
pub open spec fn split_from(s: Seq<char>, pat: Seq<char>, i: int) -> Seq<Seq<char>>
    decreases s.len() - i,
{
    let j = find_from(s, pat, i);
    if pat.len() == 0 || i < 0 || i > s.len() || j < i || j + pat.len() > s.len() {
        seq![s.subrange(i, s.len() as int)]
    } else {
        seq![s.subrange(i, j)] + split_from(s, pat, j + pat.len())
    }
}

pub open spec fn strip_cr(l: Seq<char>) -> Seq<char> {
    if l.len() > 0 && l.last() == '\r' { l.drop_last() } else { l }
}

/// The lines of a text as `str::lines` yields them: split at `\n`, without
/// a last empty line, each without a trailing `\r`.
pub open spec fn lines_of(s: Seq<char>) -> Seq<Seq<char>> {
    let segs = split_from(s, seq!['\n'], 0);
    let kept = if s.len() == 0 || s.last() == '\n' { segs.drop_last() } else { segs };
    kept.map_values(|l: Seq<char>| strip_cr(l))
}

pub open spec fn model_key() -> Seq<char> {
    seq!['M', 'o', 'd', 'e', 'l']
}

pub open spec fn model_tag() -> Seq<char> {
    seq!['M', 'o', 'd', 'e', 'l', ':']
}

pub open spec fn steps_tag() -> Seq<char> {
    seq!['S', 't', 'e', 'p', 's', ':']
}

pub open spec fn negative_tag() -> Seq<char> {
    seq!['N', 'e', 'g', 'a', 't', 'i', 'v', 'e', ' ', 'p', 'r', 'o', 'm', 'p', 't', ':']
}

pub open spec fn colon_sp() -> Seq<char> {
    seq![':', ' ']
}

pub open spec fn comma_sp() -> Seq<char> {
    seq![',', ' ']
}

/// The value of the last `Model: value` pair, or `m` when there is none.
pub open spec fn model_in(pairs: Seq<Seq<char>>, m: Seq<char>) -> Seq<char>
    decreases pairs.len(),
{
    if pairs.len() == 0 {
        m
    } else {
        let prev = model_in(pairs.drop_last(), m);
        let p = pairs.last();
        let j = find_from(p, colon_sp(), 0);
        if j >= 0 && p.subrange(0, j) == model_key() {
            p.subrange(j + 2, p.len() as int)
        } else {
            prev
        }
    }
}

/// The model named on a line that carries `Model:` or `Steps:`; else `m`.
pub open spec fn line_model(line: Seq<char>, m: Seq<char>) -> Seq<char> {
    if contains_pat(line, model_tag()) || contains_pat(line, steps_tag()) {
        model_in(split_from(line, comma_sp(), 0), m)
    } else {
        m
    }
}

/// Whether a line ends the prompt: the negative prompt, or a `key: value, ...` line.
pub open spec fn ends_prompt(line: Seq<char>) -> bool {
    has_prefix(line, negative_tag()) || (contains_pat(line, colon_sp()) && contains_pat(line, comma_sp()))
}

/// Reading the lines in order: while in the prompt, lines are collected
/// until one ends it; every line from that one on may name the model.
pub open spec fn a1111_fold(lines: Seq<Seq<char>>) -> (bool, Seq<Seq<char>>, Seq<char>)
    decreases lines.len(),
{
    if lines.len() == 0 {
        (true, Seq::empty(), Seq::empty())
    } else {
        let st = a1111_fold(lines.drop_last());
        let line = lines.last();
        if st.0 && !ends_prompt(line) {
            (true, st.1.push(line), st.2)
        } else {
            (false, st.1, line_model(line, st.2))
        }
    }
}

/// Lines joined with `\n`.
pub open spec fn join_nl(ls: Seq<Seq<char>>) -> Seq<char>
    decreases ls.len(),
{
    if ls.len() == 0 {
        Seq::empty()
    } else if ls.len() == 1 {
        ls[0]
    } else {
        join_nl(ls.drop_last()) + seq!['\n'] + ls.last()
    }
}

/// The prompt and model of an AUTOMATIC1111 `parameters` text.
pub open spec fn a1111_spec(s: Seq<char>) -> (Seq<char>, Seq<char>) {
    let st = a1111_fold(lines_of(s));
    (join_nl(st.1), st.2)
}

fn chars_of(s: &str) -> (r: Vec<char>)
    ensures
        r@ == s@,
{
    let n = s.unicode_len();
    let mut out: Vec<char> = Vec::new();
    let mut i: usize = 0;
    while i < n
        invariant
            n == s@.len(),
            i <= n,
            out@ == s@.subrange(0, i as int),
        decreases n - i,
    {
        out.push(s.get_char(i));
        assert(s@.subrange(0, i + 1) == s@.subrange(0, i as int).push(s@[i as int]));
        i = i + 1;
    }
    assert(s@.subrange(0, n as int) == s@);
    out
}

fn string_of(v: &Vec<char>) -> (r: String)
    ensures
        r@ == v@,
{
    let mut s = String::new();
    let mut i: usize = 0;
    while i < v.len()
        invariant
            i <= v@.len(),
            s@ == v@.subrange(0, i as int),
        decreases v@.len() - i,
    {
        push_char(&mut s, v[i]);
        assert(v@.subrange(0, i + 1) == v@.subrange(0, i as int).push(v@[i as int]));
        i = i + 1;
    }
    assert(v@.subrange(0, v@.len() as int) == v@);
    s
}

fn slice_of(v: &Vec<char>, a: usize, b: usize) -> (r: Vec<char>)
    requires
        a <= b <= v@.len(),
    ensures
        r@ == v@.subrange(a as int, b as int),
{
    let mut out: Vec<char> = Vec::new();
    let mut i: usize = a;
    while i < b
        invariant
            a <= i <= b,
            b <= v@.len(),
            out@ == v@.subrange(a as int, i as int),
        decreases b - i,
    {
        out.push(v[i]);
        assert(v@.subrange(a as int, i + 1) == v@.subrange(a as int, i as int).push(v@[i as int]));
        i = i + 1;
    }
    out
}

fn matches_at(s: &Vec<char>, pat: &Vec<char>, i: usize) -> (r: bool)
    requires
        i + pat@.len() <= s@.len(),
    ensures
        r == (s@.subrange(i as int, i + pat@.len()) == pat@),
{
    let n = s.len();
    let mut k: usize = 0;
    while k < pat.len()
        invariant
            n == s@.len(),
            k <= pat@.len(),
            i + pat@.len() <= s@.len(),
            forall|q: int| 0 <= q < k ==> s@[i + q] == pat@[q],
        decreases pat@.len() - k,
    {
        if s[i + k] != pat[k] {
            assert(s@.subrange(i as int, i + pat@.len())[k as int] != pat@[k as int]);
            return false;
        }
        k = k + 1;
    }
    assert(s@.subrange(i as int, i + pat@.len()) =~= pat@);
    true
}

/// The first occurrence of `pat` at or after `i`.
fn find_exec(s: &Vec<char>, pat: &Vec<char>, i: usize) -> (r: Option<usize>)
    requires
        i <= s@.len(),
    ensures
        match r {
            Some(j) => j as int == find_from(s@, pat@, i as int) && i <= j,
            None => find_from(s@, pat@, i as int) < 0,
        },
    decreases s@.len() - i,
{
    if s.len() - i < pat.len() {
        return None;
    }
    if pat.len() == 0 || matches_at(s, pat, i) {
        return Some(i);
    }
    find_exec(s, pat, i + 1)
}

fn contains_exec(s: &Vec<char>, pat: &Vec<char>) -> (r: bool)
    ensures
        r == contains_pat(s@, pat@),
{
    find_exec(s, pat, 0).is_some()
}

/// The views of a list of character vectors.
pub open spec fn vecs_view(v: Seq<Vec<char>>) -> Seq<Seq<char>> {
    v.map_values(|x: Vec<char>| x@)
}

fn split_exec(s: &Vec<char>, pat: &Vec<char>) -> (r: Vec<Vec<char>>)
    requires
        pat@.len() > 0,
    ensures
        vecs_view(r@) == split_from(s@, pat@, 0),
{
    let n = s.len();
    let mut out: Vec<Vec<char>> = Vec::new();
    let mut i: usize = 0;
    assert(vecs_view(out@) + split_from(s@, pat@, 0) == split_from(s@, pat@, 0)) by {
        assert(vecs_view(out@) =~= Seq::empty());
        assert(Seq::<Seq<char>>::empty() + split_from(s@, pat@, 0) =~= split_from(s@, pat@, 0));
    }
    loop
        invariant_except_break
            n == s@.len(),
            i <= s@.len(),
            pat@.len() > 0,
            vecs_view(out@) + split_from(s@, pat@, i as int) == split_from(s@, pat@, 0),
        ensures
            vecs_view(out@) == split_from(s@, pat@, 0),
        decreases s@.len() - i,
    {
        let ghost before = vecs_view(out@);
        match find_exec(s, pat, i) {
            Some(j) => {
                proof {
                    lemma_find_bound(s@, pat@, i as int);
                }
                let piece = slice_of(s, i, j);
                out.push(piece);
                proof {
                    assert(vecs_view(out@) =~= before.push(piece@));
                    assert(split_from(s@, pat@, i as int) == seq![piece@] + split_from(s@, pat@, j + pat@.len()));
                    assert(before + (seq![piece@] + split_from(s@, pat@, j + pat@.len()))
                        =~= before.push(piece@) + split_from(s@, pat@, j + pat@.len()));
                    lemma_find_bound(s@, pat@, i as int);
                }
                i = j + pat.len();
            },
            None => {
                let piece = slice_of(s, i, s.len());
                out.push(piece);
                proof {
                    assert(vecs_view(out@) =~= before.push(piece@));
                    assert(split_from(s@, pat@, i as int) == seq![piece@]);
                    assert(before + seq![piece@] =~= before.push(piece@));
                }
                break;
            },
        }
    }
    out
}

proof fn lemma_find_bound(s: Seq<char>, pat: Seq<char>, i: int)
    ensures
        find_from(s, pat, i) >= 0 ==> i <= find_from(s, pat, i) && find_from(s, pat, i) + pat.len() <= s.len()
            && s.subrange(find_from(s, pat, i), find_from(s, pat, i) + pat.len()) == pat,
    decreases s.len() - i,
{
    if !(i < 0 || i + pat.len() > s.len()) && pat.len() > 0 && s.subrange(i, i + pat.len()) != pat {
        lemma_find_bound(s, pat, i + 1);
    }
}

fn lines_exec(s: &Vec<char>) -> (r: Vec<Vec<char>>)
    ensures
        vecs_view(r@) == lines_of(s@),
{
    let nl = vec!['\n'];
    assert(nl@ =~= seq!['\n']);
    let mut segs = split_exec(s, &nl);
    let n = s.len();
    if n == 0 || s[n - 1] == '\n' {
        let ghost before = segs@;
        if segs.len() > 0 {
            segs.pop();
        }
        proof {
            if before.len() > 0 {
                assert(vecs_view(segs@) =~= vecs_view(before).drop_last());
            } else {
                assert(vecs_view(before).drop_last() =~= Seq::empty());
                assert(vecs_view(segs@) =~= Seq::empty());
            }
        }
    }
    let ghost kept = vecs_view(segs@);
    let mut out: Vec<Vec<char>> = Vec::new();
    let mut i: usize = 0;
    while i < segs.len()
        invariant
            i <= segs@.len(),
            kept == vecs_view(segs@),
            vecs_view(out@) == kept.subrange(0, i as int).map_values(|l: Seq<char>| strip_cr(l)),
        decreases segs@.len() - i,
    {
        let l = &segs[i];
        let k = l.len();
        let line = if k > 0 && l[k - 1] == '\r' { slice_of(l, 0, k - 1) } else { slice_of(l, 0, k) };
        assert(line@ == strip_cr(l@)) by {
            assert(l@.subrange(0, k as int) =~= l@);
            if k > 0 {
                assert(l@.subrange(0, k - 1) =~= l@.drop_last());
            }
        }
        let ghost before = vecs_view(out@);
        out.push(line);
        assert(vecs_view(out@) =~= before.push(line@));
        assert(kept.subrange(0, i + 1).map_values(|l: Seq<char>| strip_cr(l))
            =~= kept.subrange(0, i as int).map_values(|l: Seq<char>| strip_cr(l)).push(strip_cr(kept[i as int])));
        i = i + 1;
    }
    assert(kept.subrange(0, kept.len() as int) =~= kept);
    out
}

fn model_exec(pairs: &Vec<Vec<char>>, m0: Vec<char>) -> (r: Vec<char>)
    ensures
        r@ == model_in(vecs_view(pairs@), m0@),
{
    let sep = vec![':', ' '];
    let key = vec!['M', 'o', 'd', 'e', 'l'];
    assert(sep@ =~= colon_sp());
    assert(key@ =~= model_key());
    let mut m = m0;
    let ghost start = m@;
    let mut i: usize = 0;
    while i < pairs.len()
        invariant
            i <= pairs@.len(),
            sep@ == colon_sp(),
            key@ == model_key(),
            m@ == model_in(vecs_view(pairs@).subrange(0, i as int), start),
        decreases pairs@.len() - i,
    {
        let p = &pairs[i];
        assert(vecs_view(pairs@).subrange(0, i + 1).drop_last() =~= vecs_view(pairs@).subrange(0, i as int));
        match find_exec(p, &sep, 0) {
            Some(j) => {
                proof {
                    lemma_find_bound(p@, sep@, 0);
                }
                let k = slice_of(p, 0, j);
                if k.len() == key.len() && matches_at(&k, &key, 0) {
                    assert(k@.subrange(0, 5) =~= k@);
                    m = slice_of(p, j + 2, p.len());
                } else {
                    proof {
                        if k@ == key@ {
                            assert(k@.subrange(0, 5) =~= k@);
                        }
                    }
                }
            },
            None => {},
        }
        i = i + 1;
    }
    assert(vecs_view(pairs@).subrange(0, pairs@.len() as int) =~= vecs_view(pairs@));
    m
}

fn join_exec(ls: &Vec<Vec<char>>) -> (r: Vec<char>)
    ensures
        r@ == join_nl(vecs_view(ls@)),
{
    let mut out: Vec<char> = Vec::new();
    let mut i: usize = 0;
    while i < ls.len()
        invariant
            i <= ls@.len(),
            out@ == join_nl(vecs_view(ls@).subrange(0, i as int)),
        decreases ls@.len() - i,
    {
        let ghost pre = vecs_view(ls@).subrange(0, i + 1);
        assert(pre.drop_last() =~= vecs_view(ls@).subrange(0, i as int));
        if i > 0 {
            out.push('\n');
        }
        let l = &ls[i];
        let mut k: usize = 0;
        let ghost base = out@;
        while k < l.len()
            invariant
                k <= l@.len(),
                out@ == base + l@.subrange(0, k as int),
            decreases l@.len() - k,
        {
            out.push(l[k]);
            assert(base + l@.subrange(0, k + 1) =~= (base + l@.subrange(0, k as int)).push(l@[k as int]));
            k = k + 1;
        }
        proof {
            assert(l@.subrange(0, l@.len() as int) =~= l@);
            if i == 0 {
                assert(base =~= Seq::empty());
                assert(pre.len() == 1);
                assert(out@ =~= pre[0]);
            } else {
                assert(out@ =~= join_nl(pre.drop_last()) + seq!['\n'] + pre.last());
            }
        }
        i = i + 1;
    }
    assert(vecs_view(ls@).subrange(0, ls@.len() as int) =~= vecs_view(ls@));
    out
}

/// Parses an AUTOMATIC1111 `parameters` text: the prompt is the lines
/// before the negative prompt or the first `key: value, ...` line, and the
/// model is the last `Model: name` pair on a line from there on that
/// carries `Model:` or `Steps:`.
pub fn parse_a1111(params: &str) -> (r: AiBasic)
    ensures
        (r.prompt@, r.model@) == a1111_spec(params@),
{
    let text = chars_of(params);
    let lines = lines_exec(&text);
    let neg = vec!['N', 'e', 'g', 'a', 't', 'i', 'v', 'e', ' ', 'p', 'r', 'o', 'm', 'p', 't', ':'];
    let cs = vec![':', ' '];
    let cm = vec![',', ' '];
    let mt = vec!['M', 'o', 'd', 'e', 'l', ':'];
    let st = vec!['S', 't', 'e', 'p', 's', ':'];
    assert(neg@ =~= negative_tag());
    assert(cs@ =~= colon_sp());
    assert(cm@ =~= comma_sp());
    assert(mt@ =~= model_tag());
    assert(st@ =~= steps_tag());
    let ghost lv = vecs_view(lines@);
    let mut in_prompt = true;
    let mut prompt_lines: Vec<Vec<char>> = Vec::new();
    let mut model: Vec<char> = Vec::new();
    let mut i: usize = 0;
    assert(vecs_view(prompt_lines@) =~= Seq::empty());
    assert(lv.subrange(0, 0) =~= Seq::empty());
    while i < lines.len()
        invariant
            i <= lines@.len(),
            lv == vecs_view(lines@),
            neg@ == negative_tag(),
            cs@ == colon_sp(),
            cm@ == comma_sp(),
            mt@ == model_tag(),
            st@ == steps_tag(),
            (in_prompt, vecs_view(prompt_lines@), model@) == a1111_fold(lv.subrange(0, i as int)),
        decreases lines@.len() - i,
    {
        let line = &lines[i];
        assert(lv.subrange(0, i + 1).drop_last() =~= lv.subrange(0, i as int));
        assert(lv.subrange(0, i + 1).last() == line@);
        let starts = line.len() >= neg.len() && matches_at(line, &neg, 0);
        assert(starts == has_prefix(line@, negative_tag()));
        let ends = starts || (contains_exec(line, &cs) && contains_exec(line, &cm));
        if in_prompt && !ends {
            let copy = slice_of(line, 0, line.len());
            assert(line@.subrange(0, line@.len() as int) =~= line@);
            let ghost before = vecs_view(prompt_lines@);
            prompt_lines.push(copy);
            assert(vecs_view(prompt_lines@) =~= before.push(line@));
        } else {
            in_prompt = false;
            if contains_exec(line, &mt) || contains_exec(line, &st) {
                let pairs = split_exec(line, &cm);
                model = model_exec(&pairs, model);
            }
        }
        i = i + 1;
    }
    assert(lv.subrange(0, lv.len() as int) =~= lv);
    let prompt = join_exec(&prompt_lines);
    AiBasic { prompt: string_of(&prompt), model: string_of(&model) }
}

/// The first position of an entry with key `k`, or -1.
pub open spec fn first_key(c: Seq<(Seq<char>, Seq<char>)>, k: Seq<char>) -> int
    decreases c.len(),
{
    if c.len() == 0 {
        -1
    } else if first_key(c.drop_last(), k) >= 0 {
        first_key(c.drop_last(), k)
    } else if c.last().0 == k {
        c.len() - 1
    } else {
        -1
    }
}

pub open spec fn prompt_key() -> Seq<char> {
    seq!['p', 'r', 'o', 'm', 'p', 't']
}

pub open spec fn parameters_key() -> Seq<char> {
    seq!['p', 'a', 'r', 'a', 'm', 'e', 't', 'e', 'r', 's']
}

/// The ComfyUI workflow text of a file: the first `prompt` entry, when it
/// starts with `{`.
pub open spec fn comfy_text_spec(c: Seq<(Seq<char>, Seq<char>)>) -> Option<Seq<char>> {
    let i = first_key(c, prompt_key());
    if i >= 0 && c[i].1.len() > 0 && c[i].1[0] == '{' { Some(c[i].1) } else { None }
}

proof fn lemma_first_key(c: Seq<(Seq<char>, Seq<char>)>, k: Seq<char>)
    ensures
        -1 <= first_key(c, k) < c.len(),
        first_key(c, k) >= 0 ==> c[first_key(c, k)].0 == k,
        forall|j: int| 0 <= j < c.len() && (first_key(c, k) < 0 || j < first_key(c, k)) ==> c[j].0 != k,
    decreases c.len(),
{
    if c.len() > 0 {
        lemma_first_key(c.drop_last(), k);
        assert forall|j: int| 0 <= j < c.len() - 1 implies c[j] == c.drop_last()[j] by {}
    }
}

fn find_entry(c: &Vec<(String, String)>, k: &str) -> (r: Option<usize>)
    ensures
        match r {
            Some(i) => i as int == first_key(crate::png::entries_view(c@), k@) && i < c@.len(),
            None => first_key(crate::png::entries_view(c@), k@) < 0,
        },
{
    let ghost v = crate::png::entries_view(c@);
    proof {
        lemma_first_key(v, k@);
    }
    let mut i: usize = 0;
    while i < c.len()
        invariant
            i <= c@.len(),
            v == crate::png::entries_view(c@),
            forall|j: int| 0 <= j < i ==> v[j].0 != k@,
        decreases c@.len() - i,
    {
        if crate::text::str_eq(c[i].0.as_str(), k) {
            proof {
                lemma_first_key(v, k@);
                assert(v[i as int].0 == k@);
            }
            return Some(i);
        }
        i = i + 1;
    }
    proof {
        lemma_first_key(v, k@);
        if first_key(v, k@) >= 0 {
            assert(v[first_key(v, k@)].0 == k@);
        }
    }
    None
}

/// The text to read as a ComfyUI workflow, if the file has one.
pub fn comfy_text(chunks: &Vec<(String, String)>) -> (r: Option<String>)
    ensures
        match (r, comfy_text_spec(crate::png::entries_view(chunks@))) {
            (Some(x), Some(y)) => x@ == y,
            (None, None) => true,
            _ => false,
        },
{
    proof {
        reveal_strlit("prompt");
        assert("prompt"@ =~= prompt_key());
    }
    match find_entry(chunks, "prompt") {
        Some(i) => {
            let v = chunks[i].1.as_str();
            assert(crate::png::entries_view(chunks@)[i as int].1 == v@);
            if v.unicode_len() > 0 && v.get_char(0) == '{' {
                Some(String::from_str(v))
            } else {
                None
            }
        },
        None => None,
    }
}

/// The generator metadata of a file's text entries: the ComfyUI reading
/// `comfy` of its workflow when it has one and that reading found
/// something, else its AUTOMATIC1111 parameters, else nothing.
pub fn ai_from_chunks(chunks: &Vec<(String, String)>, comfy: Option<AiBasic>) -> (r: Option<AiBasic>)
    ensures
        ({
            let c = crate::png::entries_view(chunks@);
            let p = first_key(c, parameters_key());
            if comfy_text_spec(c).is_some() && comfy.is_some() {
                r == comfy
            } else if p >= 0 {
                r matches Some(a) && (a.prompt@, a.model@) == a1111_spec(c[p].1)
            } else {
                r.is_none()
            }
        }),
{
    proof {
        reveal_strlit("parameters");
        assert("parameters"@ =~= parameters_key());
    }
    let has_comfy = comfy_text(chunks).is_some();
    if has_comfy && comfy.is_some() {
        return comfy;
    }
    match find_entry(chunks, "parameters") {
        Some(i) => {
            assert(crate::png::entries_view(chunks@)[i as int].1 == chunks@[i as int].1@);
            Some(parse_a1111(chunks[i].1.as_str()))
        },
        None => None,
    }
}

/// One node of a ComfyUI workflow, as far as the metadata layer reads it:
/// its class, its title, and the inputs `text`, `unet_name` and `ckpt_name`.
pub struct ComfyNode {
    pub class_type: String,
    pub title: String,
    pub text: Option<String>,
    pub unet_name: Option<String>,
    pub ckpt_name: Option<String>,
}

/// The plain-value form of a node: class, title, text, unet and checkpoint names.
pub type NodeView = (Seq<char>, Seq<char>, Option<Seq<char>>, Option<Seq<char>>, Option<Seq<char>>);

pub open spec fn opt_text(o: Option<String>) -> Option<Seq<char>> {
    match o {
        Some(s) => Some(s@),
        None => None,
    }
}

pub open spec fn node_view(n: ComfyNode) -> NodeView {
    (n.class_type@, n.title@, opt_text(n.text), opt_text(n.unet_name), opt_text(n.ckpt_name))
}

pub open spec fn nodes_view(v: Seq<ComfyNode>) -> Seq<NodeView> {
    v.map_values(|n: ComfyNode| node_view(n))
}

/// The nodes of a ComfyUI workflow text, in the order the JSON reader keeps
/// the object's keys; `None` when the text is not a JSON object.
pub uninterp spec fn comfy_nodes_of(json: Seq<char>) -> Option<Seq<NodeView>>;

/// Relies on `serde_json::from_str` and `Value`'s indexing and `as_str`:
/// reads the workflow object and picks each node's class, title and inputs,
/// a missing class or title reading as empty. The result depends on the
/// text alone.
#[verifier::external_body]
fn read_workflow(json: &str) -> (r: Option<Vec<ComfyNode>>)
    ensures
        match (r, comfy_nodes_of(json@)) {
            (Some(v), Some(n)) => nodes_view(v@) == n,
            (None, None) => true,
            _ => false,
        },
{
    let root: serde_json::Value = serde_json::from_str(json).ok()?;
    Some(root.as_object()?.values().map(|n| ComfyNode {
        class_type: n["class_type"].as_str().unwrap_or("").to_string(),
        title: n["_meta"]["title"].as_str().unwrap_or("").to_string(),
        text: n["inputs"]["text"].as_str().map(str::to_string),
        unet_name: n["inputs"]["unet_name"].as_str().map(str::to_string),
        ckpt_name: n["inputs"]["ckpt_name"].as_str().map(str::to_string),
    }).collect())
}

/// Reading the nodes in order: a `CLIPTextEncode` node whose title does not
/// say negative gives the prompt, unless a prompt was found already and its
/// title does not say positive; a model loader gives the model name.
pub open spec fn comfy_fold(nodes: Seq<NodeView>) -> (Seq<char>, Seq<char>)
    decreases nodes.len(),
{
    if nodes.len() == 0 {
        (Seq::empty(), Seq::empty())
    } else {
        let st = comfy_fold(nodes.drop_last());
        let n = nodes.last();
        let title = lower_of(n.1);
        if n.0 == "CLIPTextEncode"@ {
            match n.2 {
                Some(t) => if !contains_pat(title, "negative"@) && (st.0.len() == 0 || contains_pat(title, "positive"@)) {
                    (t, st.1)
                } else {
                    st
                },
                None => st,
            }
        } else if n.0 == "UNETLoader"@ || n.0 == "CheckpointLoaderSimple"@ || n.0 == "CheckpointLoader"@ {
            match if n.3.is_some() { n.3 } else { n.4 } {
                Some(x) => (st.0, x),
                None => st,
            }
        } else {
            st
        }
    }
}

/// The prompt and model of a workflow's nodes; `None` when both are empty.
pub open spec fn comfy_select_spec(nodes: Seq<NodeView>) -> Option<(Seq<char>, Seq<char>)> {
    let st = comfy_fold(nodes);
    if st.0.len() == 0 && st.1.len() == 0 { None } else { Some(st) }
}

fn copy_opt(o: &Option<String>) -> (r: Option<String>)
    ensures
        opt_text(r) == opt_text(*o),
{
    match o {
        Some(s) => Some(s.clone()),
        None => None,
    }
}

/// Picks the prompt and the model out of a workflow's nodes.
pub fn select_comfy(nodes: &Vec<ComfyNode>) -> (r: Option<AiBasic>)
    ensures
        match (r, comfy_select_spec(nodes_view(nodes@))) {
            (Some(a), Some(t)) => (a.prompt@, a.model@) == t,
            (None, None) => true,
            _ => false,
        },
{
    let neg = chars_of("negative");
    let pos = chars_of("positive");
    let ghost nv = nodes_view(nodes@);
    let mut prompt = String::new();
    let mut model = String::new();
    let mut i: usize = 0;
    while i < nodes.len()
        invariant
            i <= nodes@.len(),
            nv == nodes_view(nodes@),
            neg@ == "negative"@,
            pos@ == "positive"@,
            (prompt@, model@) == comfy_fold(nv.subrange(0, i as int)),
        decreases nodes@.len() - i,
    {
        let n = &nodes[i];
        let ghost pre = nv.subrange(0, i + 1);
        assert(pre.drop_last() =~= nv.subrange(0, i as int));
        assert(pre.last() == node_view(*n));
        if str_eq(n.class_type.as_str(), "CLIPTextEncode") {
            if let Some(t) = &n.text {
                let title = chars_of(lowercase(n.title.as_str()).as_str());
                if !contains_exec(&title, &neg) && (prompt.unicode_len() == 0 || contains_exec(&title, &pos)) {
                    prompt = t.clone();
                }
            }
        } else if str_eq(n.class_type.as_str(), "UNETLoader") || str_eq(n.class_type.as_str(), "CheckpointLoaderSimple")
            || str_eq(n.class_type.as_str(), "CheckpointLoader") {
            let name = if n.unet_name.is_some() { copy_opt(&n.unet_name) } else { copy_opt(&n.ckpt_name) };
            if let Some(x) = name {
                model = x;
            }
        }
        i = i + 1;
    }
    assert(nv.subrange(0, nv.len() as int) =~= nv);
    if prompt.unicode_len() == 0 && model.unicode_len() == 0 {
        None
    } else {
        Some(AiBasic { prompt, model })
    }
}

/// Reads a ComfyUI workflow text and picks its prompt and model.
pub fn parse_comfyui(json: &str) -> (r: Option<AiBasic>)
    ensures
        match comfy_nodes_of(json@) {
            None => r.is_none(),
            Some(n) => match (r, comfy_select_spec(n)) {
                (Some(a), Some(t)) => (a.prompt@, a.model@) == t,
                (None, None) => true,
                _ => false,
            },
        },
{
    match read_workflow(json) {
        Some(nodes) => select_comfy(&nodes),
        None => None,
    }
}

} // verus!

//! Heading-based chunking with size guardrails and structural prefixes.
//!
//! 1. **Heading split**: the body is cut at ATX headings outside fenced
//!    code; a stack of open headings gives each section its hierarchical
//!    path (`"Intro / Setup"`).
//! 2. **Guardrails**: sections estimated above [`MAX_TOKENS`] are cut on
//!    blank-line paragraph boundaries; a section estimated below
//!    [`MIN_TOKENS`] is merged into the next one when the two fit together.
//! 3. **Embed input**: each chunk is prefixed with `<title> / <heading path>`
//!    and hashed (SHA-256, lower-case hex) over that prefixed input, so a
//!    retitled note or a moved section gets a new hash.
//!
//! Token counts are estimated as ⌈chars / 4⌉.

use vstd::prelude::*;
use vstd::string::StrSliceExecFns;
use crate::markdown::{ParsedNote, find_newline, lemma_find_newline};
use crate::text::{
    CharSet, append_chars, chars_of, copy_opt_string, is_ws, opt_chars, skip_backward, skip_forward,
    slice_chars, string_from_chars, trim, trim_bounds, trim_end, trim_end_set, trim_start,
    trim_start_set,
};
use sha2::{Digest, Sha256};

verus! {

/// Soft upper bound for chunk size (in approximate tokens). Chunks above
/// this are sub-split on paragraph boundaries.
pub const MAX_TOKENS: u32 = 512;

/// Soft lower bound for chunk size (in approximate tokens). Chunks below
/// this are merged into the following sibling when the merged total still
/// fits within `MAX_TOKENS`.
pub const MIN_TOKENS: u32 = 64;

/// A section of a note as the chunker sees it.
pub struct Section {
    pub path: Option<Seq<char>>,
    pub text: Option<Seq<char>>,
    pub level: Option<u8>,
    pub content: Seq<char>,
}

struct RawChunk {
    heading_path: Option<String>,
    heading_text: Option<String>,
    heading_level: Option<u8>,
    content: Vec<char>,
}

impl RawChunk {
    spec fn section(&self) -> Section {
        Section {
            path: opt_chars(self.heading_path),
            text: opt_chars(self.heading_text),
            level: self.heading_level,
            content: self.content@,
        }
    }
}

spec fn sections_of_raw(v: Seq<RawChunk>) -> Seq<Section> {
    v.map_values(|r: RawChunk| r.section())
}

// ---------------------------------------------------------------------------
// Pass 1: heading split
// ---------------------------------------------------------------------------

/// The open headings, outermost first: level and text.
pub type HeadingStack = Seq<(u8, Seq<char>)>;

/// The heading path of a stack: the texts joined with `" / "`.
pub open spec fn join_path(stack: HeadingStack) -> Seq<char>
    decreases stack.len(),
{
    if stack.len() == 0 {
        Seq::empty()
    } else if stack.len() == 1 {
        stack[0].1
    } else {
        join_path(stack.drop_last()) + seq![' ', '/', ' '] + stack.last().1
    }
}

/// `stack` after closing every heading at `level` or deeper.
pub open spec fn pop_levels(stack: HeadingStack, level: u8) -> HeadingStack
    decreases stack.len(),
{
    if stack.len() > 0 && stack.last().0 >= level {
        pop_levels(stack.drop_last(), level)
    } else {
        stack
    }
}

/// Whether a line (without its line ending) opens or closes a code fence:
/// after leading whitespace it starts with ```` ``` ```` or `~~~`.
pub open spec fn opens_fence(line: Seq<char>) -> bool {
    let t = trim_start(line);
    t.len() >= 3 && ((t[0] == '`' && t[1] == '`' && t[2] == '`') || (t[0] == '~' && t[1] == '~'
        && t[2] == '~'))
}

/// Number of `#` characters that open `s`.
pub open spec fn hash_count(s: Seq<char>) -> int {
    s.len() - trim_start_set(s, CharSet::Is('#')).len()
}

/// The ATX heading on a line (without its line ending): level 1–6 given by
/// the leading `#`s after any indentation, then either nothing or a space or
/// tab; the text is the rest without surrounding whitespace and without
/// closing `#`s.
pub open spec fn atx_heading(line: Seq<char>) -> Option<(u8, Seq<char>)> {
    let s = trim_start(line);
    let n = hash_count(s);
    if n < 1 || n > 6 {
        None
    } else {
        let rest = s.subrange(n, s.len() as int);
        if rest.len() == 0 || rest[0] == ' ' || rest[0] == '\t' {
            Some(
                (
                    n as u8,
                    trim_end(trim_end_set(trim_end(trim_start(rest)), CharSet::Is('#'))),
                ),
            )
        } else {
            None
        }
    }
}

/// The state of the heading split between lines.
pub struct SplitState {
    pub stack: HeadingStack,
    pub path: Option<Seq<char>>,
    pub text: Option<Seq<char>>,
    pub level: Option<u8>,
    pub buf: Seq<char>,
    pub in_fence: bool,
    pub sections: Seq<Section>,
}

/// Sections plus the buffered section, if its trimmed text is not empty.
pub open spec fn emit(
    sections: Seq<Section>,
    path: Option<Seq<char>>,
    text: Option<Seq<char>>,
    level: Option<u8>,
    buf: Seq<char>,
) -> Seq<Section> {
    if trim(buf).len() > 0 {
        sections.push(Section { path, text, level, content: trim(buf) })
    } else {
        sections
    }
}

/// The effect of one line (with its line ending) on the heading split.
pub open spec fn split_step(st: SplitState, line: Seq<char>) -> SplitState {
    let stripped = trim_end_set(line, CharSet::Eol);
    if opens_fence(stripped) {
        SplitState { in_fence: !st.in_fence, buf: st.buf + line, ..st }
    } else if !st.in_fence && atx_heading(stripped) is Some {
        match atx_heading(stripped) {
            Some((level, text)) => {
                let stack = pop_levels(st.stack, level).push((level, text));
                SplitState {
                    stack,
                    path: Some(join_path(stack)),
                    text: Some(text),
                    level: Some(level),
                    buf: line,
                    sections: emit(st.sections, st.path, st.text, st.level, st.buf),
                    ..st
                }
            },
            None => st,
        }
    } else {
        SplitState { buf: st.buf + line, ..st }
    }
}

/// One past the end of the line that starts at `i` (its `'\n'` included).
pub open spec fn line_end(s: Seq<char>, i: int) -> int {
    let e = find_newline(s, i);
    if e < s.len() {
        e + 1
    } else {
        s.len() as int
    }
}

/// The heading split run over the lines of `s` from position `i`.
pub open spec fn split_from(s: Seq<char>, i: int, st: SplitState) -> SplitState
    decreases s.len() - i,
{
    if i < 0 || i >= s.len() {
        st
    } else {
        let e = line_end(s, i);
        if i < e <= s.len() {
            split_from(s, e, split_step(st, s.subrange(i, e)))
        } else {
            st
        }
    }
}

pub open spec fn split_start() -> SplitState {
    SplitState {
        stack: Seq::empty(),
        path: None,
        text: None,
        level: None,
        buf: Seq::empty(),
        in_fence: false,
        sections: Seq::empty(),
    }
}

/// The sections of a note body: cut at headings outside code fences, each
/// keeping its heading line, trimmed, empty ones dropped.
pub open spec fn sections_of(body: Seq<char>) -> Seq<Section> {
    let st = split_from(body, 0, split_start());
    emit(st.sections, st.path, st.text, st.level, st.buf)
}

spec fn stack_view(v: Seq<(u8, String)>) -> HeadingStack {
    v.map_values(|p: (u8, String)| (p.0, p.1@))
}

/// The heading path for a stack of headings.
fn join_stack(stack: &Vec<(u8, String)>) -> (r: String)
    ensures
        r@ == join_path(stack_view(stack@)),
{
    let ghost sv = stack_view(stack@);
    let mut acc: Vec<char> = Vec::new();
    let mut k: usize = 0;
    while k < stack.len()
        invariant
            k <= stack@.len(),
            sv == stack_view(stack@),
            acc@ == join_path(sv.take(k as int)),
        decreases stack@.len() - k,
    {
        let ghost before = acc@;
        if k > 0 {
            acc.push(' ');
            acc.push('/');
            acc.push(' ');
        }
        let piece = chars_of(stack[k].1.as_str());
        append_chars(&mut acc, &piece);
        proof {
            assert(sv.take(k + 1).drop_last() =~= sv.take(k as int));
            if k > 0 {
                assert(acc@ =~= before + seq![' ', '/', ' '] + sv[k as int].1);
            } else {
                assert(acc@ =~= sv[0].1);
            }
        }
        k = k + 1;
    }
    assert(sv.take(k as int) =~= sv);
    string_from_chars(acc.as_slice())
}

/// Parses the ATX heading on `v[lo..hi]` (a line without its ending).
fn parse_atx_heading(v: &Vec<char>, lo: usize, hi: usize) -> (r: Option<(u8, String)>)
    requires
        lo <= hi <= v@.len(),
    ensures
        match (r, atx_heading(v@.subrange(lo as int, hi as int))) {
            (Some((l, t)), Some((l2, t2))) => l == l2 && t@ == t2,
            (None, None) => true,
            _ => false,
        },
{
    let ghost line = v@.subrange(lo as int, hi as int);
    let s = skip_forward(v, lo, hi, CharSet::Ws);
    let h = skip_forward(v, s, hi, CharSet::Is('#'));
    let n = h - s;
    if n < 1 || n > 6 {
        return None;
    }
    let ghost rest = v@.subrange(h as int, hi as int);
    assert(trim_start(line).subrange(n as int, trim_start(line).len() as int) =~= rest);
    if h < hi && v[h] != ' ' && v[h] != '\t' {
        return None;
    }
    let b = skip_forward(v, h, hi, CharSet::Ws);
    let e1 = skip_backward(v, b, hi, CharSet::Ws);
    let e2 = skip_backward(v, b, e1, CharSet::Is('#'));
    let e3 = skip_backward(v, b, e2, CharSet::Ws);
    let text = crate::text::string_of_range(v, b, e3);
    Some((n as u8, text))
}

/// Emits the buffered section if its trimmed text is not empty.
fn push_section(
    path: Option<String>,
    text: Option<String>,
    level: Option<u8>,
    buf: &Vec<char>,
    out: &mut Vec<RawChunk>,
)
    ensures
        sections_of_raw(final(out)@) == emit(
            sections_of_raw(old(out)@),
            opt_chars(path),
            opt_chars(text),
            level,
            buf@,
        ),
{
    let (a, b) = trim_bounds(buf, 0, buf.len());
    assert(buf@.subrange(0, buf@.len() as int) =~= buf@);
    if a < b {
        let content = slice_chars(buf, a, b);
        let ghost before = sections_of_raw(out@);
        let chunk = RawChunk { heading_path: path, heading_text: text, heading_level: level, content };
        out.push(chunk);
        assert(sections_of_raw(out@) =~= before.push(chunk.section()));
    }
}

fn line_end_exec(v: &Vec<char>, i: usize) -> (r: usize)
    requires
        i < v@.len(),
    ensures
        r as int == line_end(v@, i as int),
        i < r <= v@.len(),
{
    let mut j = i;
    proof {
        lemma_find_newline(v@, i as int);
    }
    while j < v.len() && v[j] != '\n'
        invariant
            i <= j <= v@.len(),
            find_newline(v@, j as int) == find_newline(v@, i as int),
        decreases v@.len() - j,
    {
        j = j + 1;
    }
    if j < v.len() {
        j + 1
    } else {
        v.len()
    }
}

/// Splits a note body into heading sections.
fn split_by_headings(body: &Vec<char>) -> (r: Vec<RawChunk>)
    ensures
        sections_of_raw(r@) == sections_of(body@),
{
    let mut stack: Vec<(u8, String)> = Vec::new();
    let mut path: Option<String> = None;
    let mut text: Option<String> = None;
    let mut level: Option<u8> = None;
    let mut buf: Vec<char> = Vec::new();
    let mut in_fence = false;
    let mut chunks: Vec<RawChunk> = Vec::new();
    let mut i: usize = 0;
    assert(stack_view(stack@) =~= Seq::empty());
    assert(sections_of_raw(chunks@) =~= Seq::empty());
    while i < body.len()
        invariant
            i <= body@.len(),
            split_from(
                body@,
                i as int,
                SplitState {
                    stack: stack_view(stack@),
                    path: opt_chars(path),
                    text: opt_chars(text),
                    level,
                    buf: buf@,
                    in_fence,
                    sections: sections_of_raw(chunks@),
                },
            ) == split_from(body@, 0, split_start()),
        decreases body@.len() - i,
    {
        let e = line_end_exec(body, i);
        let ghost line = body@.subrange(i as int, e as int);
        let ghost st = SplitState {
            stack: stack_view(stack@),
            path: opt_chars(path),
            text: opt_chars(text),
            level,
            buf: buf@,
            in_fence,
            sections: sections_of_raw(chunks@),
        };
        let stripped_end = skip_backward(body, i, e, CharSet::Eol);
        let first = skip_forward(body, i, stripped_end, CharSet::Ws);
        let ghost stripped = body@.subrange(i as int, stripped_end as int);
        let fence = stripped_end - first >= 3 && ((body[first] == '`' && body[first + 1] == '`'
            && body[first + 2] == '`') || (body[first] == '~' && body[first + 1] == '~' && body[
            first + 2] == '~'));
        proof {
            let t = trim_start(stripped);
            assert(t =~= body@.subrange(first as int, stripped_end as int));
            if t.len() >= 3 {
                assert(t[0] == body@[first as int]);
                assert(t[1] == body@[first + 1]);
                assert(t[2] == body@[first + 2]);
            }
        }
        assert(fence == opens_fence(stripped));
        let mut line_chars: Vec<char> = Vec::new();
        let mut k = i;
        while k < e
            invariant
                i <= k <= e <= body@.len(),
                line_chars@ == body@.subrange(i as int, k as int),
            decreases e - k,
        {
            line_chars.push(body[k]);
            k = k + 1;
        }
        if fence {
            in_fence = !in_fence;
            append_chars(&mut buf, &line_chars);
        } else {
            let heading = if !in_fence {
                parse_atx_heading(body, i, stripped_end)
            } else {
                None
            };
            match heading {
                Some((lvl, htext)) => {
                    push_section(path, text, level, &buf, &mut chunks);
                    let ghost popped = pop_levels(stack_view(stack@), lvl);
                    while stack.len() > 0 && stack[stack.len() - 1].0 >= lvl
                        invariant
                            pop_levels(stack_view(stack@), lvl) == popped,
                        decreases stack@.len(),
                    {
                        let ghost before = stack@;
                        stack.pop();
                        assert(stack_view(stack@) =~= stack_view(before).drop_last());
                    }
                    let ghost base = stack_view(stack@);
                    let head_text = htext.clone();
                    stack.push((lvl, htext));
                    assert(stack_view(stack@) =~= base.push((lvl, head_text@)));
                    path = Some(join_stack(&stack));
                    text = Some(head_text);
                    level = Some(lvl);
                    buf = line_chars;
                },
                None => {
                    append_chars(&mut buf, &line_chars);
                },
            }
        }
        i = e;
    }
    push_section(path, text, level, &buf, &mut chunks);
    chunks
}


// ---------------------------------------------------------------------------
// Pass 2: guardrails
// ---------------------------------------------------------------------------

/// `⌈n / 4⌉` as the `u32` it is stored in (a cast, so it wraps past
/// `u32::MAX`).
pub open spec fn tokens_for(n: nat) -> u32 {
    ((n + 3) / 4) as u32
}

/// The structural prefix of a chunk: `<title> / <heading path>`, or the
/// title alone when the heading path is absent or empty.
pub open spec fn prefix_of(title: Seq<char>, path: Option<Seq<char>>) -> Seq<char> {
    match path {
        Some(p) => if p.len() > 0 {
            title + seq![' ', '/', ' '] + p
        } else {
            title
        },
        None => title,
    }
}

/// Estimated tokens of a section's embed input: prefix, blank line, content.
pub open spec fn estimate(title: Seq<char>, s: Section) -> u32 {
    tokens_for(prefix_of(title, s.path).len() + 2 + s.content.len())
}

/// First position at or after `i` where a blank line (`"\n\n"`) starts, or
/// the length of `s`.
pub open spec fn find_blank(s: Seq<char>, i: int) -> int
    decreases s.len() - i,
{
    if 0 <= i && i + 1 < s.len() {
        if s[i] == '\n' && s[i + 1] == '\n' {
            i
        } else {
            find_blank(s, i + 1)
        }
    } else {
        s.len() as int
    }
}

pub proof fn lemma_find_blank(s: Seq<char>, i: int)
    requires
        0 <= i <= s.len(),
    ensures
        i <= find_blank(s, i) <= s.len(),
        find_blank(s, i) < s.len() ==> find_blank(s, i) + 1 < s.len(),
    decreases s.len() - i,
{
    if i + 1 < s.len() && !(s[i] == '\n' && s[i + 1] == '\n') {
        lemma_find_blank(s, i + 1);
    }
}

/// `p` without leading and trailing newlines.
pub open spec fn trim_newlines(p: Seq<char>) -> Seq<char> {
    trim_end_set(trim_start_set(p, CharSet::Is('\n')), CharSet::Is('\n'))
}

/// The paragraphs of `s` from position `i`: the pieces between blank-line
/// separators, found left to right without overlap, each without
/// surrounding newlines, empty ones dropped.
pub open spec fn paragraphs_from(s: Seq<char>, i: int) -> Seq<Seq<char>>
    decreases s.len() + 1 - i,
{
    if i < 0 || i > s.len() {
        Seq::empty()
    } else {
        let j = find_blank(s, i);
        let p = trim_newlines(s.subrange(i, j));
        let here = if p.len() > 0 {
            seq![p]
        } else {
            Seq::empty()
        };
        if i <= j < s.len() {
            here + paragraphs_from(s, j + 2)
        } else {
            here
        }
    }
}

pub open spec fn paragraphs(s: Seq<char>) -> Seq<Seq<char>> {
    paragraphs_from(s, 0)
}

pub proof fn lemma_paragraphs_nonempty(s: Seq<char>, i: int)
    ensures
        forall|k: int|
            0 <= k < paragraphs_from(s, i).len() ==> (#[trigger] paragraphs_from(s, i)[k]).len()
                > 0,
    decreases s.len() + 1 - i,
{
    if 0 <= i <= s.len() {
        let j = find_blank(s, i);
        let p = trim_newlines(s.subrange(i, j));
        let here = if p.len() > 0 {
            seq![p]
        } else {
            Seq::empty()
        };
        if i <= j < s.len() {
            lemma_paragraphs_nonempty(s, j + 2);
            let rest = paragraphs_from(s, j + 2);
            assert forall|k: int| 0 <= k < (here + rest).len() implies (#[trigger] (here
                + rest)[k]).len() > 0 by {
                if k >= here.len() {
                    assert((here + rest)[k] == rest[k - here.len()]);
                }
            }
        }
    }
}

/// Greedy packing of paragraphs: the finished contents, the open
/// accumulator and its running token estimate.
pub struct Packing {
    pub out: Seq<Seq<char>>,
    pub acc: Seq<char>,
    pub tokens: int,
}

/// Adds one paragraph: when the accumulator is not empty and the paragraph
/// (counted with one token for its joining blank line) would take it over
/// [`MAX_TOKENS`], the trimmed accumulator is finished first and the count
/// restarts at `base`.
pub open spec fn pack_step(p: Packing, para: Seq<char>, base: int) -> Packing {
    let pt = tokens_for(para.len()) + 1;
    let q = if p.acc.len() > 0 && p.tokens + pt > MAX_TOKENS {
        Packing { out: p.out.push(trim(p.acc)), acc: Seq::empty(), tokens: base }
    } else {
        p
    };
    Packing {
        out: q.out,
        acc: if q.acc.len() > 0 {
            q.acc + seq!['\n', '\n'] + para
        } else {
            para
        },
        tokens: q.tokens + pt,
    }
}

pub open spec fn pack(paras: Seq<Seq<char>>, base: int) -> Packing
    decreases paras.len(),
{
    if paras.len() == 0 {
        Packing { out: Seq::empty(), acc: Seq::empty(), tokens: base }
    } else {
        pack_step(pack(paras.drop_last(), base), paras.last(), base)
    }
}

/// The contents that an over-budget section's text is cut into.
pub open spec fn sub_split_contents(content: Seq<char>, base: int) -> Seq<Seq<char>> {
    let p = pack(paragraphs(content), base);
    if trim(p.acc).len() > 0 {
        p.out.push(trim(p.acc))
    } else {
        p.out
    }
}

pub open spec fn with_content(s: Section, c: Seq<char>) -> Section {
    Section { content: c, ..s }
}

/// An over-budget section cut on paragraph boundaries; each piece keeps the
/// section's heading. A section with at most one paragraph stays whole.
pub open spec fn sub_split(title: Seq<char>, s: Section) -> Seq<Section> {
    if paragraphs(s.content).len() <= 1 {
        seq![s]
    } else {
        let cs = sub_split_contents(s.content, tokens_for(prefix_of(title, s.path).len()) as int);
        if cs.len() == 0 {
            seq![s]
        } else {
            cs.map_values(|c: Seq<char>| with_content(s, c))
        }
    }
}

pub open spec fn split_one(title: Seq<char>, s: Section) -> Seq<Section> {
    if estimate(title, s) > MAX_TOKENS {
        sub_split(title, s)
    } else {
        seq![s]
    }
}

/// Every section estimated above [`MAX_TOKENS`] replaced by its pieces.
pub open spec fn split_pass(title: Seq<char>, secs: Seq<Section>) -> Seq<Section>
    decreases secs.len(),
{
    if secs.len() == 0 {
        Seq::empty()
    } else {
        split_pass(title, secs.drop_last()) + split_one(title, secs.last())
    }
}

/// `a`, a line break unless it is empty or already ends with one, a blank
/// line, then `b`.
pub open spec fn merge_content(a: Seq<char>, b: Seq<char>) -> Seq<char> {
    let a1 = if a.len() > 0 && a.last() != '\n' {
        a.push('\n')
    } else {
        a
    };
    a1.push('\n') + b
}

/// Two sections merged: the content of both, the heading of the second.
pub open spec fn merge_sections(a: Section, b: Section) -> Section {
    Section { content: merge_content(a.content, b.content), ..b }
}

/// One forward pass from position `i`: a section estimated below
/// [`MIN_TOKENS`] is merged with the next one when their estimates sum to
/// at most [`MAX_TOKENS`]; a merged section is not merged again.
pub open spec fn merge_from(title: Seq<char>, secs: Seq<Section>, i: int) -> Seq<Section>
    decreases secs.len() - i,
{
    if i < 0 || i >= secs.len() {
        Seq::empty()
    } else {
        let ct = estimate(title, secs[i]);
        if ct < MIN_TOKENS && i + 1 < secs.len() && ct + estimate(title, secs[i + 1])
            <= MAX_TOKENS {
            seq![merge_sections(secs[i], secs[i + 1])] + merge_from(title, secs, i + 2)
        } else {
            seq![secs[i]] + merge_from(title, secs, i + 1)
        }
    }
}

/// The sections that become the chunks of a note.
pub open spec fn chunk_sections(title: Seq<char>, body: Seq<char>) -> Seq<Section> {
    merge_from(title, split_pass(title, sections_of(body)), 0)
}

fn approx_tokens_from_chars(chars: u128) -> (r: u32)
    requires
        chars <= 0xffff_ffff_ffff_ffff_ffff_ffff,
    ensures
        r == tokens_for(chars as nat),
{
    ((chars + 3) / 4) as u32
}

fn approx_tokens(text: &Vec<char>) -> (r: u32)
    ensures
        r == tokens_for(text@.len()),
{
    approx_tokens_from_chars(text.len() as u128)
}

fn prefix_for(title: &Vec<char>, heading_path: &Option<String>) -> (r: Vec<char>)
    ensures
        r@ == prefix_of(title@, opt_chars(*heading_path)),
{
    let mut out: Vec<char> = Vec::new();
    append_chars(&mut out, title);
    assert(out@ =~= title@);
    match heading_path {
        Some(path) => {
            let p = chars_of(path.as_str());
            if p.len() > 0 {
                out.push(' ');
                out.push('/');
                out.push(' ');
                append_chars(&mut out, &p);
                assert(out@ =~= title@ + seq![' ', '/', ' '] + p@);
            }
        },
        None => {},
    }
    out
}

fn estimate_tokens_with_prefix(
    title: &Vec<char>,
    heading_path: &Option<String>,
    content: &Vec<char>,
) -> (r: u32)
    ensures
        r == tokens_for(prefix_of(title@, opt_chars(*heading_path)).len() + 2 + content@.len()),
{
    let prefix = prefix_for(title, heading_path);
    approx_tokens_from_chars(prefix.len() as u128 + 2 + content.len() as u128)
}

fn find_blank_exec(v: &Vec<char>, i: usize) -> (r: usize)
    requires
        i <= v@.len(),
    ensures
        r as int == find_blank(v@, i as int),
        i <= r <= v@.len(),
{
    proof {
        lemma_find_blank(v@, i as int);
    }
    let mut j = i;
    while j < v.len() && j + 1 < v.len() && !(v[j] == '\n' && v[j + 1] == '\n')
        invariant
            i <= j <= v@.len(),
            find_blank(v@, j as int) == find_blank(v@, i as int),
        decreases v@.len() - j,
    {
        j = j + 1;
    }
    if j < v.len() && j + 1 < v.len() {
        j
    } else {
        v.len()
    }
}

pub open spec fn char_vecs(v: Seq<Vec<char>>) -> Seq<Seq<char>> {
    v.map_values(|c: Vec<char>| c@)
}

/// The paragraphs of a chunk's text.
fn split_paragraphs(v: &Vec<char>) -> (r: Vec<Vec<char>>)
    ensures
        char_vecs(r@) == paragraphs(v@),
{
    let mut out: Vec<Vec<char>> = Vec::new();
    let mut i: usize = 0;
    assert(char_vecs(out@) =~= Seq::<Seq<char>>::empty());
    loop
        invariant
            i <= v@.len(),
            char_vecs(out@) + paragraphs_from(v@, i as int) == paragraphs(v@),
        decreases v@.len() - i,
    {
        let j = find_blank_exec(v, i);
        proof {
            lemma_find_blank(v@, i as int);
        }
        let a = skip_forward(v, i, j, CharSet::Is('\n'));
        let b = skip_backward(v, a, j, CharSet::Is('\n'));
        let ghost before = char_vecs(out@);
        let ghost here = if a < b {
            seq![v@.subrange(a as int, b as int)]
        } else {
            Seq::<Seq<char>>::empty()
        };
        if a < b {
            let p = slice_chars(v, a, b);
            out.push(p);
        }
        assert(char_vecs(out@) =~= before + here);
        if j >= v.len() {
            assert(paragraphs_from(v@, i as int) == here);
            return out;
        }
        assert(paragraphs_from(v@, i as int) == here + paragraphs_from(v@, j + 2));
        assert(before + (here + paragraphs_from(v@, j + 2)) =~= before + here + paragraphs_from(
            v@,
            j + 2,
        ));
        i = j + 2;
    }
}

fn copy_chars(v: &Vec<char>) -> (r: Vec<char>)
    ensures
        r@ == v@,
{
    let mut out: Vec<char> = Vec::new();
    append_chars(&mut out, v);
    assert(out@ =~= v@);
    out
}

fn copy_raw(c: &RawChunk) -> (r: RawChunk)
    ensures
        r.section() == c.section(),
{
    RawChunk {
        heading_path: copy_opt_string(&c.heading_path),
        heading_text: copy_opt_string(&c.heading_text),
        heading_level: c.heading_level,
        content: copy_chars(&c.content),
    }
}

/// Cuts an over-budget chunk on paragraph boundaries, greedily packing
/// paragraphs while the estimate stays within [`MAX_TOKENS`]. A paragraph
/// too large on its own is left whole.
fn sub_split_raw(chunk: &RawChunk, title: &Vec<char>) -> (r: Vec<RawChunk>)
    ensures
        sections_of_raw(r@) == sub_split(title@, chunk.section()),
{
    let ghost s = chunk.section();
    let paras = split_paragraphs(&chunk.content);
    if paras.len() <= 1 {
        let mut one: Vec<RawChunk> = Vec::new();
        one.push(copy_raw(chunk));
        assert(sections_of_raw(one@) =~= seq![s]);
        return one;
    }
    proof {
        lemma_paragraphs_nonempty(chunk.content@, 0);
    }
    let prefix = prefix_for(title, &chunk.heading_path);
    let base = approx_tokens_from_chars(prefix.len() as u128);
    let ghost pv = char_vecs(paras@);
    let mut contents: Vec<Vec<char>> = Vec::new();
    let mut acc: Vec<char> = Vec::new();
    let mut acc_tokens: u64 = base as u64;
    let mut k: usize = 0;
    assert(pv.take(0) =~= Seq::<Seq<char>>::empty());
    assert(char_vecs(contents@) =~= Seq::<Seq<char>>::empty());
    while k < paras.len()
        invariant
            k <= paras@.len(),
            pv == char_vecs(paras@),
            pv == paragraphs(chunk.content@),
            forall|m: int| 0 <= m < pv.len() ==> (#[trigger] pv[m]).len() > 0,
            pack(pv.take(k as int), base as int).out == char_vecs(contents@),
            pack(pv.take(k as int), base as int).acc == acc@,
            pack(pv.take(k as int), base as int).tokens == acc_tokens as int,
            acc_tokens <= base + 0x1_0000_0200,
            acc@.len() == 0 ==> acc_tokens == base,
        decreases paras@.len() - k,
    {
        let para = &paras[k];
        let para_tokens: u64 = approx_tokens(para) as u64 + 1;
        let ghost before = char_vecs(contents@);
        if acc.len() > 0 && acc_tokens + para_tokens > MAX_TOKENS as u64 {
            let (a, b) = trim_bounds(&acc, 0, acc.len());
            assert(acc@.subrange(0, acc@.len() as int) =~= acc@);
            contents.push(slice_chars(&acc, a, b));
            assert(char_vecs(contents@) =~= before.push(trim(acc@)));
            acc = Vec::new();
            acc_tokens = base as u64;
        }
        let ghost q_acc = acc@;
        if acc.len() > 0 {
            acc.push('\n');
            acc.push('\n');
        }
        append_chars(&mut acc, para);
        proof {
            if q_acc.len() > 0 {
                assert(acc@ =~= q_acc + seq!['\n', '\n'] + pv[k as int]);
            } else {
                assert(acc@ =~= pv[k as int]);
            }
            assert(pv.take(k + 1).drop_last() =~= pv.take(k as int));
            assert(pv.take(k + 1).last() == pv[k as int]);
        }
        acc_tokens = acc_tokens + para_tokens;
        k = k + 1;
    }
    assert(pv.take(k as int) =~= pv);
    let ghost before = char_vecs(contents@);
    let (a, b) = trim_bounds(&acc, 0, acc.len());
    assert(acc@.subrange(0, acc@.len() as int) =~= acc@);
    if a < b {
        contents.push(slice_chars(&acc, a, b));
        assert(char_vecs(contents@) =~= before.push(trim(acc@)));
    }
    let ghost cs = char_vecs(contents@);
    assert(cs == sub_split_contents(chunk.content@, base as int));
    if contents.len() == 0 {
        let mut one: Vec<RawChunk> = Vec::new();
        one.push(copy_raw(chunk));
        assert(sections_of_raw(one@) =~= seq![s]);
        return one;
    }
    let mut out: Vec<RawChunk> = Vec::new();
    let mut m: usize = 0;
    while m < contents.len()
        invariant
            m <= contents@.len(),
            cs == char_vecs(contents@),
            s == chunk.section(),
            sections_of_raw(out@) == cs.take(m as int).map_values(
                |c: Seq<char>| with_content(s, c),
            ),
        decreases contents@.len() - m,
    {
        let ghost before_out = sections_of_raw(out@);
        let piece = RawChunk {
            heading_path: copy_opt_string(&chunk.heading_path),
            heading_text: copy_opt_string(&chunk.heading_text),
            heading_level: chunk.heading_level,
            content: copy_chars(&contents[m]),
        };
        out.push(piece);
        assert(sections_of_raw(out@) =~= before_out.push(with_content(s, cs[m as int])));
        assert(cs.take(m + 1).map_values(|c: Seq<char>| with_content(s, c)) =~= cs.take(
            m as int,
        ).map_values(|c: Seq<char>| with_content(s, c)).push(with_content(s, cs[m as int])));
        m = m + 1;
    }
    assert(cs.take(m as int) =~= cs);
    out
}

/// A merged chunk: the content of both, the heading of the second, which
/// is the section the merged text now belongs to.
fn merge_pair(a: &RawChunk, b: &RawChunk) -> (r: RawChunk)
    ensures
        r.section() == merge_sections(a.section(), b.section()),
{
    let mut content = copy_chars(&a.content);
    if content.len() > 0 && content[content.len() - 1] != '\n' {
        content.push('\n');
    }
    content.push('\n');
    let ghost a1 = content@;
    append_chars(&mut content, &b.content);
    assert(content@ =~= merge_content(a.content@, b.content@));
    RawChunk {
        heading_path: copy_opt_string(&b.heading_path),
        heading_text: copy_opt_string(&b.heading_text),
        heading_level: b.heading_level,
        content,
    }
}

/// Runs both guardrails: the sub-split of over-budget chunks, then one
/// merge pass over the result.
fn guardrail_sections(raw: &Vec<RawChunk>, title: &Vec<char>) -> (r: Vec<RawChunk>)
    ensures
        sections_of_raw(r@) == merge_from(title@, split_pass(title@, sections_of_raw(raw@)), 0),
{
    let ghost secs = sections_of_raw(raw@);
    let mut after_split: Vec<RawChunk> = Vec::new();
    let mut i: usize = 0;
    assert(secs.take(0) =~= Seq::<Section>::empty());
    assert(sections_of_raw(after_split@) =~= Seq::<Section>::empty());
    while i < raw.len()
        invariant
            i <= raw@.len(),
            secs == sections_of_raw(raw@),
            sections_of_raw(after_split@) == split_pass(title@, secs.take(i as int)),
        decreases raw@.len() - i,
    {
        let chunk = &raw[i];
        let est = estimate_tokens_with_prefix(title, &chunk.heading_path, &chunk.content);
        let ghost before = sections_of_raw(after_split@);
        let mut pieces = if est > MAX_TOKENS {
            sub_split_raw(chunk, title)
        } else {
            let mut one: Vec<RawChunk> = Vec::new();
            one.push(copy_raw(chunk));
            assert(sections_of_raw(one@) =~= seq![chunk.section()]);
            one
        };
        let ghost pv = sections_of_raw(pieces@);
        after_split.append(&mut pieces);
        assert(sections_of_raw(after_split@) =~= before + pv);
        assert(secs.take(i + 1).drop_last() =~= secs.take(i as int));
        i = i + 1;
    }
    assert(secs.take(i as int) =~= secs);
    let ghost sp = sections_of_raw(after_split@);
    let mut merged: Vec<RawChunk> = Vec::new();
    let mut j: usize = 0;
    assert(sections_of_raw(merged@) =~= Seq::<Section>::empty());
    while j < after_split.len()
        invariant
            j <= after_split@.len(),
            sp == sections_of_raw(after_split@),
            sections_of_raw(merged@) + merge_from(title@, sp, j as int) == merge_from(
                title@,
                sp,
                0,
            ),
        decreases after_split@.len() - j,
    {
        let ghost before = sections_of_raw(merged@);
        let cur = &after_split[j];
        let cur_tokens = estimate_tokens_with_prefix(title, &cur.heading_path, &cur.content);
        let mut merged_next = false;
        if cur_tokens < MIN_TOKENS && j + 1 < after_split.len() {
            let next = &after_split[j + 1];
            let next_tokens = estimate_tokens_with_prefix(title, &next.heading_path, &next.content);
            if cur_tokens as u64 + next_tokens as u64 <= MAX_TOKENS as u64 {
                let m = merge_pair(cur, next);
                merged.push(m);
                assert(sections_of_raw(merged@) =~= before.push(
                    merge_sections(sp[j as int], sp[j + 1]),
                ));
                assert(merge_from(title@, sp, j as int) == seq![
                    merge_sections(sp[j as int], sp[j + 1]),
                ] + merge_from(title@, sp, j + 2));
                merged_next = true;
            }
        }
        if merged_next {
            assert(before + (seq![merge_sections(sp[j as int], sp[j + 1])] + merge_from(
                title@,
                sp,
                j + 2,
            )) =~= before.push(merge_sections(sp[j as int], sp[j + 1])) + merge_from(
                title@,
                sp,
                j + 2,
            ));
            j = j + 2;
        } else {
            merged.push(copy_raw(cur));
            assert(sections_of_raw(merged@) =~= before.push(sp[j as int]));
            assert(merge_from(title@, sp, j as int) == seq![sp[j as int]] + merge_from(
                title@,
                sp,
                j + 1,
            ));
            assert(before + (seq![sp[j as int]] + merge_from(title@, sp, j + 1)) =~= before.push(
                sp[j as int],
            ) + merge_from(title@, sp, j + 1));
            j = j + 1;
        }
    }
    assert(sections_of_raw(merged@) + Seq::<Section>::empty() =~= sections_of_raw(merged@));
    merged
}


// ---------------------------------------------------------------------------
// Pass 3: embed input and hashing
// ---------------------------------------------------------------------------

/// A single chunk ready to be embedded and stored.
#[derive(Debug, Clone, PartialEq, Eq)]
pub struct Chunk {
    /// 0-based ordinal within the source file.
    pub chunk_index: usize,
    /// Hierarchical heading path (e.g. `"Intro / Setup"`). `None` for chunks
    /// that appear before any heading in the file.
    pub heading_path: Option<String>,
    /// Leaf heading text (e.g. `"Setup"` from `"Intro / Setup"`). `None`
    /// for chunks that appear before any heading.
    pub heading_text: Option<String>,
    /// Markdown level of the leaf heading (1–6). `None` when `heading_text`
    /// is `None`.
    pub heading_level: Option<u8>,
    /// Raw chunk text, without any added prefix.
    pub content: String,
    /// What gets fed to the embedder: the content prefixed with
    /// `<title> / <heading_path>` and a blank line.
    pub embed_input: String,
    /// Lower-case hex SHA-256 of [`Chunk::embed_input`].
    pub content_hash: String,
    /// Approximate token count (`⌈chars / 4⌉`) of the embed input.
    pub token_count: u32,
}

/// The text fed to the embedder for a section.
pub open spec fn embed_input_of(title: Seq<char>, s: Section) -> Seq<char> {
    prefix_of(title, s.path) + seq!['\n', '\n'] + s.content
}

/// The lower-case hex digit for `n` (below 16).
pub open spec fn hex_digit(n: int) -> char {
    if n < 10 {
        (48 + n) as char
    } else {
        (87 + n) as char
    }
}

/// Each byte as two lower-case hex digits, most significant first.
pub open spec fn lower_hex(bytes: Seq<u8>) -> Seq<char>
    decreases bytes.len(),
{
    if bytes.len() == 0 {
        Seq::empty()
    } else {
        lower_hex(bytes.drop_last()) + seq![
            hex_digit(bytes.last() as int / 16),
            hex_digit(bytes.last() as int % 16),
        ]
    }
}

/// The SHA-256 digest of the UTF-8 encoding of a text.
pub uninterp spec fn sha256_of(text: Seq<char>) -> Seq<u8>;

/// SHA-256 of the UTF-8 bytes of `text`, computed by the `sha2` crate
/// (`Sha256::digest`). Claimed: the digest is a function of the text alone
/// and is 32 bytes long.
#[verifier::external_body]
fn sha256_digest(text: &str) -> (r: Vec<u8>)
    ensures
        r@ == sha256_of(text@),
        r@.len() == 32,
{
    Sha256::digest(text.as_bytes()).to_vec()
}

fn hex_digit_exec(n: u8) -> (c: char)
    requires
        n < 16,
    ensures
        c == hex_digit(n as int),
{
    if n < 10 {
        (48u8 + n) as char
    } else {
        (87u8 + n) as char
    }
}

/// Lower-case hex SHA-256 of `text`.
fn sha256_hex(text: &str) -> (r: String)
    ensures
        r@ == lower_hex(sha256_of(text@)),
        r@.len() == 64,
{
    let digest = sha256_digest(text);
    let mut out: Vec<char> = Vec::new();
    let mut i: usize = 0;
    assert(digest@.take(0) =~= Seq::<u8>::empty());
    while i < digest.len()
        invariant
            i <= digest@.len(),
            out@ == lower_hex(digest@.take(i as int)),
            out@.len() == 2 * i,
        decreases digest@.len() - i,
    {
        let byte = digest[i];
        out.push(hex_digit_exec(byte / 16));
        out.push(hex_digit_exec(byte % 16));
        assert(digest@.take(i + 1).drop_last() =~= digest@.take(i as int));
        assert(out@ =~= lower_hex(digest@.take(i + 1)));
        i = i + 1;
    }
    assert(digest@.take(i as int) =~= digest@);
    string_from_chars(out.as_slice())
}

/// The chunk built at position `index` from a section.
pub open spec fn chunk_built(c: Chunk, index: int, title: Seq<char>, s: Section) -> bool {
    let input = embed_input_of(title, s);
    &&& c.chunk_index == index
    &&& opt_chars(c.heading_path) == s.path
    &&& opt_chars(c.heading_text) == s.text
    &&& c.heading_level == s.level
    &&& c.content@ == s.content
    &&& c.embed_input@ == input
    &&& c.content_hash@ == lower_hex(sha256_of(input))
    &&& c.token_count == tokens_for(input.len())
}

fn build_chunk(index: usize, title: &Vec<char>, raw: RawChunk) -> (r: Chunk)
    ensures
        chunk_built(r, index as int, title@, raw.section()),
{
    let mut input = prefix_for(title, &raw.heading_path);
    input.push('\n');
    input.push('\n');
    append_chars(&mut input, &raw.content);
    assert(input@ =~= embed_input_of(title@, raw.section()));
    let embed_input = string_from_chars(input.as_slice());
    let content_hash = sha256_hex(embed_input.as_str());
    let token_count = approx_tokens(&input);
    let content = string_from_chars(raw.content.as_slice());
    Chunk {
        chunk_index: index,
        heading_path: raw.heading_path,
        heading_text: raw.heading_text,
        heading_level: raw.heading_level,
        content,
        embed_input,
        content_hash,
        token_count,
    }
}

/// Chunks a parsed note: heading split, guardrails, then embed inputs and
/// hashes. `title` is woven into every chunk's embed input so the
/// embedder sees the note's name as part of each section's context.
pub fn chunk_note(title: &str, note: &ParsedNote) -> (r: Vec<Chunk>)
    ensures
        r@.len() == chunk_sections(title@, note.body@).len(),
        forall|i: int|
            0 <= i < r@.len() ==> chunk_built(
                #[trigger] r@[i],
                i,
                title@,
                chunk_sections(title@, note.body@)[i],
            ),
{
    let title_chars = chars_of(title);
    let body = chars_of(note.body.as_str());
    let raw = split_by_headings(&body);
    let mut secs = guardrail_sections(&raw, &title_chars);
    let ghost sv = sections_of_raw(secs@);
    assert(sv == chunk_sections(title@, note.body@));
    let mut out: Vec<Chunk> = Vec::new();
    let mut i: usize = 0;
    let n = secs.len();
    // Built back to front so that each section can be moved out.
    let mut rev: Vec<Chunk> = Vec::new();
    while secs.len() > 0
        invariant
            secs@.len() <= n,
            n == sv.len(),
            title_chars@ == title@,
            sections_of_raw(secs@) == sv.take(secs@.len() as int),
            rev@.len() == n - secs@.len(),
            forall|k: int|
                0 <= k < rev@.len() ==> chunk_built(
                    #[trigger] rev@[k],
                    n - 1 - k,
                    title@,
                    sv[n - 1 - k],
                ),
        decreases secs@.len(),
    {
        let ghost before = secs@;
        let raw_chunk = secs.pop().unwrap();
        let idx = secs.len();
        assert(raw_chunk == before[idx as int]);
        assert(sections_of_raw(before)[idx as int] == before[idx as int].section());
        assert(sv.take(idx + 1)[idx as int] == sv[idx as int]);
        assert(sections_of_raw(secs@) =~= sections_of_raw(before).drop_last());
        assert(sv.take(idx as int) =~= sv.take(idx + 1).drop_last());
        assert(raw_chunk.section() == sv[idx as int]);
        let ghost old_rev = rev@;
        let c = build_chunk(idx, &title_chars, raw_chunk);
        rev.push(c);
        assert forall|k: int| 0 <= k < rev@.len() implies chunk_built(
            #[trigger] rev@[k],
            n - 1 - k,
            title@,
            sv[n - 1 - k],
        ) by {
            if k < old_rev.len() {
                assert(rev@[k] == old_rev[k]);
            } else {
                assert(rev@[k] == c);
                assert(n - 1 - k == idx);
            }
        }
    }
    while i < n
        invariant
            i <= n,
            n == sv.len(),
            rev@.len() == n - i,
            out@.len() == i,
            forall|k: int|
                0 <= k < rev@.len() ==> chunk_built(
                    #[trigger] rev@[k],
                    n - 1 - k,
                    title@,
                    sv[n - 1 - k],
                ),
            forall|k: int| 0 <= k < out@.len() ==> chunk_built(#[trigger] out@[k], k, title@, sv[k]),
        decreases n - i,
    {
        let c = rev.pop().unwrap();
        assert(chunk_built(c, i as int, title@, sv[i as int]));
        out.push(c);
        i = i + 1;
    }
    out
}


// ---------------------------------------------------------------------------
// Laws
// ---------------------------------------------------------------------------

/// The heading fields of a section come together: all present or all
/// absent, with a level from 1 to 6.
pub open spec fn heading_fields_agree(s: Section) -> bool {
    &&& (s.path is Some <==> s.text is Some)
    &&& (s.text is Some <==> s.level is Some)
    &&& (s.level matches Some(l) ==> 1 <= l <= 6)
}

pub open spec fn all_agree(secs: Seq<Section>) -> bool {
    forall|k: int| 0 <= k < secs.len() ==> heading_fields_agree(#[trigger] secs[k])
}

spec fn state_agrees(st: SplitState) -> bool {
    &&& heading_fields_agree(
        Section { path: st.path, text: st.text, level: st.level, content: Seq::empty() },
    )
    &&& all_agree(st.sections)
}

proof fn lemma_emit_agrees(
    sections: Seq<Section>,
    path: Option<Seq<char>>,
    text: Option<Seq<char>>,
    level: Option<u8>,
    buf: Seq<char>,
)
    requires
        all_agree(sections),
        heading_fields_agree(Section { path, text, level, content: Seq::empty() }),
    ensures
        all_agree(emit(sections, path, text, level, buf)),
{
    let e = emit(sections, path, text, level, buf);
    assert forall|k: int| 0 <= k < e.len() implies heading_fields_agree(#[trigger] e[k]) by {
        if k < sections.len() {
            assert(e[k] == sections[k]);
        }
    }
}

proof fn lemma_split_from_agrees(s: Seq<char>, i: int, st: SplitState)
    requires
        state_agrees(st),
    ensures
        state_agrees(split_from(s, i, st)),
    decreases s.len() - i,
{
    if 0 <= i < s.len() {
        let e = line_end(s, i);
        if i < e <= s.len() {
            let line = s.subrange(i, e);
            let stripped = trim_end_set(line, CharSet::Eol);
            if !opens_fence(stripped) && !st.in_fence && atx_heading(stripped) is Some {
                lemma_emit_agrees(st.sections, st.path, st.text, st.level, st.buf);
            }
            lemma_split_from_agrees(s, e, split_step(st, line));
        }
    }
}

proof fn lemma_sections_agree(body: Seq<char>)
    ensures
        all_agree(sections_of(body)),
{
    lemma_split_from_agrees(body, 0, split_start());
    let st = split_from(body, 0, split_start());
    lemma_emit_agrees(st.sections, st.path, st.text, st.level, st.buf);
}

proof fn lemma_split_pass_agrees(title: Seq<char>, secs: Seq<Section>)
    requires
        all_agree(secs),
    ensures
        all_agree(split_pass(title, secs)),
    decreases secs.len(),
{
    if secs.len() > 0 {
        let init = secs.drop_last();
        assert(all_agree(init)) by {
            assert forall|k: int| 0 <= k < init.len() implies heading_fields_agree(
                #[trigger] init[k],
            ) by {
                assert(init[k] == secs[k]);
            }
        }
        lemma_split_pass_agrees(title, init);
        let last = secs.last();
        assert(heading_fields_agree(secs[secs.len() - 1]));
        let a = split_pass(title, init);
        let b = split_one(title, last);
        assert(all_agree(b));
        assert forall|k: int| 0 <= k < (a + b).len() implies heading_fields_agree(
            #[trigger] (a + b)[k],
        ) by {
            if k < a.len() {
                assert((a + b)[k] == a[k]);
            } else {
                assert((a + b)[k] == b[k - a.len()]);
            }
        }
        assert(split_pass(title, secs) == a + b);
    }
}

proof fn lemma_merge_from_agrees(title: Seq<char>, secs: Seq<Section>, i: int)
    requires
        all_agree(secs),
    ensures
        all_agree(merge_from(title, secs, i)),
    decreases secs.len() - i,
{
    if 0 <= i < secs.len() {
        let ct = estimate(title, secs[i]);
        let merges = ct < MIN_TOKENS && i + 1 < secs.len() && ct + estimate(title, secs[i + 1])
            <= MAX_TOKENS;
        let next = if merges {
            i + 2
        } else {
            i + 1
        };
        let head = if merges {
            merge_sections(secs[i], secs[i + 1])
        } else {
            secs[i]
        };
        lemma_merge_from_agrees(title, secs, next);
        let rest = merge_from(title, secs, next);
        assert(merge_from(title, secs, i) == seq![head] + rest);
        assert forall|k: int| 0 <= k < (seq![head] + rest).len() implies heading_fields_agree(
            #[trigger] (seq![head] + rest)[k],
        ) by {
            if k > 0 {
                assert((seq![head] + rest)[k] == rest[k - 1]);
            }
        }
    }
}

/// Every chunk's heading fields come together: the heading path, the leaf
/// heading text and the heading level are all present (with a level from
/// 1 to 6) or all absent.
pub proof fn chunk_heading_fields_agree(title: Seq<char>, body: Seq<char>)
    ensures
        all_agree(chunk_sections(title, body)),
{
    lemma_sections_agree(body);
    lemma_split_pass_agrees(title, sections_of(body));
    lemma_merge_from_agrees(title, split_pass(title, sections_of(body)), 0);
}

/// The levels of a heading stack strictly increase from the outermost
/// heading in.
pub open spec fn levels_increase(stack: HeadingStack) -> bool {
    forall|i: int, j: int| 0 <= i < j < stack.len() ==> #[trigger] stack[i].0 < #[trigger] stack[j].0
}

/// A section's heading fields come from a stack of open headings whose
/// levels strictly increase and which ends at the section's own heading:
/// the path joins the stack's texts, the text and level are the last
/// heading's. A section before any heading has none of them.
pub open spec fn headed_by_stack(s: Section) -> bool {
    match s.level {
        Some(l) => exists|stk: HeadingStack|
            #![trigger join_path(stk)]
            levels_increase(stk) && stk.len() > 0 && stk.last() == (l, s.text->0) && s.text
                is Some && s.path == Some(join_path(stk)),
        None => s.path is None && s.text is None,
    }
}

pub open spec fn all_headed(secs: Seq<Section>) -> bool {
    forall|k: int| 0 <= k < secs.len() ==> headed_by_stack(#[trigger] secs[k])
}

spec fn state_headed(st: SplitState) -> bool {
    &&& levels_increase(st.stack)
    &&& match st.level {
        Some(l) => st.stack.len() > 0 && st.stack.last() == (l, st.text->0) && st.text is Some
            && st.path == Some(join_path(st.stack)),
        None => st.path is None && st.text is None,
    }
    &&& all_headed(st.sections)
}

/// Opening a heading of level `level` closes exactly the open headings at
/// `level` or deeper: of a stack with increasing levels, what stays open
/// is its outer part, every heading of a level below `level`, and every
/// heading removed has level `level` or more.
pub proof fn closing_keeps_outer_headings(stack: HeadingStack, level: u8)
    requires
        levels_increase(stack),
    ensures
        pop_levels(stack, level).len() <= stack.len(),
        pop_levels(stack, level) == stack.take(pop_levels(stack, level).len() as int),
        forall|k: int|
            0 <= k < pop_levels(stack, level).len() ==> #[trigger] pop_levels(stack, level)[k].0
                < level,
        forall|k: int|
            pop_levels(stack, level).len() <= k < stack.len() ==> #[trigger] stack[k].0 >= level,
    decreases stack.len(),
{
    if stack.len() > 0 && stack.last().0 >= level {
        let init = stack.drop_last();
        assert(levels_increase(init)) by {
            assert forall|i: int, j: int| 0 <= i < j < init.len() implies #[trigger] init[i].0
                < #[trigger] init[j].0 by {
                assert(init[i] == stack[i] && init[j] == stack[j]);
            }
        }
        closing_keeps_outer_headings(init, level);
        let p = pop_levels(init, level);
        assert forall|k: int| p.len() <= k < stack.len() implies #[trigger] stack[k].0 >= level by {
            if k < init.len() {
                assert(init[k] == stack[k]);
            }
        }
        assert(p =~= stack.take(p.len() as int)) by {
            assert forall|k: int| 0 <= k < p.len() implies p[k] == stack.take(p.len() as int)[k] by {
                assert(init.take(p.len() as int)[k] == init[k]);
                assert(init[k] == stack[k]);
            }
        }
    } else {
        assert(stack.take(stack.len() as int) =~= stack);
        if stack.len() > 0 {
            assert forall|k: int| 0 <= k < stack.len() implies #[trigger] stack[k].0 < level by {
                if k < stack.len() - 1 {
                    assert(stack[k].0 < stack[stack.len() - 1].0);
                }
            }
        }
    }
}

/// Opening a heading of level `level` keeps the levels increasing, and the
/// new heading is the last.
proof fn lemma_open_heading(stack: HeadingStack, level: u8, text: Seq<char>)
    requires
        levels_increase(stack),
    ensures
        levels_increase(pop_levels(stack, level).push((level, text))),
{
    closing_keeps_outer_headings(stack, level);
    let p = pop_levels(stack, level);
    let q = p.push((level, text));
    assert forall|i: int, j: int| 0 <= i < j < q.len() implies #[trigger] q[i].0 < #[trigger] q[j].0 by {
        assert(q[i] == p[i]);
        if j < p.len() {
            assert(q[j] == p[j]);
            assert(p[i] == stack[i] && p[j] == stack[j]);
        }
    }
}

proof fn lemma_emit_headed(
    sections: Seq<Section>,
    path: Option<Seq<char>>,
    text: Option<Seq<char>>,
    level: Option<u8>,
    buf: Seq<char>,
)
    requires
        all_headed(sections),
        headed_by_stack(Section { path, text, level, content: Seq::empty() }),
    ensures
        all_headed(emit(sections, path, text, level, buf)),
{
    let e = emit(sections, path, text, level, buf);
    assert forall|k: int| 0 <= k < e.len() implies headed_by_stack(#[trigger] e[k]) by {
        if k < sections.len() {
            assert(e[k] == sections[k]);
        } else {
            let x = Section { path, text, level, content: trim(buf) };
            assert(e[k] == x);
            if let Some(l) = level {
                let stk = choose|stk: HeadingStack|
                    #![trigger join_path(stk)]
                    levels_increase(stk) && stk.len() > 0 && stk.last() == (l, text->0) && text
                        is Some && path == Some(join_path(stk));
                assert(levels_increase(stk) && stk.len() > 0 && stk.last() == (l, x.text->0)
                    && x.text is Some && x.path == Some(join_path(stk)));
            }
        }
    }
}

proof fn lemma_state_section_headed(st: SplitState)
    requires
        state_headed(st),
    ensures
        headed_by_stack(Section { path: st.path, text: st.text, level: st.level, content: Seq::empty() }),
{
    if let Some(l) = st.level {
        let stk = st.stack;
        assert(levels_increase(stk) && stk.len() > 0 && stk.last() == (l, st.text->0)
            && st.text is Some && st.path == Some(join_path(stk)));
    }
}

proof fn lemma_split_from_headed(s: Seq<char>, i: int, st: SplitState)
    requires
        state_headed(st),
    ensures
        state_headed(split_from(s, i, st)),
    decreases s.len() - i,
{
    if 0 <= i < s.len() {
        let e = line_end(s, i);
        if i < e <= s.len() {
            let line = s.subrange(i, e);
            let stripped = trim_end_set(line, CharSet::Eol);
            if !opens_fence(stripped) && !st.in_fence && atx_heading(stripped) is Some {
                let (level, text) = atx_heading(stripped)->0;
                lemma_state_section_headed(st);
                lemma_emit_headed(st.sections, st.path, st.text, st.level, st.buf);
                lemma_open_heading(st.stack, level, text);
            }
            lemma_split_from_headed(s, e, split_step(st, line));
        }
    }
}

proof fn lemma_split_pass_headed(title: Seq<char>, secs: Seq<Section>)
    requires
        all_headed(secs),
    ensures
        all_headed(split_pass(title, secs)),
    decreases secs.len(),
{
    if secs.len() > 0 {
        let init = secs.drop_last();
        assert(all_headed(init)) by {
            assert forall|k: int| 0 <= k < init.len() implies headed_by_stack(#[trigger] init[k]) by {
                assert(init[k] == secs[k]);
            }
        }
        lemma_split_pass_headed(title, init);
        let last = secs.last();
        assert(headed_by_stack(secs[secs.len() - 1]));
        let a = split_pass(title, init);
        let b = split_one(title, last);
        assert forall|k: int| 0 <= k < b.len() implies headed_by_stack(#[trigger] b[k]) by {
            assert(b[k].path == last.path && b[k].text == last.text && b[k].level == last.level);
            if let Some(l) = last.level {
                let stk = choose|stk: HeadingStack|
                    #![trigger join_path(stk)]
                    levels_increase(stk) && stk.len() > 0 && stk.last() == (l, last.text->0)
                        && last.text is Some && last.path == Some(join_path(stk));
                assert(levels_increase(stk) && stk.len() > 0 && stk.last() == (l, b[k].text->0)
                    && b[k].text is Some && b[k].path == Some(join_path(stk)));
            }
        }
        assert forall|k: int| 0 <= k < (a + b).len() implies headed_by_stack(#[trigger] (a + b)[k]) by {
            if k < a.len() {
                assert((a + b)[k] == a[k]);
            } else {
                assert((a + b)[k] == b[k - a.len()]);
            }
        }
        assert(split_pass(title, secs) == a + b);
    }
}

proof fn lemma_merge_from_headed(title: Seq<char>, secs: Seq<Section>, i: int)
    requires
        all_headed(secs),
    ensures
        all_headed(merge_from(title, secs, i)),
    decreases secs.len() - i,
{
    if 0 <= i < secs.len() {
        let ct = estimate(title, secs[i]);
        let merges = ct < MIN_TOKENS && i + 1 < secs.len() && ct + estimate(title, secs[i + 1])
            <= MAX_TOKENS;
        let next = if merges {
            i + 2
        } else {
            i + 1
        };
        let head = if merges {
            merge_sections(secs[i], secs[i + 1])
        } else {
            secs[i]
        };
        lemma_merge_from_headed(title, secs, next);
        let rest = merge_from(title, secs, next);
        assert(merge_from(title, secs, i) == seq![head] + rest);
        assert(headed_by_stack(head)) by {
            let src = if merges {
                secs[i + 1]
            } else {
                secs[i]
            };
            assert(headed_by_stack(src));
            assert(head.path == src.path && head.text == src.text && head.level == src.level);
            if let Some(l) = src.level {
                let stk = choose|stk: HeadingStack|
                    #![trigger join_path(stk)]
                    levels_increase(stk) && stk.len() > 0 && stk.last() == (l, src.text->0)
                        && src.text is Some && src.path == Some(join_path(stk));
                assert(levels_increase(stk) && stk.len() > 0 && stk.last() == (l, head.text->0)
                    && head.text is Some && head.path == Some(join_path(stk)));
            }
        }
        assert forall|k: int| 0 <= k < (seq![head] + rest).len() implies headed_by_stack(
            #[trigger] (seq![head] + rest)[k],
        ) by {
            if k > 0 {
                assert((seq![head] + rest)[k] == rest[k - 1]);
            }
        }
    }
}

/// Every chunk's heading path is that of its open headings: a heading of
/// level L closes every open heading of level L or deeper, so the path is
/// the texts of a stack of headings whose levels strictly increase and
/// which ends at the chunk's own heading (its text and level). Thus
/// `# A`, `## B`, `### C`, `# D` gives the path `D`. While the heading
/// split runs, the open-heading stack keeps increasing levels and ends at
/// the current heading.
pub proof fn heading_paths_follow_open_headings(title: Seq<char>, body: Seq<char>)
    ensures
        all_headed(chunk_sections(title, body)),
        levels_increase(split_from(body, 0, split_start()).stack),
{
    let st0 = split_start();
    assert(all_headed(st0.sections));
    lemma_split_from_headed(body, 0, st0);
    let st = split_from(body, 0, st0);
    lemma_state_section_headed(st);
    lemma_emit_headed(st.sections, st.path, st.text, st.level, st.buf);
    lemma_split_pass_headed(title, sections_of(body));
    lemma_merge_from_headed(title, split_pass(title, sections_of(body)), 0);
}

/// A heading path is the texts of the open headings, outermost first,
/// joined with `" / "`.
pub proof fn heading_path_joins_texts(stack: HeadingStack, h: (u8, Seq<char>))
    ensures
        join_path(seq![h]) == h.1,
        stack.len() > 0 ==> join_path(stack.push(h)) == join_path(stack) + seq![' ', '/', ' ']
            + h.1,
{
    assert(seq![h][0] == h);
    if stack.len() > 0 {
        assert(stack.push(h).drop_last() =~= stack);
        assert(stack.push(h).last() == h);
    }
}

proof fn lemma_trim_start_set_split(s: Seq<char>, set: CharSet)
    ensures
        trim_start_set(s, set).len() <= s.len(),
        trim_start_set(s, set) == s.subrange(
            s.len() - trim_start_set(s, set).len(),
            s.len() as int,
        ),
        forall|k: int|
            0 <= k < s.len() - trim_start_set(s, set).len() ==> set.holds(#[trigger] s[k]),
        trim_start_set(s, set).len() > 0 ==> !set.holds(trim_start_set(s, set)[0]),
    decreases s.len(),
{
    if s.len() > 0 && set.holds(s[0]) {
        lemma_trim_start_set_split(s.drop_first(), set);
        let t = trim_start_set(s.drop_first(), set);
        assert(t =~= s.subrange(s.len() - t.len(), s.len() as int));
        assert forall|k: int| 0 <= k < s.len() - t.len() implies set.holds(#[trigger] s[k]) by {
            if k > 0 {
                assert(s[k] == s.drop_first()[k - 1]);
            }
        }
    } else {
        assert(s =~= s.subrange(0, s.len() as int));
    }
}

/// The line opens, after any leading whitespace, with exactly `n` `#`s
/// followed by the end of the line, a space or a tab.
pub open spec fn opens_with_hashes(line: Seq<char>, n: int) -> bool {
    let t = trim_start(line);
    &&& n <= t.len()
    &&& forall|k: int| 0 <= k < n ==> #[trigger] t[k] == '#'
    &&& n < t.len() ==> (t[n] == ' ' || t[n] == '\t')
}

/// An ATX heading line gives its level: the line opens, after any leading
/// whitespace, with as many `#`s as its level (1 to 6) followed by the end
/// of the line, a space or a tab; and every line that opens so with `n`
/// `#`s, `n` from 1 to 6, is a heading of level `n`.
pub proof fn atx_heading_reads_its_level(line: Seq<char>, n: int)
    ensures
        atx_heading(line) matches Some((l, _)) ==> 1 <= l <= 6 && opens_with_hashes(line, l as int),
        1 <= n <= 6 && opens_with_hashes(line, n) ==> (atx_heading(line) matches Some((l, _))
            && l == n),
{
    let t = trim_start(line);
    lemma_trim_start_set_split(t, CharSet::Is('#'));
    let rest = trim_start_set(t, CharSet::Is('#'));
    let c = hash_count(t);
    assert(c == t.len() - rest.len());
    assert(t.subrange(c, t.len() as int) == rest);
    if c < t.len() {
        assert(rest[0] == t[c]);
    }
    if 1 <= n <= 6 && opens_with_hashes(line, n) {
        if c < n {
            assert(t[c] == '#');
        } else if c > n {
            assert(t[n] == '#');
        }
        assert(c == n);
    }
}

/// `#` lines inside fenced code are not headings: while a code fence is
/// open, a line that does not close it (one that, after leading
/// whitespace, does not start with three backticks or tildes) only extends
/// the current section, whatever it holds; a fence line opens or closes
/// the fence and also stays in the section.
pub proof fn fenced_lines_open_no_section(st: SplitState, line: Seq<char>)
    ensures
        ({
            let t = trim_start(trim_end_set(line, CharSet::Eol));
            let fence = t.len() >= 3 && ((t[0] == '`' && t[1] == '`' && t[2] == '`') || (t[0]
                == '~' && t[1] == '~' && t[2] == '~'));
            let r = split_step(st, line);
            &&& (st.in_fence || fence) ==> (r.sections == st.sections && r.stack == st.stack
                && r.path == st.path && r.text == st.text && r.level == st.level && r.buf
                == st.buf + line)
            &&& r.in_fence == (if fence {
                !st.in_fence
            } else {
                st.in_fence
            })
        }),
{
}

/// The sections without a heading path all come before those with one.
pub open spec fn unheaded_first(secs: Seq<Section>) -> bool {
    forall|i: int, j: int|
        0 <= i < j < secs.len() && (#[trigger] secs[j]).path is None ==> (
        #[trigger] secs[i]).path is None
}

pub open spec fn all_unheaded(secs: Seq<Section>) -> bool {
    forall|k: int| 0 <= k < secs.len() ==> (#[trigger] secs[k]).path is None
}

pub open spec fn all_filled(secs: Seq<Section>) -> bool {
    forall|k: int| 0 <= k < secs.len() ==> (#[trigger] secs[k]).content.len() > 0
}

spec fn state_ordered(st: SplitState) -> bool {
    &&& unheaded_first(st.sections)
    &&& all_filled(st.sections)
    &&& st.path is None ==> all_unheaded(st.sections)
}

proof fn lemma_emit_ordered(
    sections: Seq<Section>,
    path: Option<Seq<char>>,
    text: Option<Seq<char>>,
    level: Option<u8>,
    buf: Seq<char>,
)
    requires
        unheaded_first(sections),
        all_filled(sections),
        path is None ==> all_unheaded(sections),
    ensures
        unheaded_first(emit(sections, path, text, level, buf)),
        all_filled(emit(sections, path, text, level, buf)),
        path is None ==> all_unheaded(emit(sections, path, text, level, buf)),
{
    let e = emit(sections, path, text, level, buf);
    assert forall|k: int| 0 <= k < e.len() implies (#[trigger] e[k]).content.len() > 0 && (
    path is None ==> e[k].path is None) by {
        if k < sections.len() {
            assert(e[k] == sections[k]);
        }
    }
    assert forall|i: int, j: int|
        0 <= i < j < e.len() && (#[trigger] e[j]).path is None implies (
        #[trigger] e[i]).path is None by {
        assert(e[i] == sections[i]);
        if j < sections.len() {
            assert(e[j] == sections[j]);
        }
    }
}

proof fn lemma_split_from_ordered(s: Seq<char>, i: int, st: SplitState)
    requires
        state_ordered(st),
    ensures
        state_ordered(split_from(s, i, st)),
    decreases s.len() - i,
{
    if 0 <= i < s.len() {
        let e = line_end(s, i);
        if i < e <= s.len() {
            let line = s.subrange(i, e);
            let stripped = trim_end_set(line, CharSet::Eol);
            if !opens_fence(stripped) && !st.in_fence && atx_heading(stripped) is Some {
                lemma_emit_ordered(st.sections, st.path, st.text, st.level, st.buf);
            }
            lemma_split_from_ordered(s, e, split_step(st, line));
        }
    }
}

proof fn lemma_split_one_path(title: Seq<char>, s: Section)
    ensures
        forall|k: int|
            0 <= k < split_one(title, s).len() ==> (#[trigger] split_one(title, s)[k]).path
                == s.path,
{
}

proof fn lemma_split_pass_ordered(title: Seq<char>, secs: Seq<Section>)
    requires
        unheaded_first(secs),
    ensures
        unheaded_first(split_pass(title, secs)),
        all_unheaded(secs) ==> all_unheaded(split_pass(title, secs)),
    decreases secs.len(),
{
    if secs.len() > 0 {
        let init = secs.drop_last();
        assert(unheaded_first(init)) by {
            assert forall|i: int, j: int|
                0 <= i < j < init.len() && (#[trigger] init[j]).path is None implies (
                #[trigger] init[i]).path is None by {
                assert(init[i] == secs[i]);
                assert(init[j] == secs[j]);
            }
        }
        lemma_split_pass_ordered(title, init);
        let last = secs.last();
        let a = split_pass(title, init);
        let b = split_one(title, last);
        lemma_split_one_path(title, last);
        assert(split_pass(title, secs) == a + b);
        if last.path is None {
            assert(all_unheaded(init)) by {
                assert forall|k: int| 0 <= k < init.len() implies (#[trigger] init[k]).path is None by {
                    assert(init[k] == secs[k]);
                    assert(secs[secs.len() - 1] == last);
                }
            }
        }
        if all_unheaded(secs) {
            assert(all_unheaded(init)) by {
                assert forall|k: int| 0 <= k < init.len() implies (#[trigger] init[k]).path is None by {
                    assert(init[k] == secs[k]);
                }
            }
            assert(secs[secs.len() - 1] == last);
        }
        assert forall|i: int, j: int|
            0 <= i < j < (a + b).len() && (#[trigger] (a + b)[j]).path is None implies (
            #[trigger] (a + b)[i]).path is None by {
            if j < a.len() {
                assert((a + b)[j] == a[j]);
                assert((a + b)[i] == a[i]);
            } else {
                assert((a + b)[j] == b[j - a.len()]);
                if i < a.len() {
                    assert((a + b)[i] == a[i]);
                } else {
                    assert((a + b)[i] == b[i - a.len()]);
                }
            }
        }
        if all_unheaded(secs) {
            assert forall|k: int| 0 <= k < (a + b).len() implies (#[trigger] (a + b)[k]).path is None by {
                if k < a.len() {
                    assert((a + b)[k] == a[k]);
                } else {
                    assert((a + b)[k] == b[k - a.len()]);
                }
            }
        }
    }
}

proof fn lemma_merge_from_ordered(title: Seq<char>, secs: Seq<Section>, i: int)
    requires
        unheaded_first(secs),
        0 <= i,
    ensures
        unheaded_first(merge_from(title, secs, i)),
        forall|k: int|
            0 <= k < merge_from(title, secs, i).len() && (#[trigger] merge_from(
                title,
                secs,
                i,
            )[k]).path is None ==> secs[i].path is None,
    decreases secs.len() - i,
{
    if i < secs.len() {
        let ct = estimate(title, secs[i]);
        let merges = ct < MIN_TOKENS && i + 1 < secs.len() && ct + estimate(title, secs[i + 1])
            <= MAX_TOKENS;
        let next = if merges {
            i + 2
        } else {
            i + 1
        };
        let head = if merges {
            merge_sections(secs[i], secs[i + 1])
        } else {
            secs[i]
        };
        lemma_merge_from_ordered(title, secs, next);
        let rest = merge_from(title, secs, next);
        let out = seq![head] + rest;
        assert(merge_from(title, secs, i) == out);
        assert(head.path is None ==> secs[i].path is None);
        assert forall|k: int| 0 <= k < out.len() && (#[trigger] out[k]).path is None implies secs[
            i].path is None by {
            if k > 0 {
                assert(out[k] == rest[k - 1]);
            }
        }
        assert forall|a: int, b: int|
            0 <= a < b < out.len() && (#[trigger] out[b]).path is None implies (
            #[trigger] out[a]).path is None by {
            assert(out[b] == rest[b - 1]);
            assert(secs[next].path is None);
            if a > 0 {
                assert(out[a] == rest[a - 1]);
            } else if merges {
                assert(secs[i + 1].path is None);
            }
        }
    }
}

/// Heading paths are absent only before the first heading: every chunk
/// without a heading path comes before every chunk with one. The heading
/// split also never yields a section with empty content.
pub proof fn unheaded_chunks_come_first(title: Seq<char>, body: Seq<char>)
    ensures
        unheaded_first(chunk_sections(title, body)),
        all_filled(sections_of(body)),
{
    let st0 = split_start();
    assert(unheaded_first(st0.sections));
    lemma_split_from_ordered(body, 0, st0);
    let st = split_from(body, 0, st0);
    lemma_emit_ordered(st.sections, st.path, st.text, st.level, st.buf);
    lemma_split_pass_ordered(title, sections_of(body));
    lemma_merge_from_ordered(title, split_pass(title, sections_of(body)), 0);
}

/// The characters of `s` other than whitespace, in order.
pub open spec fn ink(s: Seq<char>) -> Seq<char>
    decreases s.len(),
{
    if s.len() == 0 {
        Seq::empty()
    } else if is_ws(s.last()) {
        ink(s.drop_last())
    } else {
        ink(s.drop_last()).push(s.last())
    }
}

/// The non-whitespace characters of the sections' contents, section by
/// section, in order.
pub open spec fn sections_ink(secs: Seq<Section>) -> Seq<char>
    decreases secs.len(),
{
    if secs.len() == 0 {
        Seq::empty()
    } else {
        sections_ink(secs.drop_last()) + ink(secs.last().content)
    }
}

/// The non-whitespace characters of several texts, in order.
pub open spec fn texts_ink(texts: Seq<Seq<char>>) -> Seq<char>
    decreases texts.len(),
{
    if texts.len() == 0 {
        Seq::empty()
    } else {
        texts_ink(texts.drop_last()) + ink(texts.last())
    }
}

proof fn lemma_ink_concat(a: Seq<char>, b: Seq<char>)
    ensures
        ink(a + b) == ink(a) + ink(b),
    decreases b.len(),
{
    if b.len() == 0 {
        assert(a + b =~= a);
    } else {
        lemma_ink_concat(a, b.drop_last());
        assert((a + b).drop_last() =~= a + b.drop_last());
        assert((a + b).last() == b.last());
    }
}

/// Whitespace only: nothing of it is ink.
proof fn lemma_ink_blank(s: Seq<char>)
    requires
        forall|k: int| 0 <= k < s.len() ==> is_ws(#[trigger] s[k]),
    ensures
        ink(s) == Seq::<char>::empty(),
    decreases s.len(),
{
    if s.len() > 0 {
        lemma_ink_blank(s.drop_last());
    }
}

proof fn lemma_ink_trim_start(s: Seq<char>, set: CharSet)
    requires
        forall|c: char| #[trigger] set.holds(c) ==> is_ws(c),
    ensures
        ink(trim_start_set(s, set)) == ink(s),
    decreases s.len(),
{
    if s.len() > 0 && set.holds(s[0]) {
        lemma_ink_trim_start(s.drop_first(), set);
        lemma_ink_concat(seq![s[0]], s.drop_first());
        assert(seq![s[0]] + s.drop_first() =~= s);
        lemma_ink_blank(seq![s[0]]);
    }
}

proof fn lemma_ink_trim_end(s: Seq<char>, set: CharSet)
    requires
        forall|c: char| #[trigger] set.holds(c) ==> is_ws(c),
    ensures
        ink(trim_end_set(s, set)) == ink(s),
    decreases s.len(),
{
    if s.len() > 0 && set.holds(s.last()) {
        lemma_ink_trim_end(s.drop_last(), set);
    }
}

proof fn lemma_ink_trim(s: Seq<char>)
    ensures
        ink(trim(s)) == ink(s),
{
    lemma_ink_trim_start(s, CharSet::Ws);
    lemma_ink_trim_end(trim_start(s), CharSet::Ws);
}

proof fn lemma_sections_ink_push(secs: Seq<Section>, x: Section)
    ensures
        sections_ink(secs.push(x)) == sections_ink(secs) + ink(x.content),
{
    assert(secs.push(x).drop_last() =~= secs);
}

proof fn lemma_emit_ink(
    sections: Seq<Section>,
    path: Option<Seq<char>>,
    text: Option<Seq<char>>,
    level: Option<u8>,
    buf: Seq<char>,
)
    ensures
        sections_ink(emit(sections, path, text, level, buf)) == sections_ink(sections) + ink(buf),
{
    lemma_ink_trim(buf);
    if trim(buf).len() > 0 {
        lemma_sections_ink_push(sections, Section { path, text, level, content: trim(buf) });
    } else {
        assert(trim(buf) =~= Seq::<char>::empty());
        assert(sections_ink(sections) + ink(buf) =~= sections_ink(sections));
    }
}

proof fn lemma_split_from_ink(s: Seq<char>, i: int, st: SplitState)
    requires
        0 <= i <= s.len(),
        sections_ink(st.sections) + ink(st.buf) == ink(s.subrange(0, i)),
    ensures
        ({
            let r = split_from(s, i, st);
            sections_ink(r.sections) + ink(r.buf) == ink(s)
        }),
    decreases s.len() - i,
{
    if i == s.len() {
        assert(s.subrange(0, i) =~= s);
    } else {
        lemma_find_newline(s, i);
        let e = line_end(s, i);
        assert(i < e <= s.len());
        let line = s.subrange(i, e);
        let st2 = split_step(st, line);
        assert(s.subrange(0, e) =~= s.subrange(0, i) + line);
        lemma_ink_concat(s.subrange(0, i), line);
        lemma_ink_concat(st.buf, line);
        let stripped = trim_end_set(line, CharSet::Eol);
        if !opens_fence(stripped) && !st.in_fence && atx_heading(stripped) is Some {
            lemma_emit_ink(st.sections, st.path, st.text, st.level, st.buf);
        }
        assert(sections_ink(st2.sections) + ink(st2.buf) == ink(s.subrange(0, e)));
        lemma_split_from_ink(s, e, st2);
    }
}

proof fn lemma_sections_of_ink(body: Seq<char>)
    ensures
        sections_ink(sections_of(body)) == ink(body),
{
    let st0 = split_start();
    assert(sections_ink(st0.sections) + ink(st0.buf) =~= ink(body.subrange(0, 0)));
    lemma_split_from_ink(body, 0, st0);
    let st = split_from(body, 0, st0);
    lemma_emit_ink(st.sections, st.path, st.text, st.level, st.buf);
}

proof fn lemma_texts_ink_push(texts: Seq<Seq<char>>, x: Seq<char>)
    ensures
        texts_ink(texts.push(x)) == texts_ink(texts) + ink(x),
{
    assert(texts.push(x).drop_last() =~= texts);
}

proof fn lemma_texts_ink_concat(a: Seq<Seq<char>>, b: Seq<Seq<char>>)
    ensures
        texts_ink(a + b) == texts_ink(a) + texts_ink(b),
    decreases b.len(),
{
    if b.len() == 0 {
        assert(a + b =~= a);
        assert(texts_ink(a) + texts_ink(b) =~= texts_ink(a));
    } else {
        lemma_texts_ink_concat(a, b.drop_last());
        assert((a + b).drop_last() =~= a + b.drop_last());
        assert((a + b).last() == b.last());
    }
}

proof fn lemma_newlines_ws()
    ensures
        forall|c: char| #[trigger] CharSet::Is('\n').holds(c) ==> is_ws(c),
{
}

proof fn lemma_paragraphs_ink(s: Seq<char>, i: int)
    requires
        0 <= i <= s.len(),
    ensures
        texts_ink(paragraphs_from(s, i)) == ink(s.subrange(i, s.len() as int)),
    decreases s.len() + 1 - i,
{
    lemma_find_blank(s, i);
    let j = find_blank(s, i);
    let piece = s.subrange(i, j);
    let p = trim_newlines(piece);
    lemma_newlines_ws();
    lemma_ink_trim_start(piece, CharSet::Is('\n'));
    lemma_ink_trim_end(trim_start_set(piece, CharSet::Is('\n')), CharSet::Is('\n'));
    let here = if p.len() > 0 {
        seq![p]
    } else {
        Seq::empty()
    };
    assert(texts_ink(here) == ink(piece)) by {
        if p.len() > 0 {
            lemma_texts_ink_push(Seq::empty(), p);
            assert(seq![p] =~= Seq::<Seq<char>>::empty().push(p));
            assert(Seq::<char>::empty() + ink(p) =~= ink(p));
        } else {
            assert(p =~= Seq::<char>::empty());
        }
    }
    if i <= j < s.len() {
        lemma_paragraphs_ink(s, j + 2);
        lemma_texts_ink_concat(here, paragraphs_from(s, j + 2));
        let sep = s.subrange(j, j + 2);
        assert(sep[0] == '\n' && sep[1] == '\n') by {
            lemma_find_blank_sep(s, i);
        }
        lemma_ink_blank(sep);
        let tail = s.subrange(j + 2, s.len() as int);
        assert(s.subrange(i, s.len() as int) =~= piece + sep + tail);
        lemma_ink_concat(piece + sep, tail);
        lemma_ink_concat(piece, sep);
        assert(ink(piece) + Seq::<char>::empty() =~= ink(piece));
    } else {
        assert(j == s.len());
        assert(piece =~= s.subrange(i, s.len() as int));
    }
}

proof fn lemma_find_blank_sep(s: Seq<char>, i: int)
    requires
        0 <= i <= s.len(),
        find_blank(s, i) < s.len(),
    ensures
        s[find_blank(s, i)] == '\n',
        s[find_blank(s, i) + 1] == '\n',
    decreases s.len() - i,
{
    if i + 1 < s.len() && !(s[i] == '\n' && s[i + 1] == '\n') {
        lemma_find_blank_sep(s, i + 1);
    }
}

proof fn lemma_pack_ink(paras: Seq<Seq<char>>, base: int)
    ensures
        texts_ink(pack(paras, base).out) + ink(pack(paras, base).acc) == texts_ink(paras),
    decreases paras.len(),
{
    if paras.len() == 0 {
        assert(Seq::<char>::empty() + Seq::<char>::empty() =~= Seq::<char>::empty());
    } else {
        let init = paras.drop_last();
        let para = paras.last();
        lemma_pack_ink(init, base);
        let p = pack(init, base);
        let pt = tokens_for(para.len()) + 1;
        let cut = p.acc.len() > 0 && p.tokens + pt > MAX_TOKENS;
        lemma_texts_ink_push(init, para);
        assert(paras =~= init.push(para));
        if cut {
            lemma_ink_trim(p.acc);
            lemma_texts_ink_push(p.out, trim(p.acc));
            assert(texts_ink(p.out.push(trim(p.acc))) + ink(para) =~= texts_ink(p.out) + ink(p.acc)
                + ink(para));
        } else if p.acc.len() > 0 {
            let sep = seq!['\n', '\n'];
            lemma_ink_blank(sep);
            lemma_ink_concat(p.acc + sep, para);
            lemma_ink_concat(p.acc, sep);
            assert(ink(p.acc) + Seq::<char>::empty() =~= ink(p.acc));
            assert(texts_ink(p.out) + ink(p.acc + sep + para) =~= texts_ink(p.out) + ink(p.acc)
                + ink(para));
        } else {
            assert(p.acc =~= Seq::<char>::empty());
            assert(texts_ink(p.out) + ink(para) =~= texts_ink(p.out) + ink(p.acc) + ink(para));
        }
    }
}

proof fn lemma_sub_split_contents_ink(content: Seq<char>, base: int)
    ensures
        texts_ink(sub_split_contents(content, base)) == ink(content),
{
    lemma_paragraphs_ink(content, 0);
    assert(content.subrange(0, content.len() as int) =~= content);
    lemma_pack_ink(paragraphs(content), base);
    let p = pack(paragraphs(content), base);
    lemma_ink_trim(p.acc);
    if trim(p.acc).len() > 0 {
        lemma_texts_ink_push(p.out, trim(p.acc));
    } else {
        assert(trim(p.acc) =~= Seq::<char>::empty());
        assert(texts_ink(p.out) + ink(p.acc) =~= texts_ink(p.out));
    }
}

proof fn lemma_sections_ink_of_contents(s: Section, cs: Seq<Seq<char>>)
    ensures
        sections_ink(cs.map_values(|c: Seq<char>| with_content(s, c))) == texts_ink(cs),
    decreases cs.len(),
{
    if cs.len() > 0 {
        lemma_sections_ink_of_contents(s, cs.drop_last());
        assert(cs.map_values(|c: Seq<char>| with_content(s, c)).drop_last() =~= cs.drop_last().map_values(
            |c: Seq<char>| with_content(s, c),
        ));
    } else {
        assert(cs.map_values(|c: Seq<char>| with_content(s, c)) =~= Seq::<Section>::empty());
    }
}

proof fn lemma_split_one_ink(title: Seq<char>, s: Section)
    ensures
        sections_ink(split_one(title, s)) == ink(s.content),
{
    lemma_sections_ink_push(Seq::empty(), s);
    assert(seq![s] =~= Seq::<Section>::empty().push(s));
    assert(Seq::<char>::empty() + ink(s.content) =~= ink(s.content));
    if estimate(title, s) > MAX_TOKENS && paragraphs(s.content).len() > 1 {
        let cs = sub_split_contents(s.content, tokens_for(prefix_of(title, s.path).len()) as int);
        if cs.len() > 0 {
            lemma_sections_ink_of_contents(s, cs);
            lemma_sub_split_contents_ink(
                s.content,
                tokens_for(prefix_of(title, s.path).len()) as int,
            );
        }
    }
}

proof fn lemma_sections_ink_concat(a: Seq<Section>, b: Seq<Section>)
    ensures
        sections_ink(a + b) == sections_ink(a) + sections_ink(b),
    decreases b.len(),
{
    if b.len() == 0 {
        assert(a + b =~= a);
        assert(sections_ink(a) + sections_ink(b) =~= sections_ink(a));
    } else {
        lemma_sections_ink_concat(a, b.drop_last());
        assert((a + b).drop_last() =~= a + b.drop_last());
        assert((a + b).last() == b.last());
    }
}

proof fn lemma_split_pass_ink(title: Seq<char>, secs: Seq<Section>)
    ensures
        sections_ink(split_pass(title, secs)) == sections_ink(secs),
    decreases secs.len(),
{
    if secs.len() > 0 {
        lemma_split_pass_ink(title, secs.drop_last());
        lemma_split_one_ink(title, secs.last());
        lemma_sections_ink_concat(split_pass(title, secs.drop_last()), split_one(title, secs.last()));
    }
}

proof fn lemma_merge_content_ink(a: Seq<char>, b: Seq<char>)
    ensures
        ink(merge_content(a, b)) == ink(a) + ink(b),
{
    let a1 = if a.len() > 0 && a.last() != '\n' {
        a.push('\n')
    } else {
        a
    };
    assert(ink(a1) == ink(a)) by {
        if a.len() > 0 && a.last() != '\n' {
            assert(a.push('\n').drop_last() =~= a);
        }
    }
    assert(ink(a1.push('\n')) == ink(a1)) by {
        assert(a1.push('\n').drop_last() =~= a1);
    }
    lemma_ink_concat(a1.push('\n'), b);
}

proof fn lemma_merge_from_ink(title: Seq<char>, secs: Seq<Section>, i: int)
    requires
        0 <= i <= secs.len(),
    ensures
        sections_ink(merge_from(title, secs, i)) == sections_ink(
            secs.subrange(i, secs.len() as int),
        ),
    decreases secs.len() - i,
{
    if i == secs.len() {
        assert(secs.subrange(i, secs.len() as int) =~= Seq::<Section>::empty());
    } else {
        let ct = estimate(title, secs[i]);
        let merges = ct < MIN_TOKENS && i + 1 < secs.len() && ct + estimate(title, secs[i + 1])
            <= MAX_TOKENS;
        let next = if merges {
            i + 2
        } else {
            i + 1
        };
        let head = if merges {
            merge_sections(secs[i], secs[i + 1])
        } else {
            secs[i]
        };
        lemma_merge_from_ink(title, secs, next);
        let rest = merge_from(title, secs, next);
        assert(merge_from(title, secs, i) == seq![head] + rest);
        lemma_sections_ink_concat(seq![head], rest);
        lemma_sections_ink_push(Seq::empty(), head);
        assert(seq![head] =~= Seq::<Section>::empty().push(head));
        assert(Seq::<char>::empty() + ink(head.content) =~= ink(head.content));
        let front = secs.subrange(i, next);
        let back = secs.subrange(next, secs.len() as int);
        assert(secs.subrange(i, secs.len() as int) =~= front + back);
        lemma_sections_ink_concat(front, back);
        if merges {
            lemma_merge_content_ink(secs[i].content, secs[i + 1].content);
            assert(front =~= seq![secs[i]].push(secs[i + 1]));
            lemma_sections_ink_push(seq![secs[i]], secs[i + 1]);
            lemma_sections_ink_push(Seq::empty(), secs[i]);
            assert(seq![secs[i]] =~= Seq::<Section>::empty().push(secs[i]));
            assert(Seq::<char>::empty() + ink(secs[i].content) =~= ink(secs[i].content));
        } else {
            assert(front =~= seq![secs[i]]);
        }
    }
}

/// No text is lost or reordered by chunking: the non-whitespace
/// characters of the chunks' contents, chunk after chunk, are exactly
/// those of the note body, in order. (Chunking only trims, cuts and
/// rejoins whitespace.)
pub proof fn chunks_keep_all_text(title: Seq<char>, body: Seq<char>)
    ensures
        sections_ink(chunk_sections(title, body)) == ink(body),
{
    lemma_sections_of_ink(body);
    lemma_split_pass_ink(title, sections_of(body));
    let secs = split_pass(title, sections_of(body));
    lemma_merge_from_ink(title, secs, 0);
    assert(secs.subrange(0, secs.len() as int) =~= secs);
}

/// Two chunks with the same embed input have the same content hash,
/// whichever notes, titles and positions they were built from.
pub proof fn content_hash_follows_embed_input(
    c1: Chunk,
    i1: int,
    t1: Seq<char>,
    s1: Section,
    c2: Chunk,
    i2: int,
    t2: Seq<char>,
    s2: Section,
)
    requires
        chunk_built(c1, i1, t1, s1),
        chunk_built(c2, i2, t2, s2),
        c1.embed_input@ == c2.embed_input@,
    ensures
        c1.content_hash@ == c2.content_hash@,
        c1.token_count == c2.token_count,
{
}

/// Retitling a note changes the embed input of each of its sections, so
/// their stored embeddings are invalidated.
pub proof fn retitle_changes_embed_input(t1: Seq<char>, t2: Seq<char>, s: Section)
    requires
        t1 != t2,
    ensures
        embed_input_of(t1, s) != embed_input_of(t2, s),
{
    let tail = match s.path {
        Some(p) => if p.len() > 0 {
            seq![' ', '/', ' '] + p
        } else {
            Seq::empty()
        },
        None => Seq::empty(),
    } + seq!['\n', '\n'] + s.content;
    assert(embed_input_of(t1, s) =~= t1 + tail);
    assert(embed_input_of(t2, s) =~= t2 + tail);
    if embed_input_of(t1, s) == embed_input_of(t2, s) {
        assert(t1.len() == t2.len());
        assert(t1 =~= (t1 + tail).subrange(0, t1.len() as int));
        assert(t2 =~= (t2 + tail).subrange(0, t2.len() as int));
    }
}

} // verus!

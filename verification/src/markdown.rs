//! Markdown metadata extraction: frontmatter, wiki-links, tags, headings
//! and tasks. Wiki-links and tags are never taken from fenced or indented
//! code blocks or inline code spans.

use vstd::prelude::*;
use std::collections::HashMap;
use crate::syntax::{
    LinkParts, ParsedLink, found_parts, scan_tags, scan_wiki_links, string_views, tags,
    wiki_links,
};
use crate::text::{
    append_chars, chars_of, is_ws, occurs_at, occurs_at_exec, opt_chars, trim, trimmed_string,
};
use pulldown_cmark::{Options, Parser};
use pulldown_cmark::Event as E;
use self::MdEvent::{
    Code, DisplayMath, End, FootnoteReference, HardBreak, Html, InlineHtml, InlineMath, Rule,
    SoftBreak, Start, TaskListMarker, Text,
};

verus! {

/// pulldown-cmark's option bit for GitHub-style tables.
pub const ENABLE_TABLES: u32 = 2;

/// pulldown-cmark's option bit for `~~strikethrough~~`.
pub const ENABLE_STRIKETHROUGH: u32 = 8;

/// pulldown-cmark's option bit for `- [ ]` task list items.
pub const ENABLE_TASKLISTS: u32 = 16;

/// The markdown extensions that notes are parsed with.
pub const MARKDOWN_OPTIONS: u32 = ENABLE_TABLES | ENABLE_STRIKETHROUGH | ENABLE_TASKLISTS;

/// A pulldown-cmark event as plain values: one variant per event kind.
/// Start and end tags are carried by the debug name of the tag's end
/// (`"Paragraph"`, `"Heading(H2)"`, `"CodeBlock"`, `"Item"`, ...), which
/// is all that extraction reads of a tag; of the events with text, only
/// text nodes carry theirs, since extraction reads no other.
#[derive(Debug)]
pub enum MdEvent {
    Start(String),
    End(String),
    Text(String),
    Code,
    InlineMath,
    DisplayMath,
    Html,
    InlineHtml,
    FootnoteReference,
    SoftBreak,
    HardBreak,
    Rule,
    TaskListMarker(bool),
}

/// The event sequence that pulldown-cmark's parser produces for a markdown
/// body under the given option bits.
pub uninterp spec fn markdown_event_stream(body: Seq<char>, options: u32) -> Seq<MdEvent>;

/// Runs pulldown-cmark's `Parser::new_ext` over `body` with the option bits
/// `options` and hands each event over as the `MdEvent` of its kind, event
/// for event. The contract claims only that the result is the parser's
/// output for these two arguments, which depends on nothing else.
#[verifier::external_body]
pub(crate) fn markdown_events(body: &str, options: u32) -> (r: Vec<MdEvent>)
    ensures
        r@ == markdown_event_stream(body@, options),
{
    Parser::new_ext(body, Options::from_bits_truncate(options)).map(|ev| match ev {
        E::Start(tag) => Start(format!("{:?}", tag.to_end())),
        E::End(tag) => End(format!("{tag:?}")),
        E::Text(s) => Text(s.into_string()),
        E::Code(_) => Code,
        E::InlineMath(_) => InlineMath,
        E::DisplayMath(_) => DisplayMath,
        E::Html(_) => Html,
        E::InlineHtml(_) => InlineHtml,
        E::FootnoteReference(_) => FootnoteReference,
        E::SoftBreak => SoftBreak,
        E::HardBreak => HardBreak,
        E::Rule => Rule,
        E::TaskListMarker(done) => TaskListMarker(done),
    }).collect()
}

/// What a start or end tag means to extraction.
pub enum TagRole {
    /// A fenced or indented code block.
    CodeBlock,
    /// A heading of the given level.
    Heading(u8),
    /// A paragraph or block quote: prose runs end at its edges.
    Block,
    /// A list item.
    Item,
    /// Any other tag.
    Other,
}

/// The heading level named by a level digit.
pub open spec fn digit_level(c: char) -> Option<u8> {
    if c == '1' {
        Some(1u8)
    } else if c == '2' {
        Some(2u8)
    } else if c == '3' {
        Some(3u8)
    } else if c == '4' {
        Some(4u8)
    } else if c == '5' {
        Some(5u8)
    } else if c == '6' {
        Some(6u8)
    } else {
        None
    }
}

/// The level of a heading tag name `Heading(H<d>)`.
pub open spec fn heading_level(name: Seq<char>) -> Option<u8> {
    if name.len() == 11 && occurs_at(name, "Heading(H"@, 0) && name[10] == ')' {
        digit_level(name[9])
    } else {
        None
    }
}

/// The role of a tag, from its name.
pub open spec fn tag_role(name: Seq<char>) -> TagRole {
    if name == "CodeBlock"@ {
        TagRole::CodeBlock
    } else if name == "Paragraph"@ || occurs_at(name, "BlockQuote("@, 0) {
        TagRole::Block
    } else if name == "Item"@ {
        TagRole::Item
    } else if let Some(level) = heading_level(name) {
        TagRole::Heading(level)
    } else {
        TagRole::Other
    }
}

/// The tag name pulldown-cmark's heading tags carry for the level digit
/// `d`: `Heading(H<d>)`.
pub open spec fn heading_tag_name(d: char) -> Seq<char> {
    "Heading(H"@ + seq![d] + ")"@
}

/// Every ATX heading level is read: the tag of a heading of level 1
/// through 6 (digit `d`) plays the role of a heading of level `d`, so its
/// text is recorded as a heading of that level.
pub proof fn heading_tags_give_their_level(d: char)
    requires
        '1' <= d <= '6',
    ensures
        tag_role(heading_tag_name(d)) == TagRole::Heading((d as u32 - '0' as u32) as u8),
{
    reveal_strlit("Heading(H");
    reveal_strlit(")");
    reveal_strlit("CodeBlock");
    reveal_strlit("Paragraph");
    reveal_strlit("BlockQuote(");
    reveal_strlit("Item");
    let name = heading_tag_name(d);
    assert(name.len() == 11);
    assert(name[0] == 'H');
    assert(name[9] == d);
    assert(name[10] == ')');
    assert(name != "CodeBlock"@);
    assert(name != "Paragraph"@);
    assert(name != "Item"@);
    assert(!occurs_at(name, "BlockQuote("@, 0)) by {
        if occurs_at(name, "BlockQuote("@, 0) {
            assert(name.subrange(0, 11)[0] == 'B');
        }
    }
    assert(name.subrange(0, 9) =~= "Heading(H"@);
    assert(occurs_at(name, "Heading(H"@, 0));
    assert(digit_level(d) == Some((d as u32 - '0' as u32) as u8));
}

/// A heading of level 1 through 6 is recorded with its level and trimmed
/// text: from any state, the events of a heading whose text is one text
/// node add exactly that heading to the headings found.
pub proof fn heading_events_record_heading(
    st: ExtractState,
    d: char,
    opening: MdEvent,
    text: MdEvent,
    closing: MdEvent,
)
    requires
        '1' <= d <= '6',
        opening matches MdEvent::Start(n) && n@ == heading_tag_name(d),
        closing matches MdEvent::End(n) && n@ == heading_tag_name(d),
        text is Text,
    ensures
        run_from(st, seq![opening, text, closing]).headings == st.headings.push(
            ((d as u32 - '0' as u32) as u8, trim(text->Text_0@)),
        ),
{
    heading_tags_give_their_level(d);
    let l = (d as u32 - '0' as u32) as u8;
    let evs = seq![opening, text, closing];
    assert(evs.drop_last() =~= seq![opening, text]);
    assert(seq![opening, text].drop_last() =~= seq![opening]);
    assert(seq![opening].drop_last() =~= Seq::<MdEvent>::empty());
    let s1 = step(st, opening);
    assert(run_from(st, Seq::<MdEvent>::empty()) == st);
    assert(seq![opening].last() == opening);
    assert(run_from(st, seq![opening]) == s1);
    assert(s1.heading == Some(l) && s1.heading_text == Seq::<char>::empty());
    assert(s1.headings == st.headings);
    let s2 = step(s1, text);
    assert(seq![opening, text].last() == text);
    assert(run_from(st, seq![opening, text]) == s2);
    assert(s2.heading == Some(l));
    assert(s2.heading_text =~= text->Text_0@);
    assert(s2.headings == st.headings);
    let s3 = step(s2, closing);
    assert(evs.last() == closing);
    assert(run_from(st, evs) == s3);
    assert(s3 == end_heading(s2));
}

/// Whether `v` spells out the literal `lit`.
fn equals_literal(v: &Vec<char>, lit: &str) -> (r: bool)
    ensures
        r == (v@ == lit@),
{
    let l = chars_of(lit);
    let r = v.len() == l.len() && occurs_at_exec(v, &l, 0);
    assert(v@.subrange(0, v@.len() as int) =~= v@);
    r
}

/// Whether `v` begins with the literal `lit`.
fn starts_with_literal(v: &Vec<char>, lit: &str) -> (r: bool)
    ensures
        r == occurs_at(v@, lit@, 0),
{
    let l = chars_of(lit);
    occurs_at_exec(v, &l, 0)
}

fn digit_level_exec(c: char) -> (r: Option<u8>)
    ensures
        r == digit_level(c),
{
    if c == '1' {
        Some(1)
    } else if c == '2' {
        Some(2)
    } else if c == '3' {
        Some(3)
    } else if c == '4' {
        Some(4)
    } else if c == '5' {
        Some(5)
    } else if c == '6' {
        Some(6)
    } else {
        None
    }
}

/// The role of the tag named `name`.
pub fn tag_role_of(name: &str) -> (r: TagRole)
    ensures
        r == tag_role(name@),
{
    let v = chars_of(name);
    if equals_literal(&v, "CodeBlock") {
        TagRole::CodeBlock
    } else if equals_literal(&v, "Paragraph") || starts_with_literal(&v, "BlockQuote(") {
        TagRole::Block
    } else if equals_literal(&v, "Item") {
        TagRole::Item
    } else if v.len() == 11 && starts_with_literal(&v, "Heading(H") && v[10] == ')' {
        match digit_level_exec(v[9]) {
            Some(level) => TagRole::Heading(level),
            None => TagRole::Other,
        }
    } else {
        TagRole::Other
    }
}

/// A heading extracted from a markdown document.
#[derive(Debug, Clone, PartialEq)]
pub struct ParsedHeading {
    /// ATX heading level: 1 through 6.
    pub level: u8,
    /// Plain-text content of the heading (inline markup stripped).
    pub text: String,
}

/// A task item (checkbox list item) extracted from a markdown document.
#[derive(Debug, Clone, PartialEq)]
pub struct ParsedTask {
    /// Plain-text description of the task.
    pub text: String,
    /// `true` if the checkbox is checked (`[x]` or `[X]`).
    pub done: bool,
}

/// What extraction has gathered after a prefix of the event stream.
pub struct ExtractState {
    pub in_code: bool,
    pub heading: Option<u8>,
    pub prose: Seq<char>,
    pub heading_text: Seq<char>,
    pub in_task: bool,
    pub task_done: bool,
    pub task_text: Seq<char>,
    pub links: Seq<LinkParts>,
    pub tags: Seq<Seq<char>>,
    pub headings: Seq<(u8, Seq<char>)>,
    pub tasks: Seq<(Seq<char>, bool)>,
}

pub open spec fn initial_state() -> ExtractState {
    ExtractState {
        in_code: false,
        heading: None,
        prose: Seq::empty(),
        heading_text: Seq::empty(),
        in_task: false,
        task_done: false,
        task_text: Seq::empty(),
        links: Seq::empty(),
        tags: Seq::empty(),
        headings: Seq::empty(),
        tasks: Seq::empty(),
    }
}

/// Closes the current prose run: its wiki-links and hashtags are recorded
/// and the run starts over.
pub open spec fn flush(st: ExtractState) -> ExtractState {
    if st.prose.len() > 0 {
        ExtractState {
            links: st.links + wiki_links(st.prose),
            tags: st.tags + tags(st.prose),
            prose: Seq::empty(),
            ..st
        }
    } else {
        st
    }
}

/// Text `t` goes to the open heading, the open task, and the prose run
/// unless it is inside a code block.
pub open spec fn add_text(st: ExtractState, t: Seq<char>) -> ExtractState {
    ExtractState {
        heading_text: if st.heading is Some {
            st.heading_text + t
        } else {
            st.heading_text
        },
        task_text: if st.in_task {
            st.task_text + t
        } else {
            st.task_text
        },
        prose: if !st.in_code {
            st.prose + t
        } else {
            st.prose
        },
        ..st
    }
}

/// A heading closes: its trimmed text is recorded at the open level.
pub open spec fn end_heading(st: ExtractState) -> ExtractState {
    let f = flush(st);
    ExtractState {
        heading: None,
        heading_text: Seq::empty(),
        headings: match f.heading {
            Some(level) => f.headings.push((level, trim(f.heading_text))),
            None => f.headings,
        },
        ..f
    }
}

/// A list item closes: a task item is recorded with its trimmed text.
pub open spec fn end_item(st: ExtractState) -> ExtractState {
    let f = flush(st);
    ExtractState {
        in_task: false,
        task_text: Seq::empty(),
        tasks: if f.in_task {
            f.tasks.push((trim(f.task_text), f.task_done))
        } else {
            f.tasks
        },
        ..f
    }
}

/// The effect of a start tag on the extraction state.
pub open spec fn start_tag(st: ExtractState, role: TagRole) -> ExtractState {
    match role {
        TagRole::CodeBlock => ExtractState { in_code: true, ..flush(st) },
        TagRole::Heading(level) => ExtractState {
            heading: Some(level),
            heading_text: Seq::empty(),
            ..flush(st)
        },
        TagRole::Block => flush(st),
        TagRole::Item => ExtractState {
            in_task: false,
            task_done: false,
            task_text: Seq::empty(),
            ..flush(st)
        },
        TagRole::Other => st,
    }
}

/// The effect of an end tag on the extraction state. Text inside a code
/// block never joined the prose run, so its end flushes nothing.
pub open spec fn end_tag(st: ExtractState, role: TagRole) -> ExtractState {
    match role {
        TagRole::CodeBlock => ExtractState { in_code: false, ..st },
        TagRole::Heading(_) => end_heading(st),
        TagRole::Block => flush(st),
        TagRole::Item => end_item(st),
        TagRole::Other => st,
    }
}

/// The effect of one event on the extraction state. Inline code closes
/// the prose run, so that a wiki-link cannot straddle a code span; line
/// breaks count as a space; math, HTML, footnote references and rules are
/// passed over.
pub open spec fn step(st: ExtractState, ev: MdEvent) -> ExtractState {
    match ev {
        MdEvent::Start(name) => start_tag(st, tag_role(name@)),
        MdEvent::End(name) => end_tag(st, tag_role(name@)),
        MdEvent::Text(t) => add_text(st, t@),
        MdEvent::Code => flush(st),
        MdEvent::SoftBreak => add_text(st, seq![' ']),
        MdEvent::HardBreak => add_text(st, seq![' ']),
        MdEvent::TaskListMarker(done) => ExtractState { in_task: true, task_done: done, ..st },
        _ => st,
    }
}

/// The state after every event of `events`, in order.
pub open spec fn run_events(events: Seq<MdEvent>) -> ExtractState
    decreases events.len(),
{
    if events.len() == 0 {
        initial_state()
    } else {
        step(run_events(events.drop_last()), events.last())
    }
}

/// Everything extracted from an event stream: the final prose run is
/// flushed at the end of the document.
pub open spec fn extracted(events: Seq<MdEvent>) -> ExtractState {
    flush(run_events(events))
}

/// The state after the events `evs`, starting from `st`.
pub open spec fn run_from(st: ExtractState, evs: Seq<MdEvent>) -> ExtractState
    decreases evs.len(),
{
    if evs.len() == 0 {
        st
    } else {
        step(run_from(st, evs.drop_last()), evs.last())
    }
}

/// Events that only carry text: text nodes and line breaks.
pub open spec fn text_only(evs: Seq<MdEvent>) -> bool {
    forall|i: int|
        0 <= i < evs.len() ==> (#[trigger] evs[i] is Text || evs[i] is SoftBreak
            || evs[i] is HardBreak)
}

/// The start of a code block.
pub open spec fn opens_code(ev: MdEvent) -> bool {
    ev matches MdEvent::Start(name) && tag_role(name@) is CodeBlock
}

/// The end of a code block.
pub open spec fn closes_code(ev: MdEvent) -> bool {
    ev matches MdEvent::End(name) && tag_role(name@) is CodeBlock
}

/// Two states that will record the same wiki-links and tags from here on.
pub open spec fn same_prose(x: ExtractState, y: ExtractState) -> bool {
    &&& x.in_code == y.in_code
    &&& x.prose == y.prose
    &&& x.links == y.links
    &&& x.tags == y.tags
}

proof fn lemma_run_split(s: Seq<MdEvent>, b: Seq<MdEvent>)
    ensures
        run_events(s + b) == run_from(run_events(s), b),
    decreases b.len(),
{
    if b.len() == 0 {
        assert(s + b =~= s);
    } else {
        lemma_run_split(s, b.drop_last());
        assert((s + b).drop_last() =~= s + b.drop_last());
        assert((s + b).last() == b.last());
    }
}

proof fn lemma_run_from_same_prose(x: ExtractState, y: ExtractState, b: Seq<MdEvent>)
    requires
        same_prose(x, y),
    ensures
        same_prose(run_from(x, b), run_from(y, b)),
    decreases b.len(),
{
    if b.len() > 0 {
        lemma_run_from_same_prose(x, y, b.drop_last());
    }
}

proof fn lemma_code_text(st: ExtractState, c: Seq<MdEvent>)
    requires
        st.in_code,
        text_only(c),
    ensures
        same_prose(run_from(st, c), st),
    decreases c.len(),
{
    if c.len() > 0 {
        assert(text_only(c.drop_last())) by {
            assert forall|i: int| 0 <= i < c.drop_last().len() implies (#[trigger] c.drop_last()[i] is Text
                || c.drop_last()[i] is SoftBreak || c.drop_last()[i] is HardBreak) by {
                assert(c.drop_last()[i] == c[i]);
            }
        }
        lemma_code_text(st, c.drop_last());
        assert(c.last() == c[c.len() - 1]);
    }
}

/// Text inside a code block never yields wiki-links or tags: removing the
/// text of a code block (text and line-break events between its start and
/// end) from any event stream leaves the extracted links and tags as they
/// were.
pub proof fn code_block_text_is_ignored(
    a: Seq<MdEvent>,
    opening: MdEvent,
    c: Seq<MdEvent>,
    closing: MdEvent,
    b: Seq<MdEvent>,
)
    requires
        opens_code(opening),
        closes_code(closing),
        text_only(c),
    ensures
        extracted(a + seq![opening] + c + seq![closing] + b).links
            == extracted(a + seq![opening, closing] + b).links,
        extracted(a + seq![opening] + c + seq![closing] + b).tags
            == extracted(a + seq![opening, closing] + b).tags,
{
    let p = a.push(opening);
    assert(p.drop_last() =~= a);
    let st = run_events(p);
    assert(st.in_code);
    lemma_run_split(p, c);
    lemma_code_text(st, c);
    let q1 = (p + c).push(closing);
    let q2 = p.push(closing);
    assert(q1.drop_last() =~= p + c);
    assert(q2.drop_last() =~= p);
    assert(same_prose(run_events(q1), run_events(q2)));
    lemma_run_split(q1, b);
    lemma_run_split(q2, b);
    lemma_run_from_same_prose(run_events(q1), run_events(q2), b);
    assert(a + seq![opening] + c + seq![closing] + b =~= q1 + b);
    assert(a + seq![opening, closing] + b =~= q2 + b);
}

pub open spec fn heading_views(v: Seq<ParsedHeading>) -> Seq<(u8, Seq<char>)> {
    v.map_values(|h: ParsedHeading| (h.level, h.text@))
}

pub open spec fn task_views(v: Seq<ParsedTask>) -> Seq<(Seq<char>, bool)> {
    v.map_values(|t: ParsedTask| (t.text@, t.done))
}

struct Extractor {
    in_code: bool,
    heading: Option<u8>,
    prose: Vec<char>,
    heading_text: Vec<char>,
    in_task: bool,
    task_done: bool,
    task_text: Vec<char>,
    links: Vec<ParsedLink>,
    tags: Vec<String>,
    headings: Vec<ParsedHeading>,
    tasks: Vec<ParsedTask>,
}

impl Extractor {
    spec fn state(&self) -> ExtractState {
        ExtractState {
            in_code: self.in_code,
            heading: self.heading,
            prose: self.prose@,
            heading_text: self.heading_text@,
            in_task: self.in_task,
            task_done: self.task_done,
            task_text: self.task_text@,
            links: found_parts(self.links@),
            tags: string_views(self.tags@),
            headings: heading_views(self.headings@),
            tasks: task_views(self.tasks@),
        }
    }

    fn new() -> (r: Extractor)
        ensures
            r.state() == initial_state(),
    {
        let r = Extractor {
            in_code: false,
            heading: None,
            prose: Vec::new(),
            heading_text: Vec::new(),
            in_task: false,
            task_done: false,
            task_text: Vec::new(),
            links: Vec::new(),
            tags: Vec::new(),
            headings: Vec::new(),
            tasks: Vec::new(),
        };
        assert(found_parts(r.links@) =~= Seq::empty());
        assert(string_views(r.tags@) =~= Seq::empty());
        assert(heading_views(r.headings@) =~= Seq::empty());
        assert(task_views(r.tasks@) =~= Seq::empty());
        r
    }

    fn flush(&mut self)
        ensures
            final(self).state() == flush(old(self).state()),
    {
        if self.prose.len() > 0 {
            scan_wiki_links(&self.prose, &mut self.links);
            scan_tags(&self.prose, &mut self.tags);
            self.prose = Vec::new();
        }
    }

    fn add_text(&mut self, t: &Vec<char>)
        ensures
            final(self).state() == add_text(old(self).state(), t@),
    {
        if self.heading.is_some() {
            append_chars(&mut self.heading_text, t);
        }
        if self.in_task {
            append_chars(&mut self.task_text, t);
        }
        if !self.in_code {
            append_chars(&mut self.prose, t);
        }
    }

    fn end_heading(&mut self)
        ensures
            final(self).state() == end_heading(old(self).state()),
    {
        self.flush();
        if let Some(level) = self.heading {
            let ghost before = heading_views(self.headings@);
            let text = trimmed_string(&self.heading_text, 0, self.heading_text.len());
            proof {
                assert(self.heading_text@.subrange(0, self.heading_text@.len() as int)
                    =~= self.heading_text@);
            }
            self.headings.push(ParsedHeading { level, text });
            assert(heading_views(self.headings@) =~= before.push((level, text@)));
        }
        self.heading = None;
        self.heading_text = Vec::new();
    }

    fn end_item(&mut self)
        ensures
            final(self).state() == end_item(old(self).state()),
    {
        self.flush();
        if self.in_task {
            let ghost before = task_views(self.tasks@);
            let text = trimmed_string(&self.task_text, 0, self.task_text.len());
            proof {
                assert(self.task_text@.subrange(0, self.task_text@.len() as int)
                    =~= self.task_text@);
            }
            let done = self.task_done;
            self.tasks.push(ParsedTask { text, done });
            assert(task_views(self.tasks@) =~= before.push((text@, done)));
        }
        self.in_task = false;
        self.task_text = Vec::new();
    }

    fn add_space(&mut self)
        ensures
            final(self).state() == add_text(old(self).state(), seq![' ']),
    {
        let mut space: Vec<char> = Vec::new();
        space.push(' ');
        assert(space@ =~= seq![' ']);
        self.add_text(&space);
    }

    fn start_tag(&mut self, role: TagRole)
        ensures
            final(self).state() == start_tag(old(self).state(), role),
    {
        match role {
            TagRole::CodeBlock => {
                self.flush();
                self.in_code = true;
            },
            TagRole::Heading(level) => {
                self.flush();
                self.heading = Some(level);
                self.heading_text = Vec::new();
            },
            TagRole::Block => {
                self.flush();
            },
            TagRole::Item => {
                self.flush();
                self.in_task = false;
                self.task_done = false;
                self.task_text = Vec::new();
            },
            TagRole::Other => {},
        }
    }

    fn end_tag(&mut self, role: TagRole)
        ensures
            final(self).state() == end_tag(old(self).state(), role),
    {
        match role {
            TagRole::CodeBlock => {
                self.in_code = false;
            },
            TagRole::Heading(_) => self.end_heading(),
            TagRole::Block => self.flush(),
            TagRole::Item => self.end_item(),
            TagRole::Other => {},
        }
    }

    fn step(&mut self, ev: &MdEvent)
        ensures
            final(self).state() == step(old(self).state(), *ev),
    {
        match ev {
            Start(name) => self.start_tag(tag_role_of(name.as_str())),
            End(name) => self.end_tag(tag_role_of(name.as_str())),
            Text(t) => {
                let chars = chars_of(t.as_str());
                self.add_text(&chars);
            },
            Code => self.flush(),
            SoftBreak => self.add_space(),
            HardBreak => self.add_space(),
            TaskListMarker(done) => {
                self.in_task = true;
                self.task_done = *done;
            },
            _ => {},
        }
    }
}

/// Extracts wiki-links, tags, headings and tasks from a markdown body in a
/// single walk over its events. Wiki-links and tags are read from runs of
/// prose text that are closed at every block boundary, heading, list item,
/// code block and inline code span, so they never come from code and never
/// straddle a code span.
pub fn extract_from_body(body: &str) -> (r: (
    Vec<ParsedLink>,
    Vec<String>,
    Vec<ParsedHeading>,
    Vec<ParsedTask>,
))
    ensures
        found_parts(r.0@) == extracted(markdown_event_stream(body@, MARKDOWN_OPTIONS)).links,
        string_views(r.1@) == extracted(markdown_event_stream(body@, MARKDOWN_OPTIONS)).tags,
        heading_views(r.2@) == extracted(markdown_event_stream(body@, MARKDOWN_OPTIONS)).headings,
        task_views(r.3@) == extracted(markdown_event_stream(body@, MARKDOWN_OPTIONS)).tasks,
{
    let events = markdown_events(body, MARKDOWN_OPTIONS);
    let mut ex = Extractor::new();
    let mut i: usize = 0;
    while i < events.len()
        invariant
            i <= events@.len(),
            events@ == markdown_event_stream(body@, MARKDOWN_OPTIONS),
            ex.state() == run_events(events@.subrange(0, i as int)),
        decreases events@.len() - i,
    {
        ex.step(&events[i]);
        proof {
            let pre = events@.subrange(0, i + 1);
            assert(pre.drop_last() =~= events@.subrange(0, i as int));
        }
        i = i + 1;
    }
    ex.flush();
    assert(events@.subrange(0, i as int) =~= events@);
    (ex.links, ex.tags, ex.headings, ex.tasks)
}

// ---------------------------------------------------------------------------
// Frontmatter
// ---------------------------------------------------------------------------

#[verifier::external_type_specification]
#[verifier::external_body]
pub struct ExYamlValue(serde_yaml::Value);

/// The top-level keys of a YAML document that serde_yaml deserialises as
/// a string-keyed map; `None` when the document does not deserialise as
/// one (malformed YAML, or not a mapping with string keys).
pub uninterp spec fn yaml_keys(yaml: Seq<char>) -> Option<Set<Seq<char>>>;

/// The key set of a frontmatter map, as character sequences.
pub open spec fn key_views(m: Map<String, serde_yaml::Value>) -> Set<Seq<char>> {
    m.dom().map(|k: String| k@)
}

/// Deserialises frontmatter YAML with `serde_yaml::from_str` into a
/// string-keyed map, falling back to an empty map when the YAML does not
/// parse as one. Claimed: the map's keys are the document's top-level
/// keys, and the map is empty when the document does not deserialise.
/// The values are not stated: nested YAML mappings are hashed with a
/// per-process random state, so equal source text need not give equal
/// values.
#[verifier::external_body]
pub(crate) fn parse_frontmatter_yaml(yaml: &str) -> (r: HashMap<String, serde_yaml::Value>)
    ensures
        match yaml_keys(yaml@) {
            Some(keys) => key_views(r@) == keys,
            None => r@ == Map::<String, serde_yaml::Value>::empty(),
        },
{
    serde_yaml::from_str(yaml).unwrap_or_default()
}

/// What serde_yaml gives for the value under `key` of a frontmatter YAML
/// document read as a string-keyed map: the value as a string
/// (`Value::as_str`), and the value as a sequence with each item as a
/// string (`Value::as_sequence`, then `Value::as_str` per item). Both are
/// `None` when the key is absent or the document is not such a map.
pub uninterp spec fn yaml_field(yaml: Seq<char>, key: Seq<char>) -> (
    Option<Seq<char>>,
    Option<Seq<Option<Seq<char>>>>,
);

/// The character view of an optional list of optional strings.
pub open spec fn opt_items(o: Option<Vec<Option<String>>>) -> Option<Seq<Option<Seq<char>>>> {
    match o {
        Some(v) => Some(v@.map_values(|s: Option<String>| opt_chars(s))),
        None => None,
    }
}

/// Reads the value under `key` of a frontmatter YAML document with
/// serde_yaml (`from_str` into a string-keyed map, then `as_str` and
/// `as_sequence` on the value). The contract claims that the two results
/// are serde_yaml's answer for these two arguments, which depends on
/// nothing else (strings and sequences of strings carry no hashed state),
/// and that both are `None` when the document does not deserialise or has
/// no such top-level key.
#[verifier::external_body]
fn yaml_field_of(yaml: &str, key: &str) -> (r: (Option<String>, Option<Vec<Option<String>>>))
    ensures
        (opt_chars(r.0), opt_items(r.1)) == yaml_field(yaml@, key@),
        !(yaml_keys(yaml@) matches Some(keys) && keys.contains(key@)) ==> r.0 is None
            && r.1 is None,
{
    let map: HashMap<String, serde_yaml::Value> = serde_yaml::from_str(yaml).unwrap_or_default();
    let value = map.get(key);
    let text = value.and_then(|v| v.as_str()).map(|s| s.to_string());
    let items = value.and_then(|v| v.as_sequence()).map(
        |items| items.iter().map(|v| v.as_str().map(|s| s.to_string())).collect(),
    );
    (text, items)
}

/// The string items of a frontmatter list, in order; other items are
/// skipped, and a missing list gives none.
pub open spec fn string_items(items: Option<Seq<Option<Seq<char>>>>) -> Seq<Seq<char>>
    decreases (match items {
        Some(s) => s.len(),
        None => 0,
    }),
{
    match items {
        Some(s) => if s.len() == 0 {
            Seq::empty()
        } else {
            let rest = string_items(Some(s.drop_last()));
            match s.last() {
                Some(t) => rest.push(t),
                None => rest,
            }
        },
        None => Seq::empty(),
    }
}

/// Keeps the string items of a frontmatter list, in order.
pub fn string_items_of(items: Option<Vec<Option<String>>>) -> (r: Vec<String>)
    ensures
        string_views(r@) == string_items(opt_items(items)),
{
    let mut out: Vec<String> = Vec::new();
    match items {
        Some(v) => {
            let ghost all = opt_items(Some(v))->0;
            let mut i: usize = 0;
            while i < v.len()
                invariant
                    i <= v@.len(),
                    all == v@.map_values(|s: Option<String>| opt_chars(s)),
                    string_views(out@) == string_items(Some(all.take(i as int))),
                decreases v@.len() - i,
            {
                proof {
                    assert(all.take(i + 1).drop_last() =~= all.take(i as int));
                    assert(all.take(i + 1).last() == opt_chars(v@[i as int]));
                }
                match &v[i] {
                    Some(t) => {
                        let ghost before = string_views(out@);
                        out.push(t.clone());
                        assert(string_views(out@) =~= before.push(t@));
                    },
                    None => {},
                }
                i = i + 1;
            }
            assert(all.take(i as int) =~= all);
        },
        None => {},
    }
    if out.len() == 0 {
        assert(string_views(out@) =~= Seq::empty());
    }
    out
}

/// Index of the first `'\n'` at or after `i` (or the length of `s`).
pub open spec fn find_newline(s: Seq<char>, i: int) -> int
    decreases s.len() - i,
{
    if 0 <= i < s.len() && s[i] != '\n' {
        find_newline(s, i + 1)
    } else {
        i
    }
}

pub proof fn lemma_find_newline(s: Seq<char>, i: int)
    requires
        0 <= i <= s.len(),
    ensures
        i <= find_newline(s, i) <= s.len(),
        find_newline(s, i) < s.len() ==> s[find_newline(s, i)] == '\n',
        forall|k: int| i <= k < find_newline(s, i) ==> s[k] != '\n',
    decreases s.len() - i,
{
    if i < s.len() && s[i] != '\n' {
        lemma_find_newline(s, i + 1);
    }
}

/// `line` without one trailing carriage return.
pub open spec fn strip_cr(line: Seq<char>) -> Seq<char> {
    if line.len() > 0 && line.last() == '\r' {
        line.drop_last()
    } else {
        line
    }
}

/// A frontmatter fence: `---` followed only by whitespace, ignoring a
/// trailing carriage return.
pub open spec fn is_fence_line(line: Seq<char>) -> bool {
    let l = strip_cr(line);
    &&& l.len() >= 3
    &&& l[0] == '-' && l[1] == '-' && l[2] == '-'
    &&& forall|k: int| 3 <= k < l.len() ==> is_ws(#[trigger] l[k])
}

/// Start of the first fence line among the lines that start at or after
/// `i` (lines are separated by `'\n'`).
pub open spec fn closing_fence_from(s: Seq<char>, i: int) -> Option<int>
    decreases s.len() + 1 - i,
{
    if i < 0 || i > s.len() {
        None
    } else {
        let e = find_newline(s, i);
        if is_fence_line(s.subrange(i, e)) {
            Some(i)
        } else if i <= e < s.len() {
            closing_fence_from(s, e + 1)
        } else {
            None
        }
    }
}

/// Splits a document into its frontmatter YAML (when the first line is a
/// fence and a later line closes it) and its body: everything after the
/// line and newline that close the frontmatter, or the whole document.
pub open spec fn split_frontmatter_spec(s: Seq<char>) -> (Option<Seq<char>>, Seq<char>) {
    let fe = find_newline(s, 0);
    if is_fence_line(s.subrange(0, fe)) && fe < s.len() {
        match closing_fence_from(s, fe + 1) {
            Some(o) => {
                let e = find_newline(s, o);
                (
                    Some(s.subrange(fe + 1, o)),
                    if e + 1 < s.len() {
                        s.subrange(e + 1, s.len() as int)
                    } else {
                        Seq::empty()
                    },
                )
            },
            None => (None, s),
        }
    } else {
        (None, s)
    }
}

fn newline_from(v: &Vec<char>, i: usize) -> (r: usize)
    requires
        i <= v@.len(),
    ensures
        r as int == find_newline(v@, i as int),
        i <= r <= v@.len(),
{
    proof {
        lemma_find_newline(v@, i as int);
    }
    let mut j = i;
    while j < v.len() && v[j] != '\n'
        invariant
            i <= j <= v@.len(),
            find_newline(v@, j as int) == find_newline(v@, i as int),
        decreases v@.len() - j,
    {
        j = j + 1;
    }
    j
}

/// Whether `v[lo..hi]` is a frontmatter fence line.
fn fence_line(v: &Vec<char>, lo: usize, hi: usize) -> (b: bool)
    requires
        lo <= hi <= v@.len(),
    ensures
        b == is_fence_line(v@.subrange(lo as int, hi as int)),
{
    let ghost line = v@.subrange(lo as int, hi as int);
    let end = if hi > lo && v[hi - 1] == '\r' {
        hi - 1
    } else {
        hi
    };
    assert(strip_cr(line) =~= v@.subrange(lo as int, end as int));
    if end - lo < 3 || v[lo] != '-' || v[lo + 1] != '-' || v[lo + 2] != '-' {
        return false;
    }
    let mut k = lo + 3;
    while k < end
        invariant
            lo + 3 <= k <= end <= hi <= v@.len(),
            line == v@.subrange(lo as int, hi as int),
            strip_cr(line) == v@.subrange(lo as int, end as int),
            forall|m: int| lo + 3 <= m < k ==> is_ws(#[trigger] v@[m]),
        decreases end - k,
    {
        if !crate::text::is_whitespace(v[k]) {
            assert(strip_cr(line)[k - lo] == v@[k as int]);
            return false;
        }
        k = k + 1;
    }
    assert forall|m: int| 3 <= m < strip_cr(line).len() implies is_ws(
        #[trigger] strip_cr(line)[m],
    ) by {
        assert(strip_cr(line)[m] == v@[lo + m]);
    }
    true
}

/// Locates the frontmatter of a document: the YAML's character range, if
/// there is frontmatter, and where the body starts (the length of `v` when
/// the body is empty).
pub fn split_frontmatter(v: &Vec<char>) -> (r: (Option<(usize, usize)>, usize))
    ensures
        r.1 <= v@.len(),
        split_frontmatter_spec(v@).1 == v@.subrange(r.1 as int, v@.len() as int),
        match r.0 {
            Some((a, b)) => a <= b <= v@.len() && split_frontmatter_spec(v@).0 == Some(
                v@.subrange(a as int, b as int),
            ),
            None => split_frontmatter_spec(v@).0 is None,
        },
{
    let ghost s = v@;
    let fe = newline_from(v, 0);
    if !fence_line(v, 0, fe) || fe >= v.len() {
        assert(s.subrange(0, s.len() as int) =~= s);
        return (None, 0);
    }
    let mut i = fe + 1;
    while i <= v.len()
        invariant
            fe < v@.len(),
            fe as int == find_newline(s, 0),
            is_fence_line(s.subrange(0, fe as int)),
            fe + 1 <= i <= v@.len() + 1,
            s == v@,
            closing_fence_from(s, i as int) == closing_fence_from(s, fe + 1),
        decreases v@.len() + 1 - i,
    {
        let e = newline_from(v, i);
        if fence_line(v, i, e) {
            assert(closing_fence_from(s, i as int) == Some(i as int));
            let body_start = if e < v.len() && e + 1 < v.len() {
                e + 1
            } else {
                v.len()
            };
            assert(v@.subrange(v@.len() as int, v@.len() as int) =~= Seq::<char>::empty());
            return (Some((fe + 1, i)), body_start);
        }
        if e >= v.len() {
            assert(s.subrange(0, s.len() as int) =~= s);
            return (None, 0);
        }
        i = e + 1;
    }
    assert(s.subrange(0, s.len() as int) =~= s);
    (None, 0)
}

/// All metadata extracted from a single markdown file.
#[derive(Debug, Clone, PartialEq)]
pub struct ParsedNote {
    /// Parsed frontmatter key-value pairs. Empty map if no frontmatter.
    pub frontmatter: HashMap<String, serde_yaml::Value>,
    /// The frontmatter `title` when it is a string.
    pub title: Option<String>,
    /// The string items of the frontmatter `aliases` list, in order.
    pub aliases: Vec<String>,
    /// Raw body text with frontmatter stripped (if any).
    pub body: String,
    /// Wiki-links found in body text outside code contexts.
    pub links: Vec<ParsedLink>,
    /// Hashtags found in body text outside code contexts (without leading `#`).
    pub tags: Vec<String>,
    /// Headings in document order.
    pub headings: Vec<ParsedHeading>,
    /// Task items in document order.
    pub tasks: Vec<ParsedTask>,
}

/// The value under `key` of a document's frontmatter, as serde_yaml reads
/// it; both parts are `None` when the document has no frontmatter.
pub open spec fn frontmatter_field(
    content: Seq<char>,
    key: Seq<char>,
) -> (Option<Seq<char>>, Option<Seq<Option<Seq<char>>>>) {
    match split_frontmatter_spec(content).0 {
        Some(yaml) => yaml_field(yaml, key),
        None => (None, None),
    }
}

/// What `parse` returns for `content`, field by field.
pub open spec fn parsed_from(note: ParsedNote, content: Seq<char>) -> bool {
    let body = split_frontmatter_spec(content).1;
    let ex = extracted(markdown_event_stream(body, MARKDOWN_OPTIONS));
    &&& match split_frontmatter_spec(content).0 {
        Some(yaml) => match yaml_keys(yaml) {
            Some(keys) => key_views(note.frontmatter@) == keys,
            None => note.frontmatter@ == Map::<String, serde_yaml::Value>::empty(),
        },
        None => note.frontmatter@ == Map::<String, serde_yaml::Value>::empty(),
    }
    &&& opt_chars(note.title) == frontmatter_field(content, "title"@).0
    &&& string_views(note.aliases@) == string_items(frontmatter_field(content, "aliases"@).1)
    &&& note.body@ == body
    &&& found_parts(note.links@) == ex.links
    &&& string_views(note.tags@) == ex.tags
    &&& heading_views(note.headings@) == ex.headings
    &&& task_views(note.tasks@) == ex.tasks
}

/// Parses a full markdown file and returns all extracted metadata.
///
/// Malformed frontmatter YAML gives an empty frontmatter map rather than an
/// error, so it never prevents body parsing.
pub fn parse(content: &str) -> (note: ParsedNote)
    ensures
        parsed_from(note, content@),
{
    let chars = chars_of(content);
    let (yaml, body_start) = split_frontmatter(&chars);
    let (frontmatter, title, aliases) = match yaml {
        Some((a, b)) => {
            let source = crate::text::string_of_range(&chars, a, b);
            let (title, _) = yaml_field_of(source.as_str(), "title");
            let (_, items) = yaml_field_of(source.as_str(), "aliases");
            (parse_frontmatter_yaml(source.as_str()), title, string_items_of(items))
        },
        None => {
            let aliases = string_items_of(None);
            (HashMap::new(), None, aliases)
        },
    };
    let body = crate::text::string_of_range(&chars, body_start, chars.len());
    let (links, tags, headings, tasks) = extract_from_body(body.as_str());
    ParsedNote { frontmatter, title, aliases, body, links, tags, headings, tasks }
}

} // verus!

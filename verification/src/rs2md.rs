//! Literate sources: a source file whose prose sits in block comments is
//! turned into markup, the prose as it stands and the code between the
//! comments in fenced blocks.
//!
//! The file is read line by line. A line that holds nothing but a marker,
//! and white space behind it, opens or closes a prose block; every other
//! line is collected as it stands until the next marker decides what it
//! belongs to.

use crate::text::{
    chars_of, lines, lines_of, push_line, same, slice, string_of, trim_end, trimmed, unlines,
    views, with_newline,
};
use vstd::prelude::*;

verus! {

/// What the converter is doing once a line has been read. `Start` and `End`
/// last for one line only: they stand for the markers that begin and end a
/// block of code.
#[derive(Clone, Copy, Debug, PartialEq, Eq)]
pub enum CodeBlock {
    /// A prose block was closed: what was collected is prose.
    Start,
    /// A prose block was opened again: what was collected is code.
    End,
    /// Inside a prose block.
    Comment,
    /// Before the first prose block.
    FirstLine,
    /// Between two prose blocks.
    Code,
}

/// The state of a conversion between two lines.
pub struct Progress {
    pub action: CodeBlock,
    /// The lines collected since the last marker.
    pub buffer: Seq<Seq<char>>,
    /// The markup written so far.
    pub markdown: Seq<char>,
}

/// The marker that opens a prose block: `/*`, and with `doc` also `/**`.
pub open spec fn is_open(line: Seq<char>, doc: bool) -> bool {
    line == seq!['/', '*'] || (doc && line == seq!['/', '*', '*'])
}

/// The marker that closes a prose block: `*/`.
pub open spec fn is_close(line: Seq<char>) -> bool {
    line == seq!['*', '/']
}

/// The line that opens a fenced block of code.
pub open spec fn fence_open() -> Seq<char> {
    seq!['`', '`', '`', 'r', 'u', 's', 't']
}

/// The line that closes a fenced block of code.
pub open spec fn fence_close() -> Seq<char> {
    seq!['`', '`', '`']
}

/// What a marker makes of the current action; a line that is no marker
/// leaves it alone.
pub open spec fn marked(action: CodeBlock, line: Seq<char>, doc: bool) -> CodeBlock {
    if is_open(line, doc) {
        if action is FirstLine {
            CodeBlock::Comment
        } else {
            CodeBlock::End
        }
    } else if is_close(line) {
        CodeBlock::Start
    } else {
        action
    }
}

/// A line that is no marker: without its trailing white space it is
/// neither the marker that opens a prose block nor the one that closes it.
pub open spec fn is_plain(raw: Seq<char>, doc: bool) -> bool {
    !is_open(trimmed(raw), doc) && !is_close(trimmed(raw))
}

/// A blank line: one that holds nothing but white space.
pub open spec fn is_blank(raw: Seq<char>) -> bool {
    trimmed(raw).len() == 0
}

/// The lines that a line adds to those collected: itself, as it stands,
/// when it is no marker and a block is open.
pub open spec fn collected(p: Progress, raw: Seq<char>, doc: bool) -> Seq<Seq<char>> {
    if is_plain(raw, doc) && (p.action is Comment || p.action is Code) {
        p.buffer.push(raw)
    } else {
        p.buffer
    }
}

/// A block of code as markup: the lines, as they stand, between a pair of
/// fence lines. One blank line at the start of the block and one at its
/// end are not fenced: each stands outside the fence, where it stood and
/// as it stood.
pub open spec fn fenced(buffer: Seq<Seq<char>>) -> Seq<char> {
    let lead = buffer.len() > 0 && is_blank(buffer[0]);
    let rest = if lead {
        buffer.drop_first()
    } else {
        buffer
    };
    let trail = rest.len() > 0 && is_blank(rest.last());
    let code = if trail {
        rest.drop_last()
    } else {
        rest
    };
    let before = if lead {
        with_newline(buffer[0])
    } else {
        Seq::empty()
    };
    let after = if trail {
        with_newline(rest.last())
    } else {
        Seq::empty()
    };
    before + with_newline(fence_open()) + unlines(code) + with_newline(fence_close()) + after
}

/// What a marker does with the lines collected. Where a prose block closes
/// they are written as they stand; where one opens they are written as a
/// block of code, unless there are none. Either way none stays collected.
pub open spec fn settled(p: Progress) -> Progress {
    match p.action {
        CodeBlock::Start => Progress {
            action: CodeBlock::Code,
            buffer: Seq::empty(),
            markdown: p.markdown + unlines(p.buffer),
        },
        CodeBlock::End => Progress {
            action: CodeBlock::Comment,
            buffer: Seq::empty(),
            markdown: if p.buffer.len() > 0 {
                p.markdown + fenced(p.buffer)
            } else {
                p.markdown
            },
        },
        _ => p,
    }
}

/// The state after one more line of the source. Whether the line is a
/// marker is told without its trailing white space; a line that is
/// collected keeps it.
pub open spec fn fed(p: Progress, raw: Seq<char>, doc: bool) -> Progress {
    settled(
        Progress {
            action: marked(p.action, trimmed(raw), doc),
            buffer: collected(p, raw, doc),
            markdown: p.markdown,
        },
    )
}

/// The state after the given lines, read in order.
pub open spec fn fed_all(p: Progress, raws: Seq<Seq<char>>, doc: bool) -> Progress
    decreases raws.len(),
{
    if raws.len() == 0 {
        p
    } else {
        fed(fed_all(p, raws.drop_last(), doc), raws.last(), doc)
    }
}

/// The state before the first line.
pub open spec fn start() -> Progress {
    Progress { action: CodeBlock::FirstLine, buffer: Seq::empty(), markdown: Seq::empty() }
}

/// The markup of a literate source. Lines still collected when the source
/// ends are not written.
pub open spec fn converted(content: Seq<char>, doc: bool) -> Seq<char> {
    fed_all(start(), lines_of(content), doc).markdown
}

/// To read two runs of lines one after the other is to read them as one.
pub proof fn lemma_fed_all_add(p: Progress, a: Seq<Seq<char>>, b: Seq<Seq<char>>, doc: bool)
    ensures
        fed_all(p, a + b, doc) == fed_all(fed_all(p, a, doc), b, doc),
    decreases b.len(),
{
    if b.len() == 0 {
        assert(a + b == a);
    } else {
        lemma_fed_all_add(p, a, b.drop_last(), doc);
        assert((a + b).drop_last() == a + b.drop_last());
    }
}

/// To read one line is to read the run that holds nothing else.
pub proof fn lemma_fed_all_one(p: Progress, raw: Seq<char>, doc: bool)
    ensures
        fed_all(p, seq![raw], doc) == fed(p, raw, doc),
{
    let one = seq![raw];
    assert(one.drop_last().len() == 0);
    assert(fed_all(p, one.drop_last(), doc) == p);
    assert(one.last() == raw);
}

/// Inside a block, lines that are no markers are collected and nothing
/// else changes.
pub proof fn lemma_fed_all_plain(p: Progress, raws: Seq<Seq<char>>, doc: bool)
    requires
        p.action is Comment || p.action is Code,
        forall|k: int| 0 <= k < raws.len() ==> is_plain(#[trigger] raws[k], doc),
    ensures
        fed_all(p, raws, doc) == (Progress {
            action: p.action,
            buffer: p.buffer + raws,
            markdown: p.markdown,
        }),
    decreases raws.len(),
{
    if raws.len() == 0 {
        assert(p.buffer + raws == p.buffer);
    } else {
        lemma_fed_all_plain(p, raws.drop_last(), doc);
        assert(is_plain(raws.last(), doc));
        assert(p.buffer + raws == (p.buffer + raws.drop_last()).push(raws.last()));
    }
}

/// A source that is a prose block, code and a second prose block becomes
/// the lines of the first block as they stand, the code in a fence, and
/// the lines of the second block as they stand. Where `code` begins or
/// ends with a blank line, that line stands before or behind the fence;
/// where there is no code, there is no fence. `open`, `close`, `reopen`
/// and `reclose` are the four lines with the markers; no other line is a
/// marker.
pub proof fn lemma_prose_code_prose(
    content: Seq<char>,
    doc: bool,
    open: Seq<char>,
    first: Seq<Seq<char>>,
    close: Seq<char>,
    code: Seq<Seq<char>>,
    reopen: Seq<char>,
    second: Seq<Seq<char>>,
    reclose: Seq<char>,
)
    requires
        lines_of(content) == seq![open] + first + seq![close] + code + seq![reopen] + second
            + seq![reclose],
        is_open(trimmed(open), doc),
        is_open(trimmed(reopen), doc),
        is_close(trimmed(close)),
        is_close(trimmed(reclose)),
        forall|k: int| 0 <= k < first.len() ==> is_plain(#[trigger] first[k], doc),
        forall|k: int| 0 <= k < code.len() ==> is_plain(#[trigger] code[k], doc),
        forall|k: int| 0 <= k < second.len() ==> is_plain(#[trigger] second[k], doc),
    ensures
        converted(content, doc) == unlines(first) + (if code.len() > 0 {
            fenced(code)
        } else {
            Seq::empty()
        }) + unlines(second),
{
    let s0 = start();
    let s1 = fed(s0, open, doc);
    let s2 = fed_all(s1, first, doc);
    let s3 = fed(s2, close, doc);
    let s4 = fed_all(s3, code, doc);
    let s5 = fed(s4, reopen, doc);
    let s6 = fed_all(s5, second, doc);
    let s7 = fed(s6, reclose, doc);
    let l1 = seq![open];
    let l2 = l1 + first;
    let l3 = l2 + seq![close];
    let l4 = l3 + code;
    let l5 = l4 + seq![reopen];
    let l6 = l5 + second;
    let l7 = l6 + seq![reclose];
    assert(fed_all(s0, l7, doc) == s7) by {
        lemma_fed_all_one(s0, open, doc);
        lemma_fed_all_add(s0, l1, first, doc);
        lemma_fed_all_add(s0, l2, seq![close], doc);
        lemma_fed_all_one(s2, close, doc);
        lemma_fed_all_add(s0, l3, code, doc);
        lemma_fed_all_add(s0, l4, seq![reopen], doc);
        lemma_fed_all_one(s4, reopen, doc);
        lemma_fed_all_add(s0, l5, second, doc);
        lemma_fed_all_add(s0, l6, seq![reclose], doc);
        lemma_fed_all_one(s6, reclose, doc);
    }
    assert(s1 == Progress {
        action: CodeBlock::Comment,
        buffer: Seq::empty(),
        markdown: Seq::empty(),
    });
    lemma_fed_all_plain(s1, first, doc);
    assert(s1.buffer + first == first);
    assert(s3 == Progress {
        action: CodeBlock::Code,
        buffer: Seq::empty(),
        markdown: unlines(first),
    }) by {
        assert(Seq::<char>::empty() + unlines(first) == unlines(first));
    }
    lemma_fed_all_plain(s3, code, doc);
    assert(s3.buffer + code == code);
    let fence = if code.len() > 0 {
        fenced(code)
    } else {
        Seq::empty()
    };
    assert(s5 == Progress {
        action: CodeBlock::Comment,
        buffer: Seq::empty(),
        markdown: unlines(first) + fence,
    }) by {
        assert(unlines(first) + Seq::<char>::empty() == unlines(
            first,
        ));
    }
    lemma_fed_all_plain(s5, second, doc);
    assert(s5.buffer + second == second);
}

/// A conversion in progress.
pub struct Converter {
    pub action: CodeBlock,
    pub buffer: Vec<Vec<char>>,
    pub markdown: Vec<char>,
}

impl View for Converter {
    type V = Progress;

    open spec fn view(&self) -> Progress {
        Progress { action: self.action, buffer: views(self.buffer@), markdown: self.markdown@ }
    }
}

fn is_open_marker(line: &Vec<char>, doc: bool) -> (b: bool)
    ensures
        b == is_open(line@, doc),
{
    let short: Vec<char> = vec!['/', '*'];
    let long: Vec<char> = vec!['/', '*', '*'];
    assert(short@ == seq!['/', '*']);
    assert(long@ == seq!['/', '*', '*']);
    same(line, &short) || (doc && same(line, &long))
}

fn is_close_marker(line: &Vec<char>) -> (b: bool)
    ensures
        b == is_close(line@),
{
    let close: Vec<char> = vec!['*', '/'];
    assert(close@ == seq!['*', '/']);
    same(line, &close)
}

/// Writes a block of code to `out`.
fn push_fenced(buffer: &Vec<Vec<char>>, out: &mut Vec<char>)
    ensures
        final(out)@ == old(out)@ + fenced(views(buffer@)),
{
    let ghost all = views(buffer@);
    let lead = buffer.len() > 0 && trim_end(&buffer[0]).len() == 0;
    let from: usize = if lead {
        1
    } else {
        0
    };
    let trail = buffer.len() > from && trim_end(&buffer[buffer.len() - 1]).len() == 0;
    let to: usize = if trail {
        buffer.len() - 1
    } else {
        buffer.len()
    };
    let ghost rest = if lead {
        all.drop_first()
    } else {
        all
    };
    let ghost code = if trail {
        rest.drop_last()
    } else {
        rest
    };
    assert(code == all.subrange(from as int, to as int));
    let open: Vec<char> = vec!['`', '`', '`', 'r', 'u', 's', 't'];
    let close: Vec<char> = vec!['`', '`', '`'];
    assert(open@ == fence_open());
    assert(close@ == fence_close());
    if lead {
        push_line(&buffer[0], out);
    }
    push_line(&open, out);
    let ghost head = out@;
    let mut i: usize = from;
    assert(all.subrange(from as int, from as int) == Seq::<Seq<char>>::empty());
    while i < to
        invariant
            from <= i <= to <= buffer.len(),
            all == views(buffer@),
            out@ == head + unlines(all.subrange(from as int, i as int)),
        decreases to - i,
    {
        assert(all.subrange(from as int, i + 1).drop_last() == all.subrange(
            from as int,
            i as int,
        ));
        push_line(&buffer[i], out);
        i += 1;
    }
    push_line(&close, out);
    if trail {
        push_line(&buffer[buffer.len() - 1], out);
    }
}

impl Converter {
    pub fn new() -> (c: Converter)
        ensures
            c@ == start(),
    {
        let c = Converter {
            action: CodeBlock::FirstLine,
            buffer: Vec::new(),
            markdown: Vec::new(),
        };
        assert(views(c.buffer@) == Seq::<Seq<char>>::empty());
        c
    }

    /// Reads one more line of the source. With `doc`, `/**` opens a prose
    /// block as `/*` does.
    pub fn feed(&mut self, raw: &Vec<char>, doc: bool)
        ensures
            final(self)@ == fed(old(self)@, raw@, doc),
    {
        let line = trim_end(raw);
        let ghost before = views(self.buffer@);
        if is_open_marker(&line, doc) {
            self.action = match self.action {
                CodeBlock::FirstLine => CodeBlock::Comment,
                _ => CodeBlock::End,
            };
        } else if is_close_marker(&line) {
            self.action = CodeBlock::Start;
        } else {
            match self.action {
                CodeBlock::Comment | CodeBlock::Code => {
                    self.buffer.push(slice(raw, 0, raw.len()));
                    assert(raw@.subrange(0, raw.len() as int) == raw@);
                    assert(views(self.buffer@) == before.push(raw@));
                },
                _ => {},
            }
        }
        match self.action {
            CodeBlock::Start => {
                crate::text::push_lines(&self.buffer, &mut self.markdown);
                self.buffer.clear();
                self.action = CodeBlock::Code;
                assert(views(self.buffer@) == Seq::<Seq<char>>::empty());
            },
            CodeBlock::End => {
                if self.buffer.len() > 0 {
                    push_fenced(&self.buffer, &mut self.markdown);
                    self.buffer.clear();
                }
                self.action = CodeBlock::Comment;
                assert(views(self.buffer@) == Seq::<Seq<char>>::empty());
            },
            _ => {},
        }
    }

    /// Reads the lines of a source, in order.
    pub fn feed_all(&mut self, raws: &Vec<Vec<char>>, doc: bool)
        ensures
            final(self)@ == fed_all(old(self)@, views(raws@), doc),
    {
        let mut i: usize = 0;
        assert(views(raws@).subrange(0, 0) == Seq::<Seq<char>>::empty());
        while i < raws.len()
            invariant
                i <= raws.len(),
                self@ == fed_all(old(self)@, views(raws@).subrange(0, i as int), doc),
            decreases raws.len() - i,
        {
            assert(views(raws@).subrange(0, i + 1).drop_last() == views(raws@).subrange(
                0,
                i as int,
            ));
            self.feed(&raws[i], doc);
            i += 1;
        }
        assert(views(raws@).subrange(0, raws.len() as int) == views(raws@));
    }
}

/// The markup of a literate source whose prose sits in `/** ... */` or
/// `/* ... */` blocks.
pub fn from_rs(content: &str) -> (markdown: String)
    ensures
        markdown@ == converted(content@, true),
{
    let raws = lines(&chars_of(content));
    let mut c = Converter::new();
    c.feed_all(&raws, true);
    string_of(&c.markdown)
}

} // verus!

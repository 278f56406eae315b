//! Documents: what a listing needs to know of one, read from its text,
//! and the pass that finishes its rendered page.
//!
//! A document begins with a header of `key: value` lines, which ends at the
//! first blank line. The body follows: its top-level heading names the
//! document, and its first paragraph is the excerpt.

use crate::pattern::{has_transclusion, is_heading, is_match};
use crate::path::joined;
use crate::string::labelled;
use crate::text::{
    append, chars_of, find, first_match, has_prefix, is_first_match, is_space, is_whitespace,
    lemma_interleaved_nothing, lemma_matches_in_part, lemma_replaced_around,
    lemma_replaced_by_itself, lemma_replaced_first, lemma_replaced_none, lines, lines_of,
    matches_at, occurs_in, push_line, replace, replaced, same, slice, starts_with, string_of,
    trim_end, trimmed, views, with_newline,
};
use vstd::prelude::*;

verus! {

/// What is known of one document.
#[derive(Debug, PartialEq)]
pub struct Metadata {
    /// The file name without its extension.
    pub name: String,
    pub title: String,
    /// The date of creation, or `draft`.
    pub created: String,
    /// The date of the last update; empty when there was none.
    pub updated: String,
    pub tags: String,
    /// The excerpt: the first paragraph, each line followed by a line feed.
    pub intro: String,
}

pub struct MetadataView {
    pub name: Seq<char>,
    pub title: Seq<char>,
    pub created: Seq<char>,
    pub updated: Seq<char>,
    pub tags: Seq<char>,
    pub intro: Seq<char>,
}

impl View for Metadata {
    type V = MetadataView;

    open spec fn view(&self) -> MetadataView {
        MetadataView {
            name: self.name@,
            title: self.title@,
            created: self.created@,
            updated: self.updated@,
            tags: self.tags@,
            intro: self.intro@,
        }
    }
}

/// The directories of a site.
pub struct PathConfig {
    /// The sources of the documents.
    pub posts: String,
    /// The sources of the pages that are no documents.
    pub pages: String,
    /// The markup of the documents.
    pub artifacts: String,
    /// The site as it is served.
    pub public: String,
    /// The rendered documents.
    pub public_posts: String,
}

/// A header line that is neither blank nor a continuation and holds no
/// `": "`. `line` counts the lines of the document from 0.
#[derive(Clone, Copy, Debug, PartialEq, Eq)]
pub struct MalformedHeader {
    pub line: usize,
}

/// The lines of a document, each without its trailing white space.
pub open spec fn document_lines(contents: Seq<char>) -> Seq<Seq<char>> {
    lines_of(contents).map_values(|l: Seq<char>| trimmed(l))
}

/// What stands between the key and the value of a header line.
pub open spec fn separator() -> Seq<char> {
    seq![':', ' ']
}

/// A line that continues the value of the header line before it: one that
/// begins with white space.
pub open spec fn is_continuation(line: Seq<char>) -> bool {
    line.len() > 0 && is_space(line[0])
}

/// A header line that gives a key its value.
pub open spec fn is_entry(line: Seq<char>) -> bool {
    !is_continuation(line) && occurs_in(separator(), line)
}

/// The key of an entry: what stands before its first `": "`.
pub open spec fn key_of(line: Seq<char>) -> Seq<char> {
    line.subrange(0, first_match(line, separator()))
}

/// The value of an entry: what stands behind its first `": "`.
pub open spec fn value_of(line: Seq<char>) -> Seq<char> {
    line.subrange(first_match(line, separator()) + 2, line.len() as int)
}

/// A line that cannot stand in a header.
pub open spec fn malformed(line: Seq<char>) -> bool {
    line.len() > 0 && !is_continuation(line) && !occurs_in(separator(), line)
}

/// The number of lines before the first blank line.
pub open spec fn header_len(ls: Seq<Seq<char>>) -> int
    decreases ls.len(),
{
    if ls.len() == 0 || ls[0].len() == 0 {
        0
    } else {
        1 + header_len(ls.drop_first())
    }
}

/// The header: the lines before the first blank line.
pub open spec fn header_of(ls: Seq<Seq<char>>) -> Seq<Seq<char>> {
    ls.subrange(0, header_len(ls))
}

/// The body: the lines behind the blank line that ends the header.
pub open spec fn body_of(ls: Seq<Seq<char>>) -> Seq<Seq<char>> {
    if header_len(ls) < ls.len() {
        ls.subrange(header_len(ls) + 1, ls.len() as int)
    } else {
        Seq::empty()
    }
}

/// The index of the first malformed line among `header`, or its length.
pub open spec fn first_fault(header: Seq<Seq<char>>) -> int
    decreases header.len(),
{
    if header.len() == 0 || malformed(header[0]) {
        0
    } else {
        1 + first_fault(header.drop_first())
    }
}

/// The index of the first malformed line of the header of a document;
/// `None` when the header is well formed.
pub open spec fn fault_of(contents: Seq<char>) -> Option<int> {
    let ls = document_lines(contents);
    if first_fault(header_of(ls)) < header_len(ls) {
        Some(first_fault(header_of(ls)))
    } else {
        None
    }
}

/// The value that `header` gives to `key`: that of the last entry with this
/// key, and the empty text when there is none.
pub open spec fn field(header: Seq<Seq<char>>, key: Seq<char>) -> Seq<char>
    decreases header.len(),
{
    if header.len() == 0 {
        Seq::empty()
    } else if is_entry(header.last()) && key_of(header.last()) == key {
        value_of(header.last())
    } else {
        field(header.drop_last(), key)
    }
}

/// `s` with each `\#` turned into `#`.
pub open spec fn unescaped(s: Seq<char>) -> Seq<char> {
    replaced(s, seq!['\\', '#'], seq!['#'])
}

/// The title and the excerpt that the lines of a body leave, given those
/// known before them. A heading gives the title. A line that is not blank
/// and holds no transclusion directive joins the excerpt. A line with a
/// directive is passed over. The first blank line behind a line of the
/// excerpt ends the reading.
pub open spec fn body_scan(body: Seq<Seq<char>>, title: Seq<char>, intro: Seq<char>) -> (
    Seq<char>,
    Seq<char>,
)
    decreases body.len(),
{
    if body.len() == 0 {
        (title, intro)
    } else {
        let line = body[0];
        let rest = body.drop_first();
        if is_heading(line) {
            body_scan(rest, unescaped(line.subrange(2, line.len() as int)), intro)
        } else if line.len() == 0 {
            if intro.len() > 0 {
                (title, intro)
            } else {
                body_scan(rest, title, intro)
            }
        } else if has_transclusion(line) {
            body_scan(rest, title, intro)
        } else {
            body_scan(rest, title, intro + with_newline(line))
        }
    }
}

/// The name of a document: its file name without the last three
/// characters, the room of a `.` and an extension of two.
pub open spec fn name_of(filename: Seq<char>) -> Seq<char> {
    if filename.len() >= 3 {
        filename.subrange(0, filename.len() - 3)
    } else {
        Seq::empty()
    }
}

/// The date of creation that a file name tells: `draft` for a name that
/// begins with `draft-`, the first ten characters of a name that begins
/// with `20`, and else the name itself.
pub open spec fn created_from(filename: Seq<char>) -> Seq<char> {
    if starts_with(filename, "draft-"@) {
        "draft"@
    } else if starts_with(filename, "20"@) {
        if filename.len() >= 10 {
            filename.subrange(0, 10)
        } else {
            filename
        }
    } else {
        filename
    }
}

/// What the lines of a document with a well-formed header say of it.
pub open spec fn extracted(filename: Seq<char>, ls: Seq<Seq<char>>) -> MetadataView {
    let header = header_of(ls);
    let read = body_scan(body_of(ls), unescaped(field(header, "title"@)), Seq::empty());
    let created = field(header, "created"@);
    MetadataView {
        name: name_of(filename),
        title: if read.0.len() > 0 {
            read.0
        } else {
            filename
        },
        created: if created.len() > 0 {
            created
        } else {
            created_from(filename)
        },
        updated: field(header, "updated"@),
        tags: field(header, "tags"@),
        intro: read.1,
    }
}

pub proof fn lemma_header_len(ls: Seq<Seq<char>>)
    ensures
        0 <= header_len(ls) <= ls.len(),
        header_len(ls) < ls.len() ==> ls[header_len(ls)].len() == 0,
        forall|k: int| 0 <= k < header_len(ls) ==> (#[trigger] ls[k]).len() > 0,
    decreases ls.len(),
{
    if ls.len() == 0 || ls[0].len() == 0 {
    } else {
        let t = ls.drop_first();
        lemma_header_len(t);
        assert forall|k: int| 0 <= k < header_len(ls) implies (#[trigger] ls[k]).len() > 0 by {
            if k > 0 {
                assert(ls[k] == t[k - 1]);
            }
        }
    }
}

/// The header ends where `header_len` says.
pub proof fn lemma_header_len_is(ls: Seq<Seq<char>>, n: int)
    requires
        0 <= n <= ls.len(),
        n < ls.len() ==> ls[n].len() == 0,
        forall|k: int| 0 <= k < n ==> (#[trigger] ls[k]).len() > 0,
    ensures
        header_len(ls) == n,
{
    lemma_header_len(ls);
    let m = header_len(ls);
    if m < n {
        assert(ls[m].len() > 0);
    } else if n < m {
        assert(ls[n].len() > 0);
    }
}

pub proof fn lemma_first_fault(header: Seq<Seq<char>>)
    ensures
        0 <= first_fault(header) <= header.len(),
        first_fault(header) < header.len() ==> malformed(header[first_fault(header)]),
        forall|k: int| 0 <= k < first_fault(header) ==> !malformed(#[trigger] header[k]),
    decreases header.len(),
{
    if header.len() == 0 || malformed(header[0]) {
    } else {
        let t = header.drop_first();
        lemma_first_fault(t);
        assert forall|k: int| 0 <= k < first_fault(header) implies !malformed(
            #[trigger] header[k],
        ) by {
            if k > 0 {
                assert(header[k] == t[k - 1]);
            }
        }
    }
}

/// The first malformed line is where `first_fault` says.
pub proof fn lemma_first_fault_is(header: Seq<Seq<char>>, n: int)
    requires
        0 <= n <= header.len(),
        n < header.len() ==> malformed(header[n]),
        forall|k: int| 0 <= k < n ==> !malformed(#[trigger] header[k]),
    ensures
        first_fault(header) == n,
{
    lemma_first_fault(header);
    let m = first_fault(header);
    if m < n {
        assert(!malformed(header[m]));
    } else if n < m {
        assert(!malformed(header[n]));
    }
}

pub fn unescape(s: &str) -> (out: String)
    ensures
        out@ == unescaped(s@),
{
    string_of(&unescape_chars(&chars_of(s)))
}

fn unescape_chars(s: &Vec<char>) -> (out: Vec<char>)
    ensures
        out@ == unescaped(s@),
{
    let from: Vec<char> = vec!['\\', '#'];
    let to: Vec<char> = vec!['#'];
    assert(from@ == seq!['\\', '#']);
    assert(to@ == seq!['#']);
    replace(s, &from, &to)
}

pub fn get_created(filename: &str) -> (created: String)
    ensures
        created@ == created_from(filename@),
{
    let name = chars_of(filename);
    if has_prefix(&name, &chars_of("draft-")) {
        return String::from_str("draft");
    }
    if !has_prefix(&name, &chars_of("20")) || name.len() < 10 {
        return String::from_str(filename);
    }
    string_of(&slice(&name, 0, 10))
}

/// The four values that a header can give.
struct Fields {
    title: Vec<char>,
    created: Vec<char>,
    updated: Vec<char>,
    tags: Vec<char>,
}

/// The fields hold what `header` gives.
spec fn holds(f: Fields, header: Seq<Seq<char>>) -> bool {
    &&& f.title@ == unescaped(field(header, "title"@))
    &&& f.created@ == field(header, "created"@)
    &&& f.updated@ == field(header, "updated"@)
    &&& f.tags@ == field(header, "tags"@)
}

proof fn lemma_keys_differ()
    ensures
        "title"@ != "created"@,
        "title"@ != "updated"@,
        "title"@ != "tags"@,
        "created"@ != "updated"@,
        "created"@ != "tags"@,
        "updated"@ != "tags"@,
{
    reveal_strlit("title");
    reveal_strlit("created");
    reveal_strlit("updated");
    reveal_strlit("tags");
    assert("title"@.len() == 5);
    assert("tags"@.len() == 4);
    assert("created"@[0] == 'c');
    assert("updated"@[0] == 'u');
}

/// Reads one entry of a header into the fields.
fn read_entry(f: &mut Fields, line: &Vec<char>, at: usize, Ghost(header): Ghost<Seq<Seq<char>>>)
    requires
        holds(*old(f), header),
        is_entry(line@),
        at == first_match(line@, separator()),
        at + 2 <= line.len(),
    ensures
        holds(*final(f), header.push(line@)),
{
    proof {
        lemma_keys_differ();
        assert(header.push(line@).drop_last() == header);
    }
    let key = slice(line, 0, at);
    let value = slice(line, at + 2, line.len());
    if same(&key, &chars_of("title")) {
        f.title = unescape_chars(&value);
    } else if same(&key, &chars_of("created")) {
        f.created = value;
    } else if same(&key, &chars_of("updated")) {
        f.updated = value;
    } else if same(&key, &chars_of("tags")) {
        f.tags = value;
    }
}

/// What the text of a document says of it. `filename` is the name of its
/// file, without the directory.
///
/// Fails on the first line of the header that is neither a continuation
/// nor an entry, and on nothing else.
pub fn build(filename: &str, contents: &str) -> (r: Result<Metadata, MalformedHeader>)
    ensures
        match r {
            Ok(m) => fault_of(contents@) is None && m@ == extracted(
                filename@,
                document_lines(contents@),
            ),
            Err(e) => fault_of(contents@) == Some(e.line as int),
        },
{
    let raws = lines(&chars_of(contents));
    let ghost ls = document_lines(contents@);
    let n = raws.len();
    assert(ls.len() == n);
    assert forall|k: int| 0 <= k < n implies #[trigger] ls[k] == trimmed(raws@[k]@) by {
        assert(views(raws@)[k] == raws@[k]@);
    }
    let sep: Vec<char> = vec![':', ' '];
    assert(sep@ == separator());
    let mut f = Fields {
        title: Vec::new(),
        created: Vec::new(),
        updated: Vec::new(),
        tags: Vec::new(),
    };
    assert(ls.subrange(0, 0) == Seq::<Seq<char>>::empty());
    let mut i: usize = 0;
    let mut in_header = true;
    while in_header && i < n
        invariant
            i <= n == raws.len() == ls.len(),
            forall|k: int| 0 <= k < n ==> #[trigger] ls[k] == trimmed(raws@[k]@),
            sep@ == separator(),
            forall|k: int| 0 <= k < i ==> (#[trigger] ls[k]).len() > 0 && !malformed(ls[k]),
            !in_header ==> i < n && ls[i as int].len() == 0,
            holds(f, ls.subrange(0, i as int)),
            ls == document_lines(contents@),
        decreases n - i + if in_header { 1int } else { 0 },
    {
        let line = trim_end(&raws[i]);
        assert(line@ == ls[i as int]);
        assert(ls.subrange(0, i + 1) == ls.subrange(0, i as int).push(line@));
        assert(ls.subrange(0, i + 1).drop_last() == ls.subrange(0, i as int));
        if line.len() == 0 {
            in_header = false;
        } else if is_whitespace(line[0]) {
            i += 1;
        } else {
            match find(&line, &sep) {
                None => {
                    proof {
                        let header = ls.subrange(0, i + 1);
                        assert forall|k: int| 0 <= k < i + 1 implies (#[trigger] ls[k]).len()
                            > 0 by {}
                        lemma_header_len(ls);
                        let h = header_len(ls);
                        if h <= i {
                            assert(ls[h].len() > 0);
                        }
                        assert forall|k: int| 0 <= k < i implies !malformed(
                            #[trigger] header_of(ls)[k],
                        ) by {
                            assert(header_of(ls)[k] == ls[k]);
                        }
                        assert(header_of(ls)[i as int] == ls[i as int]);
                        lemma_first_fault_is(header_of(ls), i as int);
                    }
                    return Err(MalformedHeader { line: i });
                },
                Some(at) => {
                    read_entry(&mut f, &line, at, Ghost(ls.subrange(0, i as int)));
                    i += 1;
                },
            }
        }
    }
    proof {
        lemma_header_len_is(ls, i as int);
        assert(header_of(ls) == ls.subrange(0, i as int));
        assert forall|k: int| 0 <= k < i implies !malformed(#[trigger] header_of(ls)[k]) by {
            assert(header_of(ls)[k] == ls[k]);
        }
        lemma_first_fault_is(header_of(ls), i as int);
    }
    let mut title = f.title;
    let mut intro: Vec<char> = Vec::new();
    let mut k: usize = if i < n {
        i + 1
    } else {
        n
    };
    let ghost body = body_of(ls);
    let ghost known = unescaped(field(header_of(ls), "title"@));
    assert(body == ls.subrange(k as int, n as int));
    let mut done = false;
    while !done && k < n
        invariant
            k <= n == raws.len() == ls.len(),
            forall|j: int| 0 <= j < n ==> #[trigger] ls[j] == trimmed(raws@[j]@),
            !done ==> body_scan(body, known, Seq::empty()) == body_scan(
                ls.subrange(k as int, n as int),
                title@,
                intro@,
            ),
            done ==> body_scan(body, known, Seq::empty()) == (title@, intro@),
        decreases n - k + if done { 0int } else { 1 },
    {
        let line = trim_end(&raws[k]);
        let ghost rest = ls.subrange(k as int, n as int);
        assert(rest[0] == line@);
        assert(rest.drop_first() == ls.subrange(k + 1, n as int));
        let text = string_of(&line);
        let heading = is_match("^# ", text.as_str());
        if heading.unwrap() {
            proof {
                assert(line@.subrange(0, 2) == seq!['#', ' ']);
            }
            title = unescape_chars(&slice(&line, 2, line.len()));
            k += 1;
        } else if line.len() == 0 {
            if intro.len() > 0 {
                done = true;
            } else {
                k += 1;
            }
        } else {
            let directive = is_match("\\{\\{.*\\}\\}", text.as_str());
            if !directive.unwrap() {
                push_line(&line, &mut intro);
            }
            k += 1;
        }
    }
    let name = chars_of(filename);
    let created = if f.created.len() > 0 {
        string_of(&f.created)
    } else {
        get_created(filename)
    };
    let title = if title.len() > 0 {
        string_of(&title)
    } else {
        String::from_str(filename)
    };
    let stem = if name.len() >= 3 {
        slice(&name, 0, name.len() - 3)
    } else {
        Vec::new()
    };
    Ok(
        Metadata {
            name: string_of(&stem),
            title,
            created,
            updated: string_of(&f.updated),
            tags: string_of(&f.tags),
            intro: string_of(&intro),
        },
    )
}

/// A document as it is read: the name of its file and its text.
pub struct Document {
    pub filename: String,
    pub contents: String,
}

/// A document with a malformed header. `document` counts the documents
/// from 0, `line` the lines of the document.
#[derive(Clone, Copy, Debug, PartialEq, Eq)]
pub struct MalformedDocument {
    pub document: usize,
    pub line: usize,
}

/// What the given documents say of themselves, in the order given.
/// Documents of one name are all kept.
///
/// Fails on the first document with a malformed header, and on nothing
/// else.
pub fn build_all(documents: &Vec<Document>) -> (r: Result<Vec<Metadata>, MalformedDocument>)
    ensures
        match r {
            Ok(posts) => {
                &&& posts.len() == documents.len()
                &&& forall|i: int|
                    0 <= i < documents.len() ==> fault_of(
                        (#[trigger] documents[i]).contents@,
                    ) is None
                &&& forall|i: int|
                    0 <= i < documents.len() ==> (#[trigger] posts[i])@ == extracted(
                        documents[i].filename@,
                        document_lines(documents[i].contents@),
                    )
            },
            Err(e) => {
                &&& e.document < documents.len()
                &&& forall|i: int|
                    0 <= i < e.document ==> fault_of((#[trigger] documents[i]).contents@) is None
                &&& fault_of(documents[e.document as int].contents@) == Some(e.line as int)
            },
        },
{
    let mut posts: Vec<Metadata> = Vec::new();
    let mut i: usize = 0;
    while i < documents.len()
        invariant
            i <= documents.len(),
            posts.len() == i,
            forall|j: int| 0 <= j < i ==> fault_of((#[trigger] documents[j]).contents@) is None,
            forall|j: int|
                0 <= j < i ==> (#[trigger] posts[j])@ == extracted(
                    documents[j].filename@,
                    document_lines(documents[j].contents@),
                ),
        decreases documents.len() - i,
    {
        let d = &documents[i];
        match build(d.filename.as_str(), d.contents.as_str()) {
            Ok(post) => {
                posts.push(post);
            },
            Err(e) => {
                return Err(MalformedDocument { document: i, line: e.line });
            },
        }
        i += 1;
    }
    Ok(posts)
}

/// The line that ends the head of a page.
pub open spec fn head_close() -> Seq<char> {
    "</head>"@
}

/// A text with its placeholders filled in: `{tags}`, `{created}` and
/// `{updated}`, in this order, give way to the tags and to the two dates
/// behind their labels, a date that is empty leaving nothing.
pub open spec fn filled(text: Seq<char>, post: MetadataView) -> Seq<char> {
    let tagged = replaced(text, "{tags}"@, post.tags);
    let dated = replaced(tagged, "{created}"@, labelled("Published: "@, post.created));
    replaced(dated, "{updated}"@, labelled("Updated: "@, post.updated))
}

/// A rendered page with the pass made: the fragment is taken out wherever
/// it stands and put in before each `</head>`; then the placeholders are
/// filled in.
pub open spec fn processed(html: Seq<char>, post: MetadataView, fragment: Seq<char>) -> Seq<
    char,
> {
    let bare = replaced(html, fragment, Seq::empty());
    let injected = replaced(bare, head_close(), fragment + head_close());
    filled(injected, post)
}

/// A page on which the pass has nothing left to do. It holds none of the
/// three placeholders. The fragment stands in it in one place only, `at`,
/// and its only `</head>` follows directly; or, with `None` for `at`,
/// neither stands in it anywhere. Of an empty fragment nothing is asked.
pub open spec fn is_finished(page: Seq<char>, fragment: Seq<char>, at: Option<int>) -> bool {
    &&& !occurs_in("{tags}"@, page)
    &&& !occurs_in("{created}"@, page)
    &&& !occurs_in("{updated}"@, page)
    &&& fragment.len() > 0 ==> match at {
        Some(i) => {
            &&& forall|j: int| matches_at(page, fragment, j) <==> j == i
            &&& forall|j: int| matches_at(page, head_close(), j) <==> j == i + fragment.len()
        },
        None => !occurs_in(fragment, page) && !occurs_in(head_close(), page),
    }
}

/// Taking the fragment out of a page in which it stands before the only
/// `</head>`, and nowhere else, and putting it in again gives the page.
proof fn lemma_fragment_comes_back(page: Seq<char>, fragment: Seq<char>, at: int)
    requires
        fragment.len() > 0,
        forall|j: int| matches_at(page, fragment, j) <==> j == at,
        forall|j: int| matches_at(page, head_close(), j) <==> j == at + fragment.len(),
    ensures
        replaced(
            replaced(page, fragment, Seq::empty()),
            head_close(),
            fragment + head_close(),
        ) == page,
{
    let close = head_close();
    reveal_strlit("</head>");
    let n = page.len() as int;
    let f = fragment.len() as int;
    assert(matches_at(page, fragment, at));
    assert(matches_at(page, close, at + f));
    let a = page.subrange(0, at);
    let tail = page.subrange(at + f, n);
    let b = page.subrange(at + f + 7, n);
    assert(page == a + fragment + close + b);
    assert(tail == close + b);
    // The fragment goes.
    assert(is_first_match(page, fragment, at));
    lemma_replaced_first(page, fragment, Seq::empty(), at);
    assert(!occurs_in(fragment, tail)) by {
        assert forall|i: int| !matches_at(tail, fragment, i) by {
            if matches_at(tail, fragment, i) {
                lemma_matches_in_part(page, fragment, at + f, n, i);
            }
        }
    }
    lemma_replaced_none(tail, fragment, Seq::empty());
    let bare = replaced(page, fragment, Seq::empty());
    assert(bare == a + close + b);
    // The fragment comes back.
    assert(is_first_match(bare, close, at)) by {
        assert(bare.subrange(at, at + 7) == close);
        assert forall|i: int| 0 <= i < at implies !matches_at(bare, close, i) by {
            if matches_at(bare, close, i) {
                if i + 7 <= at {
                    assert(page.subrange(i, i + 7) == bare.subrange(i, i + 7));
                    assert(matches_at(page, close, i));
                } else {
                    assert(bare.subrange(i, i + 7)[at - i] == bare[at]);
                    assert(bare[at] == close[0]);
                }
            }
        }
    }
    lemma_replaced_first(bare, close, fragment + close, at);
    assert(bare.subrange(at + 7, bare.len() as int) == b);
    assert(bare.subrange(0, at) == a);
    assert(!occurs_in(close, b)) by {
        assert forall|i: int| !matches_at(b, close, i) by {
            if matches_at(b, close, i) {
                lemma_matches_in_part(page, close, at + f + 7, n, i);
            }
        }
    }
    lemma_replaced_none(b, close, fragment + close);
}

/// The pass leaves a finished page as it is, whatever the document.
pub proof fn lemma_finished_page_stays(
    page: Seq<char>,
    post: MetadataView,
    fragment: Seq<char>,
    at: Option<int>,
)
    requires
        is_finished(page, fragment, at),
    ensures
        processed(page, post, fragment) == page,
{
    let close = head_close();
    reveal_strlit("</head>");
    reveal_strlit("{tags}");
    reveal_strlit("{created}");
    reveal_strlit("{updated}");
    let bare = replaced(page, fragment, Seq::empty());
    let injected = replaced(bare, close, fragment + close);
    assert(injected == page) by {
        if fragment.len() == 0 {
            lemma_interleaved_nothing(page);
            assert(fragment + close == close);
            lemma_replaced_by_itself(page, close);
        } else {
            match at {
                Some(i) => {
                    lemma_fragment_comes_back(page, fragment, i);
                },
                None => {
                    lemma_replaced_none(page, fragment, Seq::empty());
                    lemma_replaced_none(page, close, fragment + close);
                },
            }
        }
    }
    lemma_replaced_none(page, "{tags}"@, post.tags);
    lemma_replaced_none(page, "{created}"@, labelled("Published: "@, post.created));
    lemma_replaced_none(page, "{updated}"@, labelled("Updated: "@, post.updated));
}

/// The first pass over a page as it comes from the renderer: the fragment
/// is put in before the `</head>` and the second pass changes nothing.
/// This is said of a page with one `</head>`, at `at`, in which the
/// fragment stands nowhere and which, with the fragment put in there, is
/// finished: it holds no placeholder, and neither the fragment nor
/// `</head>` stands in it a second time, as they would where the end of
/// the page before `</head>` and the start of the fragment make up the
/// fragment once more.
pub proof fn lemma_first_pass_finishes(
    html: Seq<char>,
    post: MetadataView,
    fragment: Seq<char>,
    at: int,
)
    requires
        fragment.len() > 0,
        !occurs_in(fragment, html),
        forall|j: int| matches_at(html, head_close(), j) <==> j == at,
        is_finished(
            html.subrange(0, at) + fragment + html.subrange(at, html.len() as int),
            fragment,
            Some(at),
        ),
    ensures
        processed(html, post, fragment) == html.subrange(0, at) + fragment + html.subrange(
            at,
            html.len() as int,
        ),
        processed(processed(html, post, fragment), post, fragment) == processed(
            html,
            post,
            fragment,
        ),
        forall|j: int| matches_at(processed(html, post, fragment), fragment, j) <==> j == at,
{
    let close = head_close();
    reveal_strlit("</head>");
    reveal_strlit("{tags}");
    reveal_strlit("{created}");
    reveal_strlit("{updated}");
    let n = html.len() as int;
    let page = html.subrange(0, at) + fragment + html.subrange(at, n);
    assert(matches_at(html, close, at));
    let a = html.subrange(0, at);
    let b = html.subrange(at + 7, n);
    assert(html.subrange(at, n) == close + b);
    lemma_replaced_none(html, fragment, Seq::empty());
    assert(is_first_match(html, close, at));
    lemma_replaced_first(html, close, fragment + close, at);
    assert(!occurs_in(close, b)) by {
        assert forall|i: int| !matches_at(b, close, i) by {
            if matches_at(b, close, i) {
                lemma_matches_in_part(html, close, at + 7, n, i);
            }
        }
    }
    lemma_replaced_none(b, close, fragment + close);
    let injected = replaced(html, close, fragment + close);
    assert(injected == a + (fragment + close) + b);
    assert(injected == page);
    lemma_replaced_none(page, "{tags}"@, post.tags);
    lemma_replaced_none(page, "{created}"@, labelled("Published: "@, post.created));
    lemma_replaced_none(page, "{updated}"@, labelled("Updated: "@, post.updated));
    assert(processed(html, post, fragment) == page);
    lemma_finished_page_stays(page, post, fragment, Some(at));
}

/// Neither `{` nor `}` stands in `s`.
pub open spec fn has_no_brace(s: Seq<char>) -> bool {
    forall|k: int| 0 <= k < s.len() ==> s[k] != '{' && s[k] != '}'
}

/// A placeholder: it begins with `{`, ends with `}` and holds no `<`.
spec fn is_token(tok: Seq<char>) -> bool {
    &&& tok.len() >= 2
    &&& tok[0] == '{'
    &&& tok.last() == '}'
    &&& forall|k: int| 0 <= k < tok.len() ==> tok[k] != '<'
}

/// A placeholder does not reach into a text without braces that holds a
/// `<`.
proof fn lemma_token_outside(u: Seq<char>, m: Seq<char>, w: Seq<char>, tok: Seq<char>, q: int)
    requires
        is_token(tok),
        has_no_brace(m),
        0 <= q < m.len(),
        m[q] == '<',
    ensures
        forall|i: int| #[trigger]
            matches_at(u + m + w, tok, i) ==> i + tok.len() <= u.len() || i >= u.len() + m.len(),
{
    let z = u + m + w;
    let n = tok.len() as int;
    assert forall|i: int| #[trigger] matches_at(z, tok, i) implies i + n <= u.len() || i
        >= u.len() + m.len() by {
        if i + n > u.len() && i < u.len() + m.len() {
            let part = z.subrange(i, i + n);
            assert(part[0] == z[i]);
            assert(part[n - 1] == z[i + n - 1]);
            if i >= u.len() {
                assert(z[i] == m[i - u.len()]);
            } else if i + n - 1 < u.len() + m.len() {
                assert(z[i + n - 1] == m[i + n - 1 - u.len()]);
            } else {
                assert(part[u.len() + q - i] == z[u.len() + q]);
                assert(z[u.len() + q] == m[q]);
            }
        }
    }
}

/// A text without braces that holds a `<` stays as it is when the
/// placeholders are filled in around it.
proof fn lemma_filled_around(
    u: Seq<char>,
    m: Seq<char>,
    w: Seq<char>,
    post: MetadataView,
    q: int,
)
    requires
        has_no_brace(m),
        0 <= q < m.len(),
        m[q] == '<',
    ensures
        filled(u + m + w, post) == filled(u, post) + m + filled(w, post),
{
    reveal_strlit("{tags}");
    reveal_strlit("{created}");
    reveal_strlit("{updated}");
    let tags = "{tags}"@;
    let created = "{created}"@;
    let updated = "{updated}"@;
    assert(is_token(tags));
    assert(is_token(created));
    assert(is_token(updated));
    let c = labelled("Published: "@, post.created);
    let d = labelled("Updated: "@, post.updated);
    lemma_token_outside(u, m, w, tags, q);
    lemma_replaced_around(u, m, w, tags, post.tags);
    let u1 = replaced(u, tags, post.tags);
    let w1 = replaced(w, tags, post.tags);
    lemma_token_outside(u1, m, w1, created, q);
    lemma_replaced_around(u1, m, w1, created, c);
    let u2 = replaced(u1, created, c);
    let w2 = replaced(w1, created, c);
    lemma_token_outside(u2, m, w2, updated, q);
    lemma_replaced_around(u2, m, w2, updated, d);
}

/// The first pass over a page as it comes from the renderer, placeholders
/// and all: the fragment is put in before the `</head>`, the placeholders
/// are filled in before it and behind it, and the second pass changes
/// nothing. This is said of a fragment without `{` and `}`, and of a page
/// with one `</head>`, at `at`, in which the fragment stands nowhere and
/// whose two parts, once filled in, make a finished page around the
/// fragment and the `</head>`.
pub proof fn lemma_first_pass_fills_and_finishes(
    html: Seq<char>,
    post: MetadataView,
    fragment: Seq<char>,
    at: int,
)
    requires
        fragment.len() > 0,
        has_no_brace(fragment),
        !occurs_in(fragment, html),
        forall|j: int| matches_at(html, head_close(), j) <==> j == at,
        is_finished(
            filled(html.subrange(0, at), post) + fragment + head_close() + filled(
                html.subrange(at + head_close().len(), html.len() as int),
                post,
            ),
            fragment,
            Some(filled(html.subrange(0, at), post).len() as int),
        ),
    ensures
        processed(html, post, fragment) == filled(html.subrange(0, at), post) + fragment
            + head_close() + filled(
            html.subrange(at + head_close().len(), html.len() as int),
            post,
        ),
        processed(processed(html, post, fragment), post, fragment) == processed(
            html,
            post,
            fragment,
        ),
{
    let close = head_close();
    reveal_strlit("</head>");
    let n = html.len() as int;
    assert(matches_at(html, close, at));
    let a = html.subrange(0, at);
    let b = html.subrange(at + 7, n);
    lemma_replaced_none(html, fragment, Seq::empty());
    assert(is_first_match(html, close, at));
    lemma_replaced_first(html, close, fragment + close, at);
    assert(!occurs_in(close, b)) by {
        assert forall|i: int| !matches_at(b, close, i) by {
            if matches_at(b, close, i) {
                lemma_matches_in_part(html, close, at + 7, n, i);
            }
        }
    }
    lemma_replaced_none(b, close, fragment + close);
    let middle = fragment + close;
    let injected = replaced(html, close, middle);
    assert(injected == a + middle + b);
    assert(has_no_brace(middle)) by {
        assert forall|k: int| 0 <= k < middle.len() implies middle[k] != '{' && middle[k]
            != '}' by {
            if k < fragment.len() {
                assert(middle[k] == fragment[k]);
            } else {
                assert(middle[k] == close[k - fragment.len()]);
            }
        }
    }
    assert(middle[fragment.len() as int] == close[0]);
    lemma_filled_around(a, middle, b, post, fragment.len() as int);
    let page = filled(a, post) + fragment + close + filled(b, post);
    assert(filled(a, post) + middle + filled(b, post) == page);
    assert(processed(html, post, fragment) == page);
    lemma_finished_page_stays(page, post, fragment, Some(filled(a, post).len() as int));
}

/// A second pass over a page changes nothing, and writes no second
/// fragment, where the first pass has finished the page.
pub proof fn lemma_post_process_twice(
    html: Seq<char>,
    post: MetadataView,
    fragment: Seq<char>,
    at: Option<int>,
)
    requires
        is_finished(processed(html, post, fragment), fragment, at),
    ensures
        processed(processed(html, post, fragment), post, fragment) == processed(
            html,
            post,
            fragment,
        ),
{
    lemma_finished_page_stays(processed(html, post, fragment), post, fragment, at);
}

/// The pass over the rendered page of `post`: the new text of the page,
/// or `None` when the pass leaves the page as it is and nothing needs to
/// be written.
pub fn post_process(post: &Metadata, html: &str, highlightjs: &str) -> (page: Option<String>)
    ensures
        match page {
            Some(text) => text@ == processed(html@, post@, highlightjs@) && text@ != html@,
            None => processed(html@, post@, highlightjs@) == html@,
        },
{
    let given = chars_of(html);
    let fragment = chars_of(highlightjs);
    let close = chars_of("</head>");
    let created = crate::string::format_or_empty("Published: ", &post.created);
    let updated = crate::string::format_or_empty("Updated: ", &post.updated);
    let mut both = chars_of(highlightjs);
    append(&mut both, &close);
    let bare = replace(&given, &fragment, &Vec::new());
    let injected = replace(&bare, &close, &both);
    let tagged = replace(&injected, &chars_of("{tags}"), &chars_of(post.tags.as_str()));
    let dated = replace(&tagged, &chars_of("{created}"), &chars_of(created.as_str()));
    let done = replace(&dated, &chars_of("{updated}"), &chars_of(updated.as_str()));
    if same(&done, &given) {
        None
    } else {
        Some(string_of(&done))
    }
}

/// The path of the rendered page of a document: its name and `.html`
/// below the directory of the rendered documents.
pub open spec fn rendered_path(post: MetadataView, public_posts: Seq<char>) -> Seq<char> {
    joined(public_posts, post.name + ".html"@)
}

pub fn rendered_page(post: &Metadata, paths: &PathConfig) -> (file: String)
    ensures
        file@ == rendered_path(post@, paths.public_posts@),
{
    let mut name = chars_of(post.name.as_str());
    append(&mut name, &chars_of(".html"));
    string_of(&crate::path::join(&chars_of(paths.public_posts.as_str()), &name))
}

} // verus!

//! From sources to markup and from markup to pages: what is to be written
//! where, and whether a page needs to be rendered again.

use crate::path::{
    extension, extension_of, file_stem, file_stem_of, html_path, join, joined, markdown_path,
    set_extension, stale,
};
use crate::post::{Metadata, PathConfig};
use crate::rs2md::converted;
use crate::text::{append, chars_of, same, string_of};
use vstd::prelude::*;

verus! {

/// A page to render: the markup file to read and the page to write.
#[derive(Debug, PartialEq, Eq)]
pub struct RenderJob {
    pub input: String,
    pub output: String,
}

/// The rendering of the document `name`: from its markup file among the
/// artifacts to its page among the rendered documents.
pub open spec fn is_post_job(job: RenderJob, name: Seq<char>, paths: PathConfig) -> bool {
    &&& job.input@ == markdown_path(paths.artifacts@, name)
    &&& job.output@ == html_path(paths.public_posts@, name)
}

/// The rendering of the page `name`: from `name.md` among the pages to
/// `name.html` in the site.
pub open spec fn is_page_job(job: RenderJob, name: Seq<char>, paths: PathConfig) -> bool {
    &&& job.input@ == joined(paths.pages@, name + ".md"@)
    &&& job.output@ == joined(paths.public@, name + ".html"@)
}

/// The renderings of the given documents, one for each, in order.
pub fn to_html_posts(posts: &Vec<Metadata>, paths: &PathConfig) -> (jobs: Vec<RenderJob>)
    ensures
        jobs.len() == posts.len(),
        forall|i: int|
            0 <= i < posts.len() ==> is_post_job(#[trigger] jobs[i], posts[i].name@, *paths),
{
    let mut jobs: Vec<RenderJob> = Vec::new();
    let mut i: usize = 0;
    while i < posts.len()
        invariant
            i <= posts.len(),
            jobs.len() == i,
            forall|j: int| 0 <= j < i ==> is_post_job(#[trigger] jobs[j], posts[j].name@, *paths),
        decreases posts.len() - i,
    {
        let name = posts[i].name.as_str();
        jobs.push(
            RenderJob {
                input: crate::path::markdown(paths.artifacts.as_str(), name),
                output: crate::path::html(paths.public_posts.as_str(), name),
            },
        );
        i += 1;
    }
    jobs
}

/// The renderings of the given pages, one for each, in order.
pub fn to_html_pages(pages: Vec<&str>, paths: &PathConfig) -> (jobs: Vec<RenderJob>)
    ensures
        jobs.len() == pages.len(),
        forall|i: int| 0 <= i < pages.len() ==> is_page_job(#[trigger] jobs[i], pages[i]@, *paths),
{
    let mut jobs: Vec<RenderJob> = Vec::new();
    let mut i: usize = 0;
    while i < pages.len()
        invariant
            i <= pages.len(),
            jobs.len() == i,
            forall|j: int| 0 <= j < i ==> is_page_job(#[trigger] jobs[j], pages[j]@, *paths),
        decreases pages.len() - i,
    {
        let mut input = chars_of(pages[i]);
        append(&mut input, &chars_of(".md"));
        let mut output = chars_of(pages[i]);
        append(&mut output, &chars_of(".html"));
        jobs.push(
            RenderJob {
                input: string_of(&join(&chars_of(paths.pages.as_str()), &input)),
                output: string_of(&join(&chars_of(paths.public.as_str()), &output)),
            },
        );
        i += 1;
    }
    jobs
}

/// Whether a page is to be rendered, given when its markup and the page
/// were last modified, `None` standing for a file that does not exist:
/// it is when the markup was modified strictly after the page.
pub fn to_html_page(input_modified: Option<u128>, output_modified: Option<u128>) -> (render: bool)
    ensures
        render == stale(input_modified, output_modified),
{
    crate::path::is_stale(input_modified, output_modified)
}

/// The markup of a source file as it is written among the artifacts.
#[derive(Debug, PartialEq, Eq)]
pub struct Artifact {
    pub path: String,
    pub contents: String,
}

/// The markup of a source: converted when the extension of the source is
/// `rs`, and else the source itself.
pub open spec fn markup_of(file: Seq<char>, contents: Seq<char>) -> Seq<char> {
    if extension(file) == seq!['r', 's'] {
        converted(contents, true)
    } else {
        contents
    }
}

/// The markup file of a source file: where it goes, which is the markup
/// path of the name of the source below `artifacts`, and what it holds.
pub fn from_rs_or_md_to_md(file: &str, contents: &str, config: &PathConfig) -> (artifact: Artifact)
    ensures
        artifact.path@ == markdown_path(config.artifacts@, file_stem(file@)),
        artifact.contents@ == markup_of(file@, contents@),
{
    let source = chars_of(file);
    let rs: Vec<char> = vec!['r', 's'];
    let md: Vec<char> = vec!['m', 'd'];
    assert(rs@ == seq!['r', 's']);
    assert(md@ == seq!['m', 'd']);
    let markup = if same(&extension_of(&source), &rs) {
        crate::rs2md::from_rs(contents)
    } else {
        String::from_str(contents)
    };
    let target = join(&chars_of(config.artifacts.as_str()), &file_stem_of(&source));
    Artifact { path: string_of(&set_extension(&target, &md)), contents: markup }
}

} // verus!

//! A site of documents: from sources, some of them literate code, to
//! markup, to rendered pages and a listing, with nothing rendered twice.
//!
//! Nothing here reads or writes a file. Each function takes what was read
//! and says what is to be written, rendered or removed.

use vstd::prelude::*;

pub mod index;
pub mod io;
pub mod markdown;
pub mod path;
pub mod pattern;
pub mod post;
pub mod rs2md;
pub mod rust_to_markdown;
pub mod string;
pub mod text;

use crate::post::PathConfig;

verus! {

/// The directories of a site in their usual places.
pub fn setup_config() -> (paths: PathConfig)
    ensures
        paths.posts@ == "posts"@,
        paths.pages@ == "pages"@,
        paths.artifacts@ == "artifacts"@,
        paths.public@ == "public"@,
        paths.public_posts@ == "public/posts"@,
{
    PathConfig {
        posts: String::from_str("posts"),
        pages: String::from_str("pages"),
        artifacts: String::from_str("artifacts"),
        public: String::from_str("public"),
        public_posts: String::from_str("public/posts"),
    }
}

} // verus!

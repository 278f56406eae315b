use website::post::{
    build, build_all, get_created, post_process, rendered_page, unescape, Document,
    MalformedDocument, MalformedHeader, Metadata, PathConfig,
};
use website::io::paths_in_dir;

const MD_FILENAME: &str = "2020-01-01-test.md";
const HTML_FILENAME: &str = "2020-01-01-test.html";

const HIGHLIGHTJS: &str = "\t<link rel=\"stylesheet\" href=\"/css/highlight.css\"/>\n\t<script src=\"/js/highlight.min.js\"></script>\n\t<script>hljs.highlightAll();</script>\n";

fn make_post() -> Metadata {
  Metadata {
    name: "2020-01-01-test".to_string(),
    title: "A Title".to_string(),
    created: "2020-01-01".to_string(),
    updated: "".to_string(),
    tags: "game".to_string(),
    intro: "Some intro text\n".to_string(),
  }
}

fn page_of(post: &Metadata) -> String {
  let title = &post.title;
  let intro = &post.intro;
  let updated =
    if post.updated.is_empty() {
      "".to_string()
    } else {
      format!("updated: {}\n", post.updated)
    };

  format!(r#"mmd header: {{../templates/header.html}}
mmd footer: {{../templates/footer.html}}
css: /css/main.cs
{updated}tags: game

# {title}

{intro}
"#)
}

fn make_html() -> String {
  r#"<!DOCTYPE html>
<html xmlns="http://www.w3.org/1999/xhtml" lang="en">
<head>
	<meta charset="utf-8"/>
	<link type="text/css" rel="stylesheet" href="/css/main.css"/>
	<title>About</title>
	<meta name="created" content="2018-04-02"/>
	<meta name="updated" content="2023-10-24"/>
	<meta name="tags" content="about game"/>
</head>
<body>
  <article class="post">
    <header>
      <div class="tags">{tags}</div>
      <div class="dates">
        <span class="created">{created}</span>
        <span class="updated">{updated}</span>
      </div>
    </header>
    <h1>About</h1>
    <p>Some intro text</p>
  </article>
</body>
</html>
"#.to_string()
}

#[test]
fn build_all_posts_metadata() {
  let entries = vec!["artifacts/non-md-file".to_string(), format!("artifacts/{MD_FILENAME}")];
  let expected = vec![make_post()];
  let documents: Vec<Document> = paths_in_dir(&entries, &["md"])
    .iter()
    .map(|path| Document {
      filename: path.rsplit('/').next().unwrap().to_string(),
      contents: page_of(&make_post()),
    })
    .collect();

  let actual = build_all(&documents).unwrap();

  assert_eq!(expected, actual);
}

#[test]
fn post_process_adds_highlightjs_tags_created_and_updated_dates() {
  let post = make_post();
  let original = make_html();

  let html = post_process(&post, &original, HIGHLIGHTJS).unwrap();

  assert!(html.contains(HIGHLIGHTJS));
  assert!(html.contains("<div class=\"tags\">game</div>"));
  assert!(html.contains("<span class=\"created\">Published: 2020-01-01</span>"));
}

#[test]
fn post_process_again_does_not_add_highlightjs_tags() {
  let post = make_post();
  let original = make_html();

  let html = post_process(&post, &original, HIGHLIGHTJS).unwrap();
  let again = post_process(&post, &html, HIGHLIGHTJS);

  assert_eq!(again, None);
  assert_eq!(html.match_indices(HIGHLIGHTJS).count(), 1);
}

#[test]
fn post_process_writes_the_whole_page() {
  let post = Metadata { updated: "2021-02-03".to_string(), ..make_post() };
  let original = "<head>\n</head>\n<p>{tags}|{created}|{updated}</p>\n";
  let expected = format!(
    "<head>\n{HIGHLIGHTJS}</head>\n<p>game|Published: 2020-01-01|Updated: 2021-02-03</p>\n"
  );
  assert_eq!(post_process(&post, original, HIGHLIGHTJS), Some(expected));
}

#[test]
fn post_process_leaves_nothing_for_an_empty_date() {
  let post = Metadata { created: "".to_string(), ..make_post() };
  let original = "<span>{created}</span><span>{updated}</span>";
  assert_eq!(post_process(&post, original, HIGHLIGHTJS), Some("<span></span><span></span>".to_string()));
}

#[test]
fn post_process_moves_the_fragment_in_front_of_the_head_close() {
  let post = make_post();
  let original = format!("<head>{HIGHLIGHTJS}<title>t</title></head>");
  let expected = format!("<head><title>t</title>{HIGHLIGHTJS}</head>");
  assert_eq!(post_process(&post, &original, HIGHLIGHTJS), Some(expected));
}

#[test]
fn post_process_fills_every_placeholder_of_a_kind() {
  let post = make_post();
  assert_eq!(post_process(&post, "{tags} {tags}", HIGHLIGHTJS), Some("game game".to_string()));
}

#[test]
fn post_process_of_a_finished_page_is_none() {
  let post = make_post();
  assert_eq!(post_process(&post, "<p>nothing to do</p>", HIGHLIGHTJS), None);
  assert_eq!(post_process(&post, "", HIGHLIGHTJS), None);
  assert_eq!(post_process(&post, "<head></head>", ""), None);
}

#[test]
fn rendered_page_is_the_name_with_html() {
  let paths = website::setup_config();
  assert_eq!(rendered_page(&make_post(), &paths), format!("public/posts/{HTML_FILENAME}"));
  let dotted = Metadata { name: "2020-01-01-v1.2".to_string(), ..make_post() };
  assert_eq!(rendered_page(&dotted, &paths), "public/posts/2020-01-01-v1.2.html");
}

#[test]
fn setup_config_names_the_usual_directories() {
  let PathConfig { posts, pages, artifacts, public, public_posts } = website::setup_config();
  assert_eq!(posts, "posts");
  assert_eq!(pages, "pages");
  assert_eq!(artifacts, "artifacts");
  assert_eq!(public, "public");
  assert_eq!(public_posts, "public/posts");
}

#[test]
fn header_title_is_unescaped() {
  let post = build("2020-01-01-test.md", "title: Foo\\#Bar\n\nText\n").unwrap();
  assert_eq!(post.title, "Foo#Bar");
}

#[test]
fn heading_gives_the_title() {
  let post = build("2020-01-01-test.md", "tags: a\n\n# Hello\n").unwrap();
  assert_eq!(post.title, "Hello");
}

#[test]
fn heading_is_unescaped_and_overrides_the_header() {
  let post = build("2020-01-01-test.md", "title: Old\n\n# C\\# and F\\#\n\nText\n").unwrap();
  assert_eq!(post.title, "C# and F#");
}

#[test]
fn created_comes_from_the_file_name() {
  assert_eq!(build("2020-01-01-test.md", "tags: a\n").unwrap().created, "2020-01-01");
  assert_eq!(build("draft-test.md", "tags: a\n").unwrap().created, "draft");
  assert_eq!(build("about.md", "tags: a\n").unwrap().created, "about.md");
  assert_eq!(build("2020-01-01-test.md", "created: 2019-12-31\n").unwrap().created, "2019-12-31");
}

#[test]
fn get_created_reads_the_file_name() {
  assert_eq!(get_created("draft-test.md"), "draft");
  assert_eq!(get_created("2020-01-01-test.md"), "2020-01-01");
  assert_eq!(get_created("2020-01-01"), "2020-01-01");
  assert_eq!(get_created("2020.md"), "2020.md");
  assert_eq!(get_created("about.md"), "about.md");
  assert_eq!(get_created("draft"), "draft");
  assert_eq!(get_created(""), "");
}

#[test]
fn unescape_turns_every_escaped_hash() {
  assert_eq!(unescape("Foo\\#Bar"), "Foo#Bar");
  assert_eq!(unescape("\\#\\#"), "##");
  assert_eq!(unescape("\\\\#"), "\\#");
  assert_eq!(unescape("# \\ #"), "# \\ #");
  assert_eq!(unescape(""), "");
}

#[test]
fn name_is_the_file_name_without_three_characters() {
  assert_eq!(build("2020-01-01-test.md", "").unwrap().name, "2020-01-01-test");
  assert_eq!(build("guide.rs", "").unwrap().name, "guide");
  assert_eq!(build("page.html", "").unwrap().name, "page.h");
  assert_eq!(build(".md", "").unwrap().name, "");
  assert_eq!(build("md", "").unwrap().name, "");
}

#[test]
fn title_falls_back_to_the_file_name() {
  let post = build("about.md", "tags: a\n\nJust text\n").unwrap();
  assert_eq!(post.title, "about.md");
  assert_eq!(post.intro, "Just text\n");
}

#[test]
fn header_fields_are_read() {
  let contents = "title: T\ncreated: 2001-02-03\nupdated: 2004-05-06\ntags: a b\nother: x\n\nBody\n";
  let post = build("x.md", contents).unwrap();
  assert_eq!(
    post,
    Metadata {
      name: "x".to_string(),
      title: "T".to_string(),
      created: "2001-02-03".to_string(),
      updated: "2004-05-06".to_string(),
      tags: "a b".to_string(),
      intro: "Body\n".to_string(),
    }
  );
}

#[test]
fn header_value_starts_behind_the_first_separator() {
  let post = build("x.md", "title: a: b\ntags: one:two: three\n").unwrap();
  assert_eq!(post.title, "a: b");
  assert_eq!(post.tags, "one:two: three");
}

#[test]
fn the_last_entry_of_a_key_counts() {
  let post = build("x.md", "tags: one\ntags: two\n").unwrap();
  assert_eq!(post.tags, "two");
}

#[test]
fn continuation_lines_are_passed_over() {
  let post = build("x.md", "tags: one\n  two: three\n\tno separator here\n\nBody\n").unwrap();
  assert_eq!(post.tags, "one");
  assert_eq!(post.intro, "Body\n");
}

#[test]
fn a_header_line_without_separator_is_malformed() {
  assert_eq!(build("x.md", "# Hello\n"), Err(MalformedHeader { line: 0 }));
  assert_eq!(build("x.md", "tags: a\nno separator\n\nBody\n"), Err(MalformedHeader { line: 1 }));
  assert_eq!(build("x.md", "tags:a\n"), Err(MalformedHeader { line: 0 }));
  assert_eq!(build("x.md", "tags: \n"), Err(MalformedHeader { line: 0 }));
  assert_eq!(build("x.md", "tags: a\n  x\n:\n"), Err(MalformedHeader { line: 2 }));
}

#[test]
fn a_line_behind_the_header_is_never_malformed() {
  let post = build("x.md", "tags: a\n\nno separator\n").unwrap();
  assert_eq!(post.intro, "no separator\n");
  assert!(build("x.md", "\nno separator\n").is_ok());
  assert!(build("x.md", "").is_ok());
}

#[test]
fn build_all_stops_at_the_first_malformed_document() {
  let documents = vec![
    Document { filename: "a.md".to_string(), contents: "tags: a\n".to_string() },
    Document { filename: "b.md".to_string(), contents: "tags: b\n\nbroken?\n".to_string() },
    Document { filename: "c.md".to_string(), contents: "tags: c\nbroken\n".to_string() },
    Document { filename: "d.md".to_string(), contents: "broken\n".to_string() },
  ];
  assert_eq!(build_all(&documents), Err(MalformedDocument { document: 2, line: 1 }));
  assert_eq!(build_all(&Vec::new()), Ok(Vec::new()));
}

#[test]
fn build_all_keeps_the_order() {
  let documents = vec![
    Document { filename: "2020-01-02-b.md".to_string(), contents: "tags: b\n".to_string() },
    Document { filename: "2020-01-01-a.md".to_string(), contents: "tags: a\n".to_string() },
  ];
  let posts = build_all(&documents).unwrap();
  assert_eq!(posts.len(), 2);
  assert_eq!(posts[0].name, "2020-01-02-b");
  assert_eq!(posts[1].name, "2020-01-01-a");
}

#[test]
fn excerpt_is_the_first_paragraph() {
  let contents = "tags: a\n\n\n# Title\n\nFirst line  \nSecond line\n\nNext paragraph\n# Late\n";
  let post = build("x.md", contents).unwrap();
  assert_eq!(post.intro, "First line\nSecond line\n");
  assert_eq!(post.title, "Title");
}

#[test]
fn a_directive_neither_joins_nor_ends_the_excerpt() {
  let contents = "tags: a\n\n{{TOC}}\nFirst\nsee {{../include.md}} here\nSecond\n\nThird\n";
  let post = build("x.md", contents).unwrap();
  assert_eq!(post.intro, "First\nSecond\n");
}

#[test]
fn a_directive_needs_both_pairs_of_braces_in_order() {
  let contents = "tags: a\n\n{{ open\n}} {{\n{ {x} }\n{{}}\n{{{x}}}\n}}{{\n";
  let post = build("x.md", contents).unwrap();
  assert_eq!(post.intro, "{{ open\n}} {{\n{ {x} }\n}}{{\n");
}

#[test]
fn a_heading_needs_the_space_and_the_first_column() {
  let contents = "tags: a\n\n#NoSpace\n # Indented\n## Second level\n#\n# \n# Real  \n";
  let post = build("x.md", contents).unwrap();
  assert_eq!(post.title, "Real");
  assert_eq!(post.intro, "#NoSpace\n # Indented\n## Second level\n#\n#\n");
}

#[test]
fn a_heading_inside_the_excerpt_gives_the_title() {
  let post = build("x.md", "tags: a\n\n# One\nText\n# Two\nMore\n\n# Three\n").unwrap();
  assert_eq!(post.title, "Two");
  assert_eq!(post.intro, "Text\nMore\n");
}

#[test]
fn carriage_returns_end_lines_too() {
  let post = build("x.md", "tags: a\r\n\r\n# T\r\n\r\nText\r\n\r\nMore\r\n").unwrap();
  assert_eq!(post.tags, "a");
  assert_eq!(post.title, "T");
  assert_eq!(post.intro, "Text\n");
}

#[test]
fn post_process_twice_differs_where_the_page_and_the_fragment_overlap() {
  let post = make_post();
  let once = post_process(&post, "ab</head>", "aba").unwrap();
  assert_eq!(once, "ababa</head>");
  assert_eq!(post_process(&post, &once, "aba"), Some("baaba</head>".to_string()));
}

#[test]
fn post_process_twice_differs_where_a_value_makes_a_placeholder() {
  let post = Metadata { tags: "tags".to_string(), ..make_post() };
  let once = post_process(&post, "{{tags}}", HIGHLIGHTJS).unwrap();
  assert_eq!(once, "{tags}");
  assert_eq!(post_process(&post, &once, HIGHLIGHTJS), Some("tags".to_string()));
}

#[test]
fn post_process_fills_in_around_the_fragment() {
  let post = make_post();
  let once = post_process(&post, "<head>{tags}</head>{created}", "<x/>").unwrap();
  assert_eq!(once, "<head>game<x/></head>Published: 2020-01-01");
  assert_eq!(post_process(&post, &once, "<x/>"), None);
}

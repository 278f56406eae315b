use std::path::Path;
use std::time::Duration;
use std::time::SystemTime;
use website::path::{html, is_stale, markdown, modified};

#[test]
fn markdown_returns_correct_path() {
  let path = markdown("posts", "test");
  assert_eq!(path, "posts/test.md");
}

#[test]
fn html_returns_correct_path() {
  let path = html("public/posts", "test");
  assert_eq!(path, "public/posts/test.html");
}

#[test]
fn modified_returns_modified_time() {
  let now = SystemTime::now().duration_since(SystemTime::UNIX_EPOCH).unwrap();
  let time = Duration::from_nanos(modified(Some(now.as_nanos())) as u64);
  assert!(SystemTime::now().duration_since(SystemTime::UNIX_EPOCH + time).unwrap() < Duration::from_secs(1));
}

#[test]
fn modified_returns_epoch_when_file_does_not_exist() {
  let time = modified(None);
  assert_eq!(SystemTime::UNIX_EPOCH + Duration::from_nanos(time as u64), SystemTime::UNIX_EPOCH);
}

#[test]
fn extension_is_forced_whatever_the_name_came_with() {
    assert_eq!(markdown("artifacts", "test.html"), "artifacts/test.md");
    assert_eq!(markdown("artifacts", "test.md"), "artifacts/test.md");
    assert_eq!(markdown("artifacts", "test.rs"), "artifacts/test.md");
    assert_eq!(html("public/posts", "test.md"), "public/posts/test.html");
    assert_eq!(html("public/posts", "2020-01-01-v1.2"), "public/posts/2020-01-01-v1.html");
    assert_eq!(markdown("artifacts", "archive.tar.gz"), "artifacts/archive.tar.md");
}

#[test]
fn a_leading_dot_starts_no_extension() {
    assert_eq!(markdown("artifacts", ".hidden"), "artifacts/.hidden.md");
    assert_eq!(markdown("a.b", "c"), "a.b/c.md");
    assert_eq!(markdown("a.b", "..."), "a.b/...md");
    assert_eq!(markdown("a.b", "c."), "a.b/c.md");
}

#[test]
fn a_path_without_a_file_name_stays_as_it_is() {
    assert_eq!(markdown("posts", ".."), "posts/..");
    assert_eq!(html("posts", "../"), "posts/../");
    assert_eq!(markdown("", ""), "");
    assert_eq!(markdown("/", ""), "/");
    assert_eq!(markdown("", "."), ".");
    assert_eq!(markdown("", "./"), "./");
}

#[test]
fn what_follows_the_file_name_goes() {
    assert_eq!(markdown("posts", "test/"), "posts/test.md");
    assert_eq!(markdown("posts", ""), "posts.md");
    assert_eq!(markdown("posts", "test.html//"), "posts/test.md");
    assert_eq!(markdown("posts", "test/."), "posts/test.md");
    assert_eq!(html("posts", "./"), "posts.html");
}

#[test]
fn paths_are_those_of_std() {
    let roots = ["", "posts", "posts/", "/", "a.b", "public/posts", ".", "..", "a/.."];
    let names = [
        "", "test", "test.md", "test.html", ".hidden", "..", "...", "..a", "a.", "a.b.c", "test/",
        "test//", "test/.", "test/./", ".", "./", "./a", "/tmp/test", "/", "../", "a/../b.txt",
        "dir.d/file", "2020-01-01-v1.2",
    ];
    for root in roots {
        for name in names {
            let mut md = Path::new(root).join(name);
            md.set_extension("md");
            assert_eq!(markdown(root, name), md.to_str().unwrap(), "{root:?} {name:?}");
            let mut page = Path::new(root).join(name);
            page.set_extension("html");
            assert_eq!(html(root, name), page.to_str().unwrap(), "{root:?} {name:?}");
        }
    }
}

#[test]
fn names_are_joined_with_one_separator() {
    assert_eq!(markdown("posts/", "test"), "posts/test.md");
    assert_eq!(markdown("", "test"), "test.md");
    assert_eq!(markdown("posts", "/tmp/test"), "/tmp/test.md");
    assert_eq!(html("public", "posts/test"), "public/posts/test.html");
}

#[test]
fn a_target_is_stale_when_its_source_is_newer() {
    assert!(is_stale(Some(2), Some(1)));
    assert!(!is_stale(Some(1), Some(1)));
    assert!(!is_stale(Some(1), Some(2)));
    assert!(is_stale(Some(1), None));
    assert!(!is_stale(None, None));
    assert!(!is_stale(None, Some(1)));
    assert!(!is_stale(Some(0), None));
}

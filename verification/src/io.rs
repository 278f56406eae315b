//! Listings of directories: which of the files found are read, in what
//! order, and which are to go.

use crate::path::{extension, extension_of, file_name, file_name_of, file_stem, file_stem_of,
    join, markdown_path, set_extension};
use crate::post::PathConfig;
use crate::text::{chars_of, has_prefix, same, starts_with, strings_of, texts, views};
use vstd::prelude::*;
use vstd::seq_lib::{to_multiset_build, to_multiset_insert};

verus! {

/// `a` comes before `b`, or is `b`, in the order of the dictionary, the
/// characters taken by their code points.
pub open spec fn precedes(a: Seq<char>, b: Seq<char>) -> bool
    decreases a.len(),
{
    if a.len() == 0 {
        true
    } else if b.len() == 0 {
        false
    } else if a[0] as u32 != b[0] as u32 {
        (a[0] as u32) < (b[0] as u32)
    } else {
        precedes(a.drop_first(), b.drop_first())
    }
}

/// Of two texts one comes before the other, or they are the same.
pub proof fn lemma_precedes_total(a: Seq<char>, b: Seq<char>)
    ensures
        precedes(a, b) || precedes(b, a),
    decreases a.len(),
{
    if a.len() > 0 && b.len() > 0 && a[0] as u32 == b[0] as u32 {
        lemma_precedes_total(a.drop_first(), b.drop_first());
    }
}

pub proof fn lemma_precedes_transitive(a: Seq<char>, b: Seq<char>, c: Seq<char>)
    requires
        precedes(a, b),
        precedes(b, c),
    ensures
        precedes(a, c),
    decreases a.len(),
{
    if a.len() > 0 && b.len() > 0 && c.len() > 0 && a[0] as u32 == b[0] as u32 && b[0] as u32
        == c[0] as u32 {
        lemma_precedes_transitive(a.drop_first(), b.drop_first(), c.drop_first());
    }
}

/// Of no texts none is kept.
proof fn lemma_filter_none(pred: spec_fn(Seq<char>) -> bool)
    ensures
        Seq::<Seq<char>>::empty().filter(pred) == Seq::<Seq<char>>::empty(),
{
    reveal(Seq::filter);
}

/// Each text of `v` comes before those in front of it, or is the same.
pub open spec fn descending(v: Seq<Seq<char>>) -> bool {
    forall|i: int, j: int| 0 <= i < j < v.len() ==> precedes(#[trigger] v[j], #[trigger] v[i])
}

/// The paths whose extension is one of `extensions`.
pub open spec fn wanted(extensions: Seq<Seq<char>>) -> spec_fn(Seq<char>) -> bool {
    |p: Seq<char>| extensions.contains(extension(p))
}

/// The views of a list of string slices.
pub open spec fn slices(v: Seq<&str>) -> Seq<Seq<char>> {
    v.map_values(|s: &str| s@)
}

pub fn comes_before(a: &Vec<char>, b: &Vec<char>) -> (r: bool)
    ensures
        r == precedes(a@, b@),
{
    let mut i: usize = 0;
    assert(a@.subrange(0, a.len() as int) == a@);
    assert(b@.subrange(0, b.len() as int) == b@);
    while i < a.len() && i < b.len() && a[i] as u32 == b[i] as u32
        invariant
            i <= a.len(),
            i <= b.len(),
            precedes(a@, b@) == precedes(
                a@.subrange(i as int, a.len() as int),
                b@.subrange(i as int, b.len() as int),
            ),
        decreases a.len() - i,
    {
        assert(a@.subrange(i as int, a.len() as int).drop_first() == a@.subrange(
            i + 1,
            a.len() as int,
        ));
        assert(b@.subrange(i as int, b.len() as int).drop_first() == b@.subrange(
            i + 1,
            b.len() as int,
        ));
        i += 1;
    }
    if i >= a.len() {
        true
    } else if i >= b.len() {
        false
    } else {
        let x: u32 = a[i] as u32;
        let y: u32 = b[i] as u32;
        x < y
    }
}

fn has_extension(p: &Vec<char>, extensions: &[&str]) -> (r: bool)
    ensures
        r == wanted(slices(extensions@))(p@),
{
    let ext = extension_of(p);
    let mut k: usize = 0;
    while k < extensions.len()
        invariant
            k <= extensions.len(),
            ext@ == extension(p@),
            forall|j: int| 0 <= j < k ==> slices(extensions@)[j] != ext@,
        decreases extensions.len() - k,
    {
        if same(&ext, &chars_of(extensions[k])) {
            assert(slices(extensions@)[k as int] == ext@);
            return true;
        }
        k += 1;
    }
    false
}

/// The paths among `entries` whose extension is one of `extensions`, the
/// last in the order of the dictionary first.
pub fn paths_in_dir(entries: &Vec<String>, extensions: &[&str]) -> (paths: Vec<String>)
    ensures
        descending(texts(paths@)),
        texts(paths@).to_multiset() == texts(entries@).filter(
            wanted(slices(extensions@)),
        ).to_multiset(),
{
    let ghost pred = wanted(slices(extensions@));
    let ghost all = texts(entries@);
    let mut kept: Vec<Vec<char>> = Vec::new();
    let mut i: usize = 0;
    assert(all.subrange(0, 0) == Seq::<Seq<char>>::empty());
    assert(views(kept@) == Seq::<Seq<char>>::empty());
    proof {
        lemma_filter_none(pred);
    }
    while i < entries.len()
        invariant
            i <= entries.len(),
            all == texts(entries@),
            pred == wanted(slices(extensions@)),
            descending(views(kept@)),
            views(kept@).to_multiset() == all.subrange(0, i as int).filter(pred).to_multiset(),
        decreases entries.len() - i,
    {
        let p = chars_of(entries[i].as_str());
        proof {
            assert(all.subrange(0, i + 1) == all.subrange(0, i as int).push(p@));
            all.subrange(0, i as int).lemma_filter_push(p@, pred);
        }
        if has_extension(&p, extensions) {
            let ghost before = views(kept@);
            let mut k: usize = 0;
            while k < kept.len() && comes_before(&p, &kept[k])
                invariant
                    k <= kept.len(),
                    before == views(kept@),
                    forall|j: int| 0 <= j < k ==> precedes(p@, #[trigger] before[j]),
                decreases kept.len() - k,
            {
                k += 1;
            }
            proof {
                to_multiset_build(all.subrange(0, i as int).filter(pred), p@);
                to_multiset_insert(before, k as int, p@);
                let after = before.insert(k as int, p@);
                assert forall|x: int, y: int| 0 <= x < y < after.len() implies precedes(
                    #[trigger] after[y],
                    #[trigger] after[x],
                ) by {
                    if y < k {
                        assert(after[x] == before[x] && after[y] == before[y]);
                    } else if y == k {
                        assert(after[x] == before[x]);
                    } else if x < k {
                        assert(after[x] == before[x] && after[y] == before[y - 1]);
                    } else if x == k {
                        assert(after[y] == before[y - 1]);
                        lemma_precedes_total(p@, before[k as int]);
                        if y - 1 > k {
                            lemma_precedes_transitive(before[y - 1], before[k as int], p@);
                        }
                    } else {
                        assert(after[x] == before[x - 1] && after[y] == before[y - 1]);
                    }
                }
            }
            kept.insert(k, p);
            assert(views(kept@) == before.insert(k as int, p@));
        }
        i += 1;
    }
    assert(all.subrange(0, entries.len() as int) == all);
    strings_of(&kept)
}

/// The rendered pages whose markup is gone: a page is one of them when the
/// markup file of its name in the directory `artifacts` is not among
/// `md_files`.
pub open spec fn orphaned(md_files: Seq<Seq<char>>, artifacts: Seq<char>) -> spec_fn(
    Seq<char>,
) -> bool {
    |html_file: Seq<char>| !md_files.contains(markdown_path(artifacts, file_stem(html_file)))
}

/// The files to remove from the rendered documents: those of `html_files`
/// whose markup file is not among `md_files`, in the order given.
pub fn remove_stale_html_posts(
    html_files: &Vec<String>,
    md_files: &Vec<String>,
    paths: &PathConfig,
) -> (stale: Vec<String>)
    ensures
        texts(stale@) == texts(html_files@).filter(
            orphaned(texts(md_files@), paths.artifacts@),
        ),
{
    let ghost pred = orphaned(texts(md_files@), paths.artifacts@);
    let ghost all = texts(html_files@);
    let artifacts = chars_of(paths.artifacts.as_str());
    let md: Vec<char> = vec!['m', 'd'];
    assert(md@ == seq!['m', 'd']);
    let mut stale: Vec<Vec<char>> = Vec::new();
    let mut i: usize = 0;
    assert(all.subrange(0, 0) == Seq::<Seq<char>>::empty());
    assert(views(stale@) == Seq::<Seq<char>>::empty());
    proof {
        lemma_filter_none(pred);
    }
    while i < html_files.len()
        invariant
            i <= html_files.len(),
            all == texts(html_files@),
            pred == orphaned(texts(md_files@), paths.artifacts@),
            artifacts@ == paths.artifacts@,
            md@ == seq!['m', 'd'],
            views(stale@) == all.subrange(0, i as int).filter(pred),
        decreases html_files.len() - i,
    {
        let html_file = chars_of(html_files[i].as_str());
        let md_file = set_extension(&join(&artifacts, &file_stem_of(&html_file)), &md);
        proof {
            assert(all.subrange(0, i + 1) == all.subrange(0, i as int).push(html_file@));
            all.subrange(0, i as int).lemma_filter_push(html_file@, pred);
        }
        let mut found = false;
        let mut k: usize = 0;
        while !found && k < md_files.len()
            invariant
                k <= md_files.len(),
                forall|j: int| 0 <= j < k ==> texts(md_files@)[j] != md_file@,
                found ==> texts(md_files@).contains(md_file@),
            decreases md_files.len() - k + if found { 0int } else { 1 },
        {
            if same(&chars_of(md_files[k].as_str()), &md_file) {
                assert(texts(md_files@)[k as int] == md_file@);
                found = true;
            } else {
                k += 1;
            }
        }
        if !found {
            let ghost before = views(stale@);
            stale.push(html_file);
            assert(views(stale@) == before.push(html_file@));
        }
        i += 1;
    }
    assert(all.subrange(0, html_files.len() as int) == all);
    strings_of(&stale)
}

/// A draft: a document whose name begins with `draft-`.
pub open spec fn is_draft(name: Seq<char>) -> bool {
    starts_with(name, "draft-"@)
}

/// The paths whose file name is that of a draft.
pub open spec fn of_draft() -> spec_fn(Seq<char>) -> bool {
    |file: Seq<char>| is_draft(file_name(file))
}

/// The files to remove for a site without drafts: those of `files` whose
/// file name begins with `draft-`, in the order given.
pub fn remove_drafts(files: &Vec<String>) -> (drafts: Vec<String>)
    ensures
        texts(drafts@) == texts(files@).filter(of_draft()),
{
    let ghost all = texts(files@);
    let prefix = chars_of("draft-");
    let mut drafts: Vec<Vec<char>> = Vec::new();
    let mut i: usize = 0;
    assert(all.subrange(0, 0) == Seq::<Seq<char>>::empty());
    assert(views(drafts@) == Seq::<Seq<char>>::empty());
    proof {
        lemma_filter_none(of_draft());
    }
    while i < files.len()
        invariant
            i <= files.len(),
            all == texts(files@),
            prefix@ == "draft-"@,
            views(drafts@) == all.subrange(0, i as int).filter(of_draft()),
        decreases files.len() - i,
    {
        let file = chars_of(files[i].as_str());
        let name = file_name_of(&file);
        proof {
            assert(all.subrange(0, i + 1) == all.subrange(0, i as int).push(file@));
            all.subrange(0, i as int).lemma_filter_push(file@, of_draft());
        }
        if has_prefix(&name, &prefix) {
            let ghost before = views(drafts@);
            drafts.push(file);
            assert(views(drafts@) == before.push(file@));
        }
        i += 1;
    }
    assert(all.subrange(0, files.len() as int) == all);
    strings_of(&drafts)
}

} // verus!

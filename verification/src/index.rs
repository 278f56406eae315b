//! The listing page: one card for each document, and the same page
//! without the cards of drafts.

use crate::io::is_draft;
use crate::post::{Metadata, MetadataView};
use crate::string::{format_or_empty, labelled};
use crate::text::{
    append, chars_of, contains, has_prefix, lemma_unlines_add, lemma_unlines_one, lines,
    lines_of, occurs_in, push_line, replace, replaced, string_of, unlines, views, with_newline,
};
use vstd::prelude::*;

verus! {

/// The card of one document: the template with its placeholders filled
/// in. The card of a draft gets the class ` draft`; a date that is empty
/// leaves nothing, not even its label.
pub open spec fn card_of(card: Seq<char>, post: MetadataView) -> Seq<char> {
    let classes = if is_draft(post.name) {
        " draft"@
    } else {
        Seq::empty()
    };
    let classed = replaced(card, "{additional_classes}"@, classes);
    let named = replaced(classed, "{name}"@, post.name);
    let tagged = replaced(named, "{tags}"@, post.tags);
    let created = replaced(tagged, "{created}"@, labelled("Published: "@, post.created));
    let updated = replaced(created, "{updated}"@, labelled("Updated: "@, post.updated));
    let titled = replaced(updated, "{title}"@, post.title);
    replaced(titled, "{intro}"@, post.intro)
}

/// The cards of the given documents, in order, with a line feed between
/// one card and the next.
pub open spec fn cards_of(card: Seq<char>, posts: Seq<Metadata>) -> Seq<char>
    decreases posts.len(),
{
    if posts.len() == 0 {
        Seq::empty()
    } else if posts.len() == 1 {
        card_of(card, posts[0]@)
    } else {
        cards_of(card, posts.drop_last()).push('\n') + card_of(card, posts.last()@)
    }
}

/// What follows the excerpt of the page about the author.
pub open spec fn more_link() -> Seq<char> {
    " <div><a href=\"/about.html\">more...</a></div>"@
}

/// The listing page: the template `home` with the navigation for `{nav}`,
/// the excerpt of `about` and a link to it for `{intro}`, and the cards
/// of the documents for `{posts}`.
pub open spec fn index_page(
    posts: Seq<Metadata>,
    about: MetadataView,
    nav: Seq<char>,
    card: Seq<char>,
    home: Seq<char>,
) -> Seq<char> {
    let with_nav = replaced(home, "{nav}"@, nav);
    let with_intro = replaced(with_nav, "{intro}"@, about.intro + more_link());
    replaced(with_intro, "{posts}"@, cards_of(card, posts))
}

fn card_for(card: &Vec<char>, post: &Metadata) -> (out: Vec<char>)
    ensures
        out@ == card_of(card@, post@),
{
    let name = chars_of(post.name.as_str());
    let classes = if has_prefix(&name, &chars_of("draft-")) {
        chars_of(" draft")
    } else {
        Vec::new()
    };
    let created = format_or_empty("Published: ", &post.created);
    let updated = format_or_empty("Updated: ", &post.updated);
    let classed = replace(card, &chars_of("{additional_classes}"), &classes);
    let named = replace(&classed, &chars_of("{name}"), &name);
    let tagged = replace(&named, &chars_of("{tags}"), &chars_of(post.tags.as_str()));
    let dated = replace(&tagged, &chars_of("{created}"), &chars_of(created.as_str()));
    let redated = replace(&dated, &chars_of("{updated}"), &chars_of(updated.as_str()));
    let titled = replace(&redated, &chars_of("{title}"), &chars_of(post.title.as_str()));
    replace(&titled, &chars_of("{intro}"), &chars_of(post.intro.as_str()))
}

/// The listing page of the given documents. `about` is what the page
/// about the author says of itself; `nav`, `card` and `home` are the
/// templates of the navigation, of one card and of the page.
pub fn generate(posts: &[Metadata], about: &Metadata, nav: &str, card: &str, home: &str) -> (page:
    String)
    ensures
        page@ == index_page(posts@, about@, nav@, card@, home@),
{
    let template = chars_of(card);
    let mut cards: Vec<char> = Vec::new();
    let mut i: usize = 0;
    assert(posts@.subrange(0, 0) == Seq::<Metadata>::empty());
    while i < posts.len()
        invariant
            i <= posts.len(),
            template@ == card@,
            cards@ == cards_of(card@, posts@.subrange(0, i as int)),
        decreases posts.len() - i,
    {
        assert(posts@.subrange(0, i + 1).drop_last() == posts@.subrange(0, i as int));
        if i > 0 {
            cards.push('\n');
        }
        let one = card_for(&template, &posts[i]);
        append(&mut cards, &one);
        i += 1;
    }
    assert(posts@.subrange(0, posts.len() as int) == posts@);
    let mut intro = chars_of(about.intro.as_str());
    append(&mut intro, &chars_of(" <div><a href=\"/about.html\">more...</a></div>"));
    let with_nav = replace(&chars_of(home), &chars_of("{nav}"), &chars_of(nav));
    let with_intro = replace(&with_nav, &chars_of("{intro}"), &intro);
    string_of(&replace(&with_intro, &chars_of("{posts}"), &cards))
}

/// The line that opens the card of a draft.
pub open spec fn draft_open() -> Seq<char> {
    "<article class=\"card draft\">"@
}

/// The line that closes a card.
pub open spec fn card_close() -> Seq<char> {
    "</article>"@
}

/// The given lines, each followed by a line feed, without the cards of
/// drafts: a line is left out from one that holds the opening of such a
/// card up to the next that holds `</article>`, both included. `hidden`
/// says whether such a card is open before the first line.
pub open spec fn without_drafts(ls: Seq<Seq<char>>, hidden: bool) -> Seq<char>
    decreases ls.len(),
{
    if ls.len() == 0 {
        Seq::empty()
    } else {
        let line = ls[0];
        let out = hidden || occurs_in(draft_open(), line);
        let kept = if out {
            Seq::empty()
        } else {
            with_newline(line)
        };
        kept + without_drafts(ls.drop_first(), out && !occurs_in(card_close(), line))
    }
}

/// Lines outside a draft card that open none pass through as they stand,
/// each followed by a line feed.
pub proof fn lemma_shown(ls: Seq<Seq<char>>, rest: Seq<Seq<char>>)
    requires
        forall|k: int| 0 <= k < ls.len() ==> !occurs_in(draft_open(), #[trigger] ls[k]),
    ensures
        without_drafts(ls + rest, false) == unlines(ls) + without_drafts(rest, false),
    decreases ls.len(),
{
    if ls.len() == 0 {
        assert(ls + rest == rest);
        assert(unlines(ls) + without_drafts(rest, false) == without_drafts(rest, false));
    } else {
        let tail = ls.drop_first();
        assert(!occurs_in(draft_open(), ls[0]));
        assert forall|k: int| 0 <= k < tail.len() implies !occurs_in(
            draft_open(),
            #[trigger] tail[k],
        ) by {
            assert(tail[k] == ls[k + 1]);
        }
        lemma_shown(tail, rest);
        assert((ls + rest).drop_first() == tail + rest);
        assert((ls + rest)[0] == ls[0]);
        assert(ls == seq![ls[0]] + tail);
        lemma_unlines_add(seq![ls[0]], tail);
        lemma_unlines_one(ls[0]);
    }
}

/// Lines inside a draft card that do not close it are left out.
pub proof fn lemma_hidden(ls: Seq<Seq<char>>, rest: Seq<Seq<char>>)
    requires
        forall|k: int| 0 <= k < ls.len() ==> !occurs_in(card_close(), #[trigger] ls[k]),
    ensures
        without_drafts(ls + rest, true) == without_drafts(rest, true),
    decreases ls.len(),
{
    if ls.len() == 0 {
        assert(ls + rest == rest);
    } else {
        let tail = ls.drop_first();
        assert(!occurs_in(card_close(), ls[0]));
        assert forall|k: int| 0 <= k < tail.len() implies !occurs_in(
            card_close(),
            #[trigger] tail[k],
        ) by {
            assert(tail[k] == ls[k + 1]);
        }
        lemma_hidden(tail, rest);
        assert((ls + rest).drop_first() == tail + rest);
        assert((ls + rest)[0] == ls[0]);
    }
}

/// A listing with one draft card loses the lines of that card and no
/// other: what stands before the card and behind it passes through as it
/// stands. `open` is the line that opens the card, `inner` are the lines
/// inside it and `close` is the line with its `</article>`; no line
/// before or behind the card opens a draft card.
pub proof fn lemma_draft_card_removed(
    html: Seq<char>,
    before: Seq<Seq<char>>,
    open: Seq<char>,
    inner: Seq<Seq<char>>,
    close: Seq<char>,
    after: Seq<Seq<char>>,
)
    requires
        lines_of(html) == before + seq![open] + inner + seq![close] + after,
        forall|k: int| 0 <= k < before.len() ==> !occurs_in(draft_open(), #[trigger] before[k]),
        occurs_in(draft_open(), open),
        !occurs_in(card_close(), open),
        forall|k: int| 0 <= k < inner.len() ==> !occurs_in(card_close(), #[trigger] inner[k]),
        occurs_in(card_close(), close),
        forall|k: int| 0 <= k < after.len() ==> !occurs_in(draft_open(), #[trigger] after[k]),
    ensures
        without_drafts(lines_of(html), false) == unlines(before) + unlines(after),
{
    let ending = seq![close] + after;
    let card = seq![open] + (inner + ending);
    assert(lines_of(html) == before + card);
    lemma_shown(before, card);
    assert(card[0] == open);
    assert(card.drop_first() == inner + ending);
    assert(without_drafts(card, false) == without_drafts(inner + ending, true));
    lemma_hidden(inner, ending);
    assert(ending[0] == close);
    assert(ending.drop_first() == after);
    assert(without_drafts(ending, true) == without_drafts(after, false));
    lemma_shown(after, Seq::empty());
    assert(after + Seq::<Seq<char>>::empty() == after);
    assert(without_drafts(Seq::<Seq<char>>::empty(), false) == Seq::<char>::empty());
    assert(unlines(after) + Seq::<char>::empty() == unlines(after));
}

/// A listing without a draft card passes through as it stands, each line
/// followed by a line feed.
pub proof fn lemma_no_draft_card(html: Seq<char>)
    requires
        forall|k: int|
            0 <= k < lines_of(html).len() ==> !occurs_in(
                draft_open(),
                #[trigger] lines_of(html)[k],
            ),
    ensures
        without_drafts(lines_of(html), false) == unlines(lines_of(html)),
{
    let ls = lines_of(html);
    lemma_shown(ls, Seq::empty());
    assert(ls + Seq::<Seq<char>>::empty() == ls);
    assert(without_drafts(Seq::<Seq<char>>::empty(), false) == Seq::<char>::empty());
    assert(unlines(ls) + Seq::<char>::empty() == unlines(ls));
}

/// The listing page without the cards of drafts.
pub fn remove_drafts(html: &str) -> (page: String)
    ensures
        page@ == without_drafts(lines_of(html@), false),
{
    let ls = lines(&chars_of(html));
    let open = chars_of("<article class=\"card draft\">");
    let close = chars_of("</article>");
    let mut page: Vec<char> = Vec::new();
    let mut in_draft = false;
    let mut i: usize = 0;
    assert(views(ls@).subrange(0, ls.len() as int) == views(ls@));
    while i < ls.len()
        invariant
            i <= ls.len(),
            open@ == draft_open(),
            close@ == card_close(),
            without_drafts(views(ls@), false) == page@ + without_drafts(
                views(ls@).subrange(i as int, ls.len() as int),
                in_draft,
            ),
        decreases ls.len() - i,
    {
        let ghost rest = views(ls@).subrange(i as int, ls.len() as int);
        assert(rest[0] == ls@[i as int]@);
        assert(rest.drop_first() == views(ls@).subrange(i + 1, ls.len() as int));
        let line = &ls[i];
        if contains(line, &open) {
            in_draft = true;
        }
        if !in_draft {
            push_line(line, &mut page);
        }
        if contains(line, &close) {
            in_draft = false;
        }
        i += 1;
    }
    string_of(&page)
}

} // verus!

//! Character sequences: the operations on text that the rest of the crate is
//! specified with, and their executable counterparts on `Vec<char>`.
//!
//! A text is modelled as a `Seq<char>`, the view of `str` and `String`.

use vstd::prelude::*;

verus! {

/// Appends one character to a string; stands for `String::push`, which
/// puts the given `char` at the end of the string and leaves the rest alone.
#[verifier::external_body]
fn push_char(s: &mut String, c: char)
    ensures
        final(s)@ == old(s)@.push(c),
{
    s.push(c);
}

/// The characters of `s`, in order.
pub fn chars_of(s: &str) -> (v: Vec<char>)
    ensures
        v@ == s@,
{
    let mut v: Vec<char> = Vec::new();
    for c in it: s.chars()
        invariant
            it.seq() == s@,
            v@ == s@.subrange(0, it.index()),
    {
        v.push(c);
    }
    assert(s@.subrange(0, s@.len() as int) == s@);
    v
}

/// The string made of the characters of `v`, in order.
pub fn string_of(v: &Vec<char>) -> (s: String)
    ensures
        s@ == v@,
{
    let mut s = String::new();
    let mut i: usize = 0;
    while i < v.len()
        invariant
            i <= v.len(),
            s@ == v@.subrange(0, i as int),
        decreases v.len() - i,
    {
        push_char(&mut s, v[i]);
        i += 1;
    }
    assert(v@.subrange(0, v.len() as int) == v@);
    s
}

/// The views of a list of texts.
pub open spec fn views(v: Seq<Vec<char>>) -> Seq<Seq<char>> {
    v.map_values(|l: Vec<char>| l@)
}

/// The views of a list of strings.
pub open spec fn texts(v: Seq<String>) -> Seq<Seq<char>> {
    v.map_values(|s: String| s@)
}

/// The strings of a list of texts.
pub fn strings_of(v: &Vec<Vec<char>>) -> (out: Vec<String>)
    ensures
        texts(out@) == views(v@),
{
    let mut out: Vec<String> = Vec::new();
    let mut i: usize = 0;
    while i < v.len()
        invariant
            i <= v.len(),
            texts(out@) == views(v@).subrange(0, i as int),
        decreases v.len() - i,
    {
        let ghost before = texts(out@);
        let s = string_of(&v[i]);
        out.push(s);
        assert(texts(out@) == before.push(v@[i as int]@));
        i += 1;
    }
    assert(views(v@).subrange(0, v.len() as int) == views(v@));
    out
}

/// Appends `tail` to `out`.
pub fn append(out: &mut Vec<char>, tail: &Vec<char>)
    ensures
        final(out)@ == old(out)@ + tail@,
{
    let mut i: usize = 0;
    while i < tail.len()
        invariant
            i <= tail.len(),
            out@ == old(out)@ + tail@.subrange(0, i as int),
        decreases tail.len() - i,
    {
        out.push(tail[i]);
        i += 1;
    }
    assert(tail@.subrange(0, tail.len() as int) == tail@);
}

/// A copy of `v[from..to]`.
pub fn slice(v: &Vec<char>, from: usize, to: usize) -> (out: Vec<char>)
    requires
        from <= to <= v.len(),
    ensures
        out@ == v@.subrange(from as int, to as int),
{
    let mut out: Vec<char> = Vec::new();
    let mut i: usize = from;
    while i < to
        invariant
            from <= i <= to <= v.len(),
            out@ == v@.subrange(from as int, i as int),
        decreases to - i,
    {
        out.push(v[i]);
        i += 1;
    }
    out
}

/// Whether two texts hold the same characters.
pub fn same(a: &Vec<char>, b: &Vec<char>) -> (eq: bool)
    ensures
        eq == (a@ == b@),
{
    if a.len() != b.len() {
        return false;
    }
    let mut i: usize = 0;
    while i < a.len()
        invariant
            i <= a.len(),
            a.len() == b.len(),
            a@.subrange(0, i as int) == b@.subrange(0, i as int),
        decreases a.len() - i,
    {
        if a[i] != b[i] {
            return false;
        }
        assert(a@.subrange(0, i + 1) == a@.subrange(0, i as int).push(a@[i as int]));
        assert(b@.subrange(0, i + 1) == b@.subrange(0, i as int).push(b@[i as int]));
        i += 1;
    }
    assert(a@.subrange(0, a.len() as int) == a@);
    assert(b@.subrange(0, b.len() as int) == b@);
    true
}

/// White space: the characters with the Unicode property `White_Space`.
pub open spec fn is_space(c: char) -> bool {
    let n = c as u32;
    ||| 0x09 <= n <= 0x0D
    ||| n == 0x20
    ||| n == 0x85
    ||| n == 0xA0
    ||| n == 0x1680
    ||| 0x2000 <= n <= 0x200A
    ||| n == 0x2028
    ||| n == 0x2029
    ||| n == 0x202F
    ||| n == 0x205F
    ||| n == 0x3000
}

pub fn is_whitespace(c: char) -> (b: bool)
    ensures
        b == is_space(c),
{
    let n: u32 = c as u32;
    (0x09 <= n && n <= 0x0D) || n == 0x20 || n == 0x85 || n == 0xA0 || n == 0x1680 || (0x2000 <= n
        && n <= 0x200A) || n == 0x2028 || n == 0x2029 || n == 0x202F || n == 0x205F || n == 0x3000
}

/// The length of `s` without its trailing white space.
pub open spec fn trimmed_len(s: Seq<char>) -> nat
    decreases s.len(),
{
    if s.len() == 0 {
        0
    } else if is_space(s.last()) {
        trimmed_len(s.drop_last())
    } else {
        s.len()
    }
}

/// `s` without its trailing white space.
pub open spec fn trimmed(s: Seq<char>) -> Seq<char> {
    s.subrange(0, trimmed_len(s) as int)
}

/// `trimmed(s)` is the longest prefix of `s` that does not end in white space.
pub proof fn lemma_trimmed(s: Seq<char>)
    ensures
        trimmed_len(s) <= s.len(),
        trimmed_len(s) > 0 ==> !is_space(s[trimmed_len(s) - 1]),
        forall|k: int| trimmed_len(s) <= k < s.len() ==> is_space(#[trigger] s[k]),
    decreases s.len(),
{
    if s.len() > 0 && is_space(s.last()) {
        let t = s.drop_last();
        lemma_trimmed(t);
        assert forall|k: int| trimmed_len(s) <= k < s.len() implies is_space(#[trigger] s[k]) by {
            if k < t.len() {
                assert(s[k] == t[k]);
            }
        }
    }
}

/// `v` without its trailing white space: the longest beginning of `v`
/// that does not end in white space.
pub fn trim_end(v: &Vec<char>) -> (out: Vec<char>)
    ensures
        out@ == trimmed(v@),
        out@.is_prefix_of(v@),
        out.len() > 0 ==> !is_space(out@.last()),
        forall|k: int| out.len() <= k < v.len() ==> is_space(#[trigger] v@[k]),
{
    proof {
        lemma_trimmed(v@);
    }
    let mut n: usize = v.len();
    assert(v@.subrange(0, n as int) == v@);
    while n > 0 && is_whitespace(v[n - 1])
        invariant
            n <= v.len(),
            trimmed_len(v@) == trimmed_len(v@.subrange(0, n as int)),
        decreases n,
    {
        assert(v@.subrange(0, n as int).drop_last() == v@.subrange(0, n - 1));
        n -= 1;
    }
    slice(v, 0, n)
}

/// `pat` stands in `s` at index `i`.
pub open spec fn matches_at(s: Seq<char>, pat: Seq<char>, i: int) -> bool {
    0 <= i && i + pat.len() <= s.len() && s.subrange(i, i + pat.len()) == pat
}

pub fn is_match_at(s: &Vec<char>, pat: &Vec<char>, i: usize) -> (b: bool)
    ensures
        b == matches_at(s@, pat@, i as int),
{
    if pat.len() > s.len() || i > s.len() - pat.len() {
        return false;
    }
    let mut k: usize = 0;
    while k < pat.len()
        invariant
            k <= pat.len(),
            i + pat.len() <= s.len(),
            s@.subrange(i as int, i + k) == pat@.subrange(0, k as int),
        decreases pat.len() - k,
    {
        if s[i + k] != pat[k] {
            assert(s@.subrange(i as int, i + pat.len())[k as int] != pat@[k as int]);
            return false;
        }
        assert(s@.subrange(i as int, i + k + 1) == s@.subrange(i as int, i + k).push(
            s@[i + k],
        ));
        assert(pat@.subrange(0, k + 1) == pat@.subrange(0, k as int).push(pat@[k as int]));
        k += 1;
    }
    assert(pat@.subrange(0, pat.len() as int) == pat@);
    true
}

/// `s` begins with `pat`.
pub open spec fn starts_with(s: Seq<char>, pat: Seq<char>) -> bool {
    matches_at(s, pat, 0)
}

pub fn has_prefix(s: &Vec<char>, pat: &Vec<char>) -> (b: bool)
    ensures
        b == starts_with(s@, pat@),
{
    is_match_at(s, pat, 0)
}

/// `pat` stands somewhere in `s`.
pub open spec fn occurs_in(pat: Seq<char>, s: Seq<char>) -> bool {
    exists|i: int| matches_at(s, pat, i)
}

/// `i` is the first index at which `pat` stands in `s`.
pub open spec fn is_first_match(s: Seq<char>, pat: Seq<char>, i: int) -> bool {
    matches_at(s, pat, i) && forall|j: int| 0 <= j < i ==> !matches_at(s, pat, j)
}

/// The first index at which `pat` stands in `s`, where it stands in `s` at
/// all.
pub open spec fn first_match(s: Seq<char>, pat: Seq<char>) -> int {
    choose|i: int| is_first_match(s, pat, i)
}

pub proof fn lemma_first_match(s: Seq<char>, pat: Seq<char>, i: int)
    requires
        is_first_match(s, pat, i),
    ensures
        first_match(s, pat) == i,
        occurs_in(pat, s),
{
    let k = first_match(s, pat);
    assert(is_first_match(s, pat, k));
    if k < i {
        assert(!matches_at(s, pat, k));
    } else if i < k {
        assert(!matches_at(s, pat, i));
    }
}

/// Where `pat` first stands in `s`: `None` when it stands nowhere.
pub fn find(s: &Vec<char>, pat: &Vec<char>) -> (at: Option<usize>)
    ensures
        match at {
            Some(i) => occurs_in(pat@, s@) && i == first_match(s@, pat@) && is_first_match(
                s@,
                pat@,
                i as int,
            ),
            None => !occurs_in(pat@, s@),
        },
{
    let mut i: usize = 0;
    loop
        invariant
            i <= s.len(),
            forall|j: int| 0 <= j < i ==> !matches_at(s@, pat@, j),
        decreases s.len() - i,
    {
        if is_match_at(s, pat, i) {
            proof {
                lemma_first_match(s@, pat@, i as int);
            }
            return Some(i);
        }
        if i >= s.len() {
            return None;
        }
        i += 1;
    }
}

pub fn contains(s: &Vec<char>, pat: &Vec<char>) -> (b: bool)
    ensures
        b == occurs_in(pat@, s@),
{
    find(s, pat).is_some()
}

/// `to` before, between and after the characters of `s`.
pub open spec fn interleaved(s: Seq<char>, to: Seq<char>) -> Seq<char>
    decreases s.len(),
{
    if s.len() == 0 {
        to
    } else {
        to + seq![s[0]] + interleaved(s.drop_first(), to)
    }
}

/// `s` with every occurrence of `pat` replaced by `to`. Occurrences are found
/// from the left and do not overlap; an empty `pat` is found before, between
/// and after the characters of `s`.
pub open spec fn replaced(s: Seq<char>, pat: Seq<char>, to: Seq<char>) -> Seq<char>
    decreases s.len(),
{
    if pat.len() == 0 {
        interleaved(s, to)
    } else if s.len() == 0 {
        s
    } else if starts_with(s, pat) {
        to + replaced(s.subrange(pat.len() as int, s.len() as int), pat, to)
    } else {
        seq![s[0]] + replaced(s.drop_first(), pat, to)
    }
}

/// Where `pat` stands nowhere, nothing is replaced.
pub proof fn lemma_replaced_none(s: Seq<char>, pat: Seq<char>, to: Seq<char>)
    requires
        pat.len() > 0,
        !occurs_in(pat, s),
    ensures
        replaced(s, pat, to) == s,
    decreases s.len(),
{
    if s.len() > 0 {
        assert(!matches_at(s, pat, 0));
        let t = s.drop_first();
        assert forall|i: int| !matches_at(t, pat, i) by {
            if matches_at(t, pat, i) {
                assert(s.subrange(i + 1, i + 1 + pat.len()) == t.subrange(i, i + pat.len()));
                assert(matches_at(s, pat, i + 1));
            }
        }
        lemma_replaced_none(t, pat, to);
        assert(seq![s[0]] + t == s);
    }
}

/// The first occurrence of `pat` is replaced, what stands before it stays,
/// and the search goes on behind it.
pub proof fn lemma_replaced_first(s: Seq<char>, pat: Seq<char>, to: Seq<char>, i: int)
    requires
        pat.len() > 0,
        is_first_match(s, pat, i),
    ensures
        replaced(s, pat, to) == s.subrange(0, i) + to + replaced(
            s.subrange(i + pat.len(), s.len() as int),
            pat,
            to,
        ),
    decreases i,
{
    if i == 0 {
        assert(s.subrange(0, 0) + to == to);
    } else {
        assert(!matches_at(s, pat, 0));
        let t = s.drop_first();
        assert(is_first_match(t, pat, i - 1)) by {
            assert(t.subrange(i - 1, i - 1 + pat.len()) == s.subrange(i, i + pat.len()));
            assert forall|j: int| 0 <= j < i - 1 implies !matches_at(t, pat, j) by {
                if matches_at(t, pat, j) {
                    assert(s.subrange(j + 1, j + 1 + pat.len()) == t.subrange(j, j + pat.len()));
                    assert(matches_at(s, pat, j + 1));
                }
            }
        }
        lemma_replaced_first(t, pat, to, i - 1);
        assert(t.subrange(i - 1 + pat.len(), t.len() as int) == s.subrange(
            i + pat.len(),
            s.len() as int,
        ));
        assert(seq![s[0]] + t.subrange(0, i - 1) == s.subrange(0, i));
    }
}

/// An empty text between the characters of a text changes nothing.
pub proof fn lemma_interleaved_nothing(s: Seq<char>)
    ensures
        interleaved(s, Seq::empty()) == s,
    decreases s.len(),
{
    if s.len() > 0 {
        lemma_interleaved_nothing(s.drop_first());
        assert(Seq::<char>::empty() + seq![s[0]] + s.drop_first() == s);
    }
}

/// To replace a text by itself changes nothing.
pub proof fn lemma_replaced_by_itself(s: Seq<char>, pat: Seq<char>)
    requires
        pat.len() > 0,
    ensures
        replaced(s, pat, pat) == s,
    decreases s.len(),
{
    if s.len() == 0 {
    } else if starts_with(s, pat) {
        let rest = s.subrange(pat.len() as int, s.len() as int);
        lemma_replaced_by_itself(rest, pat);
        assert(s.subrange(0, pat.len() as int) + rest == s);
    } else {
        lemma_replaced_by_itself(s.drop_first(), pat);
        assert(seq![s[0]] + s.drop_first() == s);
    }
}

/// What no occurrence of `pat` reaches into stays as it is, and what
/// stands before it and behind it is replaced as if it stood alone.
pub proof fn lemma_replaced_around(
    u: Seq<char>,
    m: Seq<char>,
    w: Seq<char>,
    pat: Seq<char>,
    to: Seq<char>,
)
    requires
        pat.len() > 0,
        forall|i: int| #[trigger]
            matches_at(u + m + w, pat, i) ==> i + pat.len() <= u.len() || i >= u.len() + m.len(),
    ensures
        replaced(u + m + w, pat, to) == replaced(u, pat, to) + m + replaced(w, pat, to),
    decreases u.len(), m.len(),
{
    let z = u + m + w;
    let n = pat.len() as int;
    if u.len() == 0 {
        if m.len() == 0 {
            assert(z == w);
            assert(replaced(u, pat, to) + m + replaced(w, pat, to) == replaced(w, pat, to));
        } else {
            let m1 = m.drop_first();
            let z1 = u + m1 + w;
            assert(!matches_at(z, pat, 0));
            assert(z.drop_first() == z1);
            assert forall|i: int| #[trigger] matches_at(z1, pat, i) implies i + n <= u.len() || i
                >= u.len() + m1.len() by {
                assert(z.subrange(i + 1, i + 1 + n) == z1.subrange(i, i + n));
                assert(matches_at(z, pat, i + 1));
            }
            lemma_replaced_around(u, m1, w, pat, to);
            assert(z[0] == m[0]);
            assert(seq![m[0]] + (replaced(u, pat, to) + m1 + replaced(w, pat, to)) == replaced(
                u,
                pat,
                to,
            ) + m + replaced(w, pat, to));
        }
    } else if starts_with(z, pat) {
        assert(matches_at(z, pat, 0));
        assert(u.subrange(0, n) == z.subrange(0, n));
        let u1 = u.subrange(n, u.len() as int);
        let z1 = u1 + m + w;
        assert(z.subrange(n, z.len() as int) == z1);
        assert forall|i: int| #[trigger] matches_at(z1, pat, i) implies i + n <= u1.len() || i
            >= u1.len() + m.len() by {
            assert(z.subrange(i + n, i + n + n) == z1.subrange(i, i + n));
            assert(matches_at(z, pat, i + n));
        }
        lemma_replaced_around(u1, m, w, pat, to);
        assert(to + (replaced(u1, pat, to) + m + replaced(w, pat, to)) == to + replaced(
            u1,
            pat,
            to,
        ) + m + replaced(w, pat, to));
    } else {
        if starts_with(u, pat) {
            assert(z.subrange(0, n) == u.subrange(0, n));
        }
        let u1 = u.drop_first();
        let z1 = u1 + m + w;
        assert(z.drop_first() == z1);
        assert forall|i: int| #[trigger] matches_at(z1, pat, i) implies i + n <= u1.len() || i
            >= u1.len() + m.len() by {
            assert(z.subrange(i + 1, i + 1 + n) == z1.subrange(i, i + n));
            assert(matches_at(z, pat, i + 1));
        }
        lemma_replaced_around(u1, m, w, pat, to);
        assert(z[0] == u[0]);
        assert(seq![u[0]] + (replaced(u1, pat, to) + m + replaced(w, pat, to)) == seq![u[0]]
            + replaced(u1, pat, to) + m + replaced(w, pat, to));
    }
}

/// What stands in a part of a text stands in the text.
pub proof fn lemma_matches_in_part(s: Seq<char>, pat: Seq<char>, from: int, to: int, i: int)
    requires
        0 <= from <= to <= s.len(),
        matches_at(s.subrange(from, to), pat, i),
    ensures
        matches_at(s, pat, from + i),
{
    assert(s.subrange(from + i, from + i + pat.len()) == s.subrange(from, to).subrange(
        i,
        i + pat.len(),
    ));
}

pub fn replace(s: &Vec<char>, pat: &Vec<char>, to: &Vec<char>) -> (out: Vec<char>)
    ensures
        out@ == replaced(s@, pat@, to@),
{
    let mut out: Vec<char> = Vec::new();
    let mut i: usize = 0;
    assert(s@.subrange(0, s.len() as int) == s@);
    if pat.len() == 0 {
        append(&mut out, to);
        while i < s.len()
            invariant
                i <= s.len(),
                interleaved(s@, to@) == out@.subrange(0, out.len() - to.len()) + interleaved(
                    s@.subrange(i as int, s.len() as int),
                    to@,
                ),
                out.len() >= to.len(),
                out@.subrange(out.len() - to.len(), out.len() as int) == to@,
            decreases s.len() - i,
        {
            let ghost rest = s@.subrange(i as int, s.len() as int);
            let ghost before = out@;
            assert(rest.drop_first() == s@.subrange(i + 1, s.len() as int));
            out.push(s[i]);
            append(&mut out, to);
            assert(out@.subrange(0, out.len() - to.len()) == before.subrange(
                0,
                before.len() - to.len(),
            ) + to@ + seq![rest[0]]);
            i += 1;
        }
        assert(out@ == out@.subrange(0, out.len() - to.len()) + to@);
        out
    } else {
        while i < s.len()
            invariant
                i <= s.len(),
                pat.len() > 0,
                replaced(s@, pat@, to@) == out@ + replaced(
                    s@.subrange(i as int, s.len() as int),
                    pat@,
                    to@,
                ),
            decreases s.len() - i,
        {
            let ghost rest = s@.subrange(i as int, s.len() as int);
            if is_match_at(s, pat, i) {
                assert(rest.subrange(0, pat.len() as int) == s@.subrange(
                    i as int,
                    i + pat.len(),
                ));
                assert(rest.subrange(pat.len() as int, rest.len() as int) == s@.subrange(
                    i + pat.len(),
                    s.len() as int,
                ));
                append(&mut out, to);
                i += pat.len();
            } else {
                assert(i + pat.len() <= s.len() ==> rest.subrange(0, pat.len() as int)
                    == s@.subrange(i as int, i + pat.len()));
                assert(rest.drop_first() == s@.subrange(i + 1, s.len() as int));
                out.push(s[i]);
                i += 1;
            }
        }
        out
    }
}

/// The index of the first line feed in `s`, or the length of `s`.
pub open spec fn line_end(s: Seq<char>) -> int
    decreases s.len(),
{
    if s.len() == 0 || s[0] == '\n' {
        0
    } else {
        1 + line_end(s.drop_first())
    }
}

/// `s` without one trailing carriage return.
pub open spec fn without_cr(s: Seq<char>) -> Seq<char> {
    if s.len() > 0 && s.last() == '\r' {
        s.drop_last()
    } else {
        s
    }
}

/// The lines of a text. A line ends at a line feed; the line feed, and a
/// carriage return directly before it, belong to no line. What follows the
/// last line feed is a line of its own unless it is empty.
pub open spec fn lines_of(s: Seq<char>) -> Seq<Seq<char>>
    decreases s.len(),
{
    if s.len() == 0 {
        Seq::empty()
    } else {
        let n = line_end(s);
        if 0 <= n < s.len() {
            seq![without_cr(s.subrange(0, n))] + lines_of(s.subrange(n + 1, s.len() as int))
        } else {
            seq![s]
        }
    }
}

pub proof fn lemma_line_end(s: Seq<char>)
    ensures
        0 <= line_end(s) <= s.len(),
        line_end(s) < s.len() ==> s[line_end(s)] == '\n',
        forall|k: int| 0 <= k < line_end(s) ==> #[trigger] s[k] != '\n',
    decreases s.len(),
{
    if s.len() == 0 || s[0] == '\n' {
    } else {
        let t = s.drop_first();
        lemma_line_end(t);
        assert forall|k: int| 0 <= k < line_end(s) implies #[trigger] s[k] != '\n' by {
            if k > 0 {
                assert(s[k] == t[k - 1]);
            }
        }
    }
}

/// The first line feed is where `line_end` says.
pub proof fn lemma_line_end_is(s: Seq<char>, n: int)
    requires
        0 <= n <= s.len(),
        n < s.len() ==> s[n] == '\n',
        forall|k: int| 0 <= k < n ==> #[trigger] s[k] != '\n',
    ensures
        line_end(s) == n,
{
    lemma_line_end(s);
    let m = line_end(s);
    if m < n {
        assert(s[m] != '\n');
    } else if n < m {
        assert(s[n] != '\n');
    }
}

pub fn lines(s: &Vec<char>) -> (out: Vec<Vec<char>>)
    ensures
        views(out@) == lines_of(s@),
{
    let mut out: Vec<Vec<char>> = Vec::new();
    let mut start: usize = 0;
    assert(s@.subrange(0, s.len() as int) == s@);
    assert(views(out@) == Seq::<Seq<char>>::empty());
    while start < s.len()
        invariant
            start <= s.len(),
            lines_of(s@) == views(out@) + lines_of(s@.subrange(start as int, s.len() as int)),
        decreases s.len() - start,
    {
        let ghost rest = s@.subrange(start as int, s.len() as int);
        let mut end: usize = start;
        while end < s.len() && s[end] != '\n'
            invariant
                start <= end <= s.len(),
                forall|k: int| start <= k < end ==> s@[k] != '\n',
            decreases s.len() - end,
        {
            end += 1;
        }
        proof {
            lemma_line_end_is(rest, end - start);
        }
        let ghost before = views(out@);
        if end == s.len() {
            let line = slice(s, start, end);
            assert(line@ == rest);
            out.push(line);
            assert(views(out@) == before + seq![rest]);
            start = end;
            assert(lines_of(s@.subrange(start as int, s.len() as int)) == Seq::<
                Seq<char>,
            >::empty());
        } else {
            let cut: usize = if end > start && s[end - 1] == '\r' {
                end - 1
            } else {
                end
            };
            let line = slice(s, start, cut);
            assert(rest.subrange(0, end - start) == s@.subrange(start as int, end as int));
            assert(line@ == without_cr(rest.subrange(0, end - start)));
            assert(rest.subrange(end - start + 1, rest.len() as int) == s@.subrange(
                end + 1,
                s.len() as int,
            ));
            out.push(line);
            assert(views(out@) == before + seq![line@]);
            start = end + 1;
        }
    }
    out
}

/// `line` followed by a line feed.
pub open spec fn with_newline(line: Seq<char>) -> Seq<char> {
    line.push('\n')
}

/// The text made of the given lines, each followed by a line feed.
pub open spec fn unlines(ls: Seq<Seq<char>>) -> Seq<char>
    decreases ls.len(),
{
    if ls.len() == 0 {
        Seq::empty()
    } else {
        unlines(ls.drop_last()) + with_newline(ls.last())
    }
}

/// The lines of two runs, one after the other, are those of the runs
/// joined.
pub proof fn lemma_unlines_add(a: Seq<Seq<char>>, b: Seq<Seq<char>>)
    ensures
        unlines(a + b) == unlines(a) + unlines(b),
    decreases b.len(),
{
    if b.len() == 0 {
        assert(a + b == a);
    } else {
        lemma_unlines_add(a, b.drop_last());
        assert((a + b).drop_last() == a + b.drop_last());
    }
}

/// The text of one line is the line and a line feed.
pub proof fn lemma_unlines_one(line: Seq<char>)
    ensures
        unlines(seq![line]) == with_newline(line),
{
    let one = seq![line];
    assert(one.drop_last().len() == 0);
    assert(unlines(one.drop_last()) == Seq::<char>::empty());
    assert(one.last() == line);
}

/// Appends `line` and a line feed to `out`.
pub fn push_line(line: &Vec<char>, out: &mut Vec<char>)
    ensures
        final(out)@ == old(out)@ + with_newline(line@),
{
    append(out, line);
    out.push('\n');
}

/// Appends each of `ls`, followed by a line feed, to `out`.
pub fn push_lines(ls: &Vec<Vec<char>>, out: &mut Vec<char>)
    ensures
        final(out)@ == old(out)@ + unlines(views(ls@)),
{
    let mut i: usize = 0;
    assert(views(ls@).subrange(0, 0) == Seq::<Seq<char>>::empty());
    while i < ls.len()
        invariant
            i <= ls.len(),
            out@ == old(out)@ + unlines(views(ls@).subrange(0, i as int)),
        decreases ls.len() - i,
    {
        assert(views(ls@).subrange(0, i + 1).drop_last() == views(ls@).subrange(0, i as int));
        push_line(&ls[i], out);
        i += 1;
    }
    assert(views(ls@).subrange(0, ls.len() as int) == views(ls@));
}

} // verus!

use vstd::prelude::*;
use crate::text::{lowercase, to_lowercase};

verus! {

/// `needle` occurs in `hay` starting at `i`.
pub open spec fn occurs_at(hay: Seq<char>, needle: Seq<char>, i: int) -> bool {
    0 <= i && i + needle.len() <= hay.len() && hay.subrange(i, i + needle.len()) == needle
}

/// The keywords occur in `hay` in their order, without overlap, the first one
/// no earlier than `start`.
pub open spec fn matches_from(hay: Seq<char>, keywords: Seq<Seq<char>>, start: int) -> bool
    decreases keywords.len(),
{
    if keywords.len() == 0 {
        true
    } else {
        exists|i: int|
            i >= start && #[trigger] occurs_at(hay, keywords[0], i) && matches_from(
                hay,
                keywords.drop_first(),
                i + keywords[0].len(),
            )
    }
}

/// A path matches keywords when, both lowercased, each keyword occurs in the
/// path after the end of the previous one.
pub open spec fn keywords_match(path: Seq<char>, keywords: Seq<Seq<char>>) -> bool {
    matches_from(lowercase(path), keywords.map_values(|k: Seq<char>| lowercase(k)), 0)
}

/// The views of a list of strings.
pub open spec fn views(v: Seq<String>) -> Seq<Seq<char>> {
    v.map_values(|s: String| s@)
}

/// The views of a list of character vectors.
pub open spec fn char_views(v: Seq<Vec<char>>) -> Seq<Seq<char>> {
    v.map_values(|s: Vec<char>| s@)
}

proof fn lemma_matches_from_later(hay: Seq<char>, keywords: Seq<Seq<char>>, s1: int, s2: int)
    requires
        s1 <= s2,
        matches_from(hay, keywords, s2),
    ensures
        matches_from(hay, keywords, s1),
{
    if keywords.len() > 0 {
        let i = choose|i: int|
            i >= s2 && #[trigger] occurs_at(hay, keywords[0], i) && matches_from(
                hay,
                keywords.drop_first(),
                i + keywords[0].len(),
            );
        assert(occurs_at(hay, keywords[0], i));
    }
}

/// Matching from `start` is matching the rest of the keywords from the end
/// of the first occurrence of the first keyword at or after `start`.
proof fn lemma_matches_first_occurrence(hay: Seq<char>, keywords: Seq<Seq<char>>, start: int, i0: int)
    requires
        keywords.len() > 0,
        i0 >= start,
        occurs_at(hay, keywords[0], i0),
        forall|j: int| start <= j < i0 ==> !#[trigger] occurs_at(hay, keywords[0], j),
    ensures
        matches_from(hay, keywords, start) == matches_from(hay, keywords.drop_first(), i0 + keywords[0].len()),
{
    if matches_from(hay, keywords, start) {
        let i = choose|i: int|
            i >= start && #[trigger] occurs_at(hay, keywords[0], i) && matches_from(
                hay,
                keywords.drop_first(),
                i + keywords[0].len(),
            );
        lemma_matches_from_later(hay, keywords.drop_first(), i0 + keywords[0].len(), i + keywords[0].len());
    }
    if matches_from(hay, keywords.drop_first(), i0 + keywords[0].len()) {
        assert(occurs_at(hay, keywords[0], i0));
    }
}

/// The characters of a string.
pub fn chars_of(s: &str) -> (r: Vec<char>)
    ensures
        r@ == s@,
{
    let n = s.unicode_len();
    let mut r: Vec<char> = Vec::new();
    let mut i: usize = 0;
    while i < n
        invariant
            i <= n == s@.len(),
            r@ == s@.subrange(0, i as int),
        decreases n - i,
    {
        r.push(s.get_char(i));
        assert(s@.subrange(0, i + 1) =~= s@.subrange(0, i as int).push(s@[i as int]));
        i = i + 1;
    }
    assert(s@.subrange(0, n as int) =~= s@);
    r
}

/// Whether `needle` occurs in `hay` at `i`.
fn occurs_at_exec(hay: &Vec<char>, needle: &Vec<char>, i: usize) -> (r: bool)
    requires
        i + needle@.len() <= hay@.len(),
    ensures
        r == occurs_at(hay@, needle@, i as int),
{
    let hl = hay.len();
    let mut k: usize = 0;
    while k < needle.len()
        invariant
            hl == hay@.len(),
            k <= needle@.len(),
            i + needle@.len() <= hay@.len(),
            forall|m: int| 0 <= m < k ==> hay@[i + m] == needle@[m],
        decreases needle@.len() - k,
    {
        if hay[i + k] != needle[k] {
            assert(hay@.subrange(i as int, i + needle@.len())[k as int] != needle@[k as int]);
            return false;
        }
        k = k + 1;
    }
    assert(hay@.subrange(i as int, i + needle@.len()) =~= needle@);
    true
}

/// The first occurrence of `needle` in `hay` at or after `start`.
pub fn find_from(hay: &Vec<char>, needle: &Vec<char>, start: usize) -> (r: Option<usize>)
    ensures
        r matches Some(i) ==> i >= start && occurs_at(hay@, needle@, i as int) && forall|j: int|
            start <= j < i ==> !#[trigger] occurs_at(hay@, needle@, j),
        r is None ==> forall|j: int| j >= start ==> !#[trigger] occurs_at(hay@, needle@, j),
{
    if needle.len() > hay.len() || start > hay.len() - needle.len() {
        return None;
    }
    let last = hay.len() - needle.len();
    let mut i: usize = start;
    loop
        invariant
            start <= i <= last,
            last + needle@.len() == hay@.len(),
            forall|j: int| start <= j < i ==> !#[trigger] occurs_at(hay@, needle@, j),
        decreases last - i,
    {
        if occurs_at_exec(hay, needle, i) {
            return Some(i);
        }
        if i == last {
            assert forall|j: int| j >= start implies !#[trigger] occurs_at(hay@, needle@, j) by {
                if j > last {
                    assert(j + needle@.len() > hay@.len());
                }
            }
            return None;
        }
        i = i + 1;
    }
}

/// Whether already lowercased keywords occur in an already lowercased path in
/// their order, without overlap.
pub fn matches_lowered(hay: &Vec<char>, keywords: &Vec<Vec<char>>) -> (r: bool)
    ensures
        r == matches_from(hay@, char_views(keywords@), 0),
{
    let ghost ks = char_views(keywords@);
    let n = keywords.len();
    let hl = hay.len();
    let mut pos: usize = 0;
    let mut j: usize = 0;
    assert(ks.subrange(0, n as int) =~= ks);
    while j < n
        invariant
            j <= n == keywords@.len() == ks.len(),
            ks == char_views(keywords@),
            pos <= hay@.len() == hl,
            matches_from(hay@, ks.subrange(j as int, n as int), pos as int) == matches_from(hay@, ks, 0),
        decreases n - j,
    {
        let ghost rest = ks.subrange(j as int, n as int);
        assert(rest[0] == keywords@[j as int]@);
        assert(rest.drop_first() =~= ks.subrange(j + 1, n as int));
        match find_from(hay, &keywords[j], pos) {
            Some(i) => {
                proof {
                    lemma_matches_first_occurrence(hay@, rest, pos as int, i as int);
                }
                pos = i + keywords[j].len();
            },
            None => {
                assert(!matches_from(hay@, rest, pos as int));
                return false;
            },
        }
        j = j + 1;
    }
    true
}

/// Lowercases each keyword and splits it into characters.
pub fn lowered_keywords(keywords: &Vec<String>) -> (r: Vec<Vec<char>>)
    ensures
        char_views(r@) == views(keywords@).map_values(|k: Seq<char>| lowercase(k)),
{
    let mut r: Vec<Vec<char>> = Vec::new();
    let mut i: usize = 0;
    while i < keywords.len()
        invariant
            i <= keywords@.len(),
            char_views(r@) == views(keywords@).subrange(0, i as int).map_values(|k: Seq<char>| lowercase(k)),
        decreases keywords@.len() - i,
    {
        let low = to_lowercase(keywords[i].as_str());
        r.push(chars_of(low.as_str()));
        assert(views(keywords@).subrange(0, i + 1).map_values(|k: Seq<char>| lowercase(k)) =~=
            views(keywords@).subrange(0, i as int).map_values(|k: Seq<char>| lowercase(k)).push(lowercase(keywords@[i as int]@)));
        assert(char_views(r@) =~= char_views(r@.drop_last()).push(r@.last()@));
        i = i + 1;
    }
    assert(views(keywords@).subrange(0, i as int) =~= views(keywords@));
    r
}

/// Whether `path` matches the keywords: both lowercased, each keyword occurs
/// in the path after the end of the previous one.
pub fn path_matches(path: &str, keywords: &Vec<String>) -> (r: bool)
    ensures
        r == keywords_match(path@, views(keywords@)),
{
    let ks = lowered_keywords(keywords);
    let low = to_lowercase(path);
    let hay = chars_of(low.as_str());
    matches_lowered(&hay, &ks)
}

} // verus!

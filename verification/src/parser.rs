//! Extraction of wiki-links and hashtags from document text.
//!
//! A wiki-link is written `[[target]]`: two opening brackets, one or more
//! characters other than `]`, then two closing brackets. A hashtag is written
//! `#word`, where `word` is a maximal nonempty run of ASCII letters, digits or
//! underscores. Matches are found left to right and do not overlap; occurrence
//! order and duplicates are preserved.

use vstd::prelude::*;

verus! {

/// Result of parsing a document: the wiki-link targets and hashtags found,
/// in occurrence order, duplicates preserved.
#[derive(Debug, Clone)]
pub struct ParsedContent {
    pub wiki_links: Vec<String>,
    pub hashtags: Vec<String>,
}

/// First index at or after `k` that holds `]`, or the length of `s`.
pub open spec fn wl_run_end(s: Seq<char>, k: int) -> int
    decreases s.len() - k when 0 <= k <= s.len()
{
    if k >= s.len() || s[k] == ']' {
        k
    } else {
        wl_run_end(s, k + 1)
    }
}

pub proof fn lemma_wl_run_end(s: Seq<char>, k: int)
    requires
        0 <= k <= s.len(),
    ensures
        k <= wl_run_end(s, k) <= s.len(),
        wl_run_end(s, k) < s.len() ==> s[wl_run_end(s, k)] == ']',
        forall|m: int| k <= m < wl_run_end(s, k) ==> s[m] != ']',
    decreases s.len() - k,
{
    if k >= s.len() || s[k] == ']' {
    } else {
        lemma_wl_run_end(s, k + 1);
    }
}

/// Whether a wiki-link match begins at index `i`: `[[`, a nonempty run of
/// characters other than `]`, then `]]`.
pub open spec fn wl_match_at(s: Seq<char>, i: int) -> bool {
    &&& 0 <= i
    &&& i + 2 <= s.len()
    &&& s[i] == '['
    &&& s[i + 1] == '['
    &&& wl_run_end(s, i + 2) > i + 2
    &&& wl_run_end(s, i + 2) + 1 < s.len()
    &&& s[wl_run_end(s, i + 2) + 1] == ']'
}

/// The wiki-link targets found scanning `s` from index `i` on.
pub open spec fn wiki_links_from(s: Seq<char>, i: int) -> Seq<Seq<char>>
    decreases s.len() - i when 0 <= i <= s.len()
{
    if i >= s.len() {
        Seq::empty()
    } else if wl_match_at(s, i) {
        seq![s.subrange(i + 2, wl_run_end(s, i + 2))] + wiki_links_from(
            s,
            wl_run_end(s, i + 2) + 2,
        )
    } else {
        wiki_links_from(s, i + 1)
    }
}

/// All wiki-link targets of `s`, in occurrence order, duplicates preserved.
pub open spec fn spec_wiki_links(s: Seq<char>) -> Seq<Seq<char>> {
    wiki_links_from(s, 0)
}

/// ASCII letter, digit or underscore.
pub open spec fn is_word_char(c: char) -> bool {
    ||| 'a' <= c && c <= 'z'
    ||| 'A' <= c && c <= 'Z'
    ||| '0' <= c && c <= '9'
    ||| c == '_'
}

/// First index at or after `k` whose character is no word character, or the
/// length of `s`.
pub open spec fn ht_run_end(s: Seq<char>, k: int) -> int
    decreases s.len() - k when 0 <= k <= s.len()
{
    if k >= s.len() || !is_word_char(s[k]) {
        k
    } else {
        ht_run_end(s, k + 1)
    }
}

pub proof fn lemma_ht_run_end(s: Seq<char>, k: int)
    requires
        0 <= k <= s.len(),
    ensures
        k <= ht_run_end(s, k) <= s.len(),
        ht_run_end(s, k) < s.len() ==> !is_word_char(s[ht_run_end(s, k)]),
        forall|m: int| k <= m < ht_run_end(s, k) ==> is_word_char(s[m]),
    decreases s.len() - k,
{
    if k >= s.len() || !is_word_char(s[k]) {
    } else {
        lemma_ht_run_end(s, k + 1);
    }
}

/// Whether a hashtag match begins at index `i`: `#` followed by a word
/// character.
pub open spec fn ht_match_at(s: Seq<char>, i: int) -> bool {
    &&& 0 <= i
    &&& i + 1 < s.len()
    &&& s[i] == '#'
    &&& is_word_char(s[i + 1])
}

/// The hashtags found scanning `s` from index `i` on.
pub open spec fn hashtags_from(s: Seq<char>, i: int) -> Seq<Seq<char>>
    decreases s.len() - i when 0 <= i <= s.len() via hashtags_from_decreases
{
    if i >= s.len() {
        Seq::empty()
    } else if ht_match_at(s, i) {
        seq![s.subrange(i + 1, ht_run_end(s, i + 1))] + hashtags_from(s, ht_run_end(s, i + 1))
    } else {
        hashtags_from(s, i + 1)
    }
}

#[via_fn]
proof fn hashtags_from_decreases(s: Seq<char>, i: int) {
    if 0 <= i < s.len() && ht_match_at(s, i) {
        lemma_ht_run_end(s, i + 1);
    }
}

/// All hashtags of `s`, in occurrence order, duplicates preserved.
pub open spec fn spec_hashtags(s: Seq<char>) -> Seq<Seq<char>> {
    hashtags_from(s, 0)
}

/// Extracts all wiki-link targets from `content`, in occurrence order.
pub fn extract_wiki_links(content: &str) -> (r: Vec<String>)
    ensures
        r.deep_view() == spec_wiki_links(content@),
{
    let n = content.unicode_len();
    let mut r: Vec<String> = Vec::new();
    let mut i: usize = 0;
    while i < n
        invariant
            n == content@.len(),
            i <= n,
            spec_wiki_links(content@) == r.deep_view() + wiki_links_from(content@, i as int),
        decreases n - i,
    {
        let ghost s = content@;
        let mut matched = false;
        if content.get_char(i) == '[' && i + 1 < n && content.get_char(i + 1) == '[' {
            let mut j = i + 2;
            while j < n && content.get_char(j) != ']'
                invariant
                    n == s.len(),
                    i + 2 <= j <= n,
                    s == content@,
                    wl_run_end(s, i + 2) == wl_run_end(s, j as int),
                decreases n - j,
            {
                j = j + 1;
            }
            proof {
                lemma_wl_run_end(s, j as int);
            }
            assert(wl_run_end(s, i + 2) == j as int);
            if j > i + 2 && n - j > 1 && content.get_char(j + 1) == ']' {
                assert(wl_match_at(s, i as int));
                let capture = content.substring_char(i + 2, j).to_owned();
                let ghost old_dv = r.deep_view();
                r.push(capture);
                assert(r.deep_view() =~~= old_dv.push(s.subrange(i + 2, j as int)));
                i = j + 2;
                matched = true;
            } else {
                assert(!wl_match_at(s, i as int));
            }
        } else {
            assert(!wl_match_at(s, i as int));
        }
        if !matched {
            i = i + 1;
        }
    }
    assert(r.deep_view() + wiki_links_from(content@, i as int) =~= r.deep_view());
    r
}

fn word_char(c: char) -> (r: bool)
    ensures
        r == is_word_char(c),
{
    (c >= 'a' && c <= 'z') || (c >= 'A' && c <= 'Z') || (c >= '0' && c <= '9') || c == '_'
}

/// Extracts all hashtags from `content`, in occurrence order.
pub fn extract_hashtags(content: &str) -> (r: Vec<String>)
    ensures
        r.deep_view() == spec_hashtags(content@),
{
    let n = content.unicode_len();
    let mut r: Vec<String> = Vec::new();
    let mut i: usize = 0;
    while i < n
        invariant
            n == content@.len(),
            i <= n,
            spec_hashtags(content@) == r.deep_view() + hashtags_from(content@, i as int),
        decreases n - i,
    {
        let ghost s = content@;
        let mut matched = false;
        if content.get_char(i) == '#' && i + 1 < n && word_char(content.get_char(i + 1)) {
            assert(ht_match_at(s, i as int));
            let mut j = i + 1;
            while j < n && word_char(content.get_char(j))
                invariant
                    n == s.len(),
                    i + 1 <= j <= n,
                    s == content@,
                    ht_run_end(s, i + 1) == ht_run_end(s, j as int),
                decreases n - j,
            {
                j = j + 1;
            }
            proof {
                lemma_ht_run_end(s, j as int);
            }
            assert(ht_run_end(s, i + 1) == j as int);
            let capture = content.substring_char(i + 1, j).to_owned();
            let ghost old_dv = r.deep_view();
            r.push(capture);
            assert(r.deep_view() =~~= old_dv.push(s.subrange(i + 1, j as int)));
            i = j;
            matched = true;
        } else {
            assert(!ht_match_at(s, i as int));
        }
        if !matched {
            i = i + 1;
        }
    }
    assert(r.deep_view() + hashtags_from(content@, i as int) =~= r.deep_view());
    r
}

/// Parses document text and returns its wiki-link targets and hashtags.
pub fn parse_markdown(content: &str) -> (r: ParsedContent)
    ensures
        r.wiki_links.deep_view() == spec_wiki_links(content@),
        r.hashtags.deep_view() == spec_hashtags(content@),
{
    let wiki_links = extract_wiki_links(content);
    let hashtags = extract_hashtags(content);
    ParsedContent { wiki_links, hashtags }
}

} // verus!

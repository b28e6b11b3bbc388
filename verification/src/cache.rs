//! The reference index: the authoritative derived state kept between
//! filesystem events.
//!
//! For every current document it stores the filesystem path, the outgoing
//! reference targets (duplicates preserved, replaced wholesale on change) and
//! the extracted tags, plus the set of ids currently materialized as phantom
//! nodes.

use vstd::prelude::*;
use crate::graph::{GraphData, NodeV, phantom_group};
use crate::parser::{parse_markdown, spec_wiki_links, spec_hashtags};
use crate::scanner::{MarkdownFile, FileV, spec_stem, stem_of_path};

verus! {

/// One document's entry: its name, path, outgoing references and tags.
pub struct CacheEntry {
    pub name: String,
    pub path: String,
    pub links: Vec<String>,
    pub tags: Vec<String>,
}

/// The mathematical value of one document's index entry.
#[verifier::ext_equal]
pub ghost struct EntryV {
    pub name: Seq<char>,
    pub path: Seq<char>,
    pub links: Seq<Seq<char>>,
    pub tags: Seq<Seq<char>>,
}

/// The mathematical value of the whole index: the document entries in
/// insertion order, and the set of phantom ids.
#[verifier::ext_equal]
pub ghost struct CacheV {
    pub entries: Seq<EntryV>,
    pub phantoms: Set<Seq<char>>,
}

impl View for CacheEntry {
    type V = EntryV;

    open spec fn view(&self) -> EntryV {
        EntryV {
            name: self.name@,
            path: self.path@,
            links: self.links.deep_view(),
            tags: self.tags.deep_view(),
        }
    }
}

impl DeepView for CacheEntry {
    type V = EntryV;

    open spec fn deep_view(&self) -> EntryV {
        self.view()
    }
}

/// How often `t` occurs in `links`.
pub open spec fn count_in(links: Seq<Seq<char>>, t: Seq<char>) -> nat
    decreases links.len(),
{
    if links.len() == 0 {
        0
    } else {
        (if links[0] == t {
            1nat
        } else {
            0nat
        }) + count_in(links.drop_first(), t)
    }
}

/// Whether some entry is named `id`.
pub open spec fn has_doc(entries: Seq<EntryV>, id: Seq<char>) -> bool {
    exists|i: int| 0 <= i < entries.len() && entries[i].name == id
}

/// The outgoing reference list stored for `id`; empty if `id` has no entry.
pub open spec fn links_of(entries: Seq<EntryV>, id: Seq<char>) -> Seq<Seq<char>>
    decreases entries.len(),
{
    if entries.len() == 0 {
        Seq::empty()
    } else if entries[0].name == id {
        entries[0].links
    } else {
        links_of(entries.drop_first(), id)
    }
}

/// How often `t` occurs across all stored outgoing lists: the incoming
/// reference count of `t`, with multiplicity.
pub open spec fn total_count(entries: Seq<EntryV>, t: Seq<char>) -> nat
    decreases entries.len(),
{
    if entries.len() == 0 {
        0
    } else {
        count_in(entries[0].links, t) + total_count(entries.drop_first(), t)
    }
}

/// The total number of stored references, over all entries.
pub open spec fn total_links(entries: Seq<EntryV>) -> nat
    decreases entries.len(),
{
    if entries.len() == 0 {
        0
    } else {
        entries[0].links.len() + total_links(entries.drop_first())
    }
}

/// The names of the entries, in order.
pub open spec fn entry_names(entries: Seq<EntryV>) -> Seq<Seq<char>> {
    entries.map_values(|e: EntryV| e.name)
}

/// The index of the first entry named `id`, or `-1` if there is none.
pub open spec fn doc_index(entries: Seq<EntryV>, id: Seq<char>) -> int
    decreases entries.len(),
{
    if entries.len() == 0 {
        -1
    } else if entries[0].name == id {
        0
    } else if doc_index(entries.drop_first(), id) < 0 {
        -1
    } else {
        1 + doc_index(entries.drop_first(), id)
    }
}

/// If `id` names some entry, `doc_index` points at the first such entry and
/// `links_of` yields its stored list.
pub proof fn lemma_doc_index(entries: Seq<EntryV>, id: Seq<char>)
    requires
        has_doc(entries, id),
    ensures
        0 <= doc_index(entries, id) < entries.len(),
        entries[doc_index(entries, id)].name == id,
        forall|j: int| 0 <= j < doc_index(entries, id) ==> entries[j].name != id,
        links_of(entries, id) == entries[doc_index(entries, id)].links,
    decreases entries.len(),
{
    if entries[0].name == id {
    } else {
        let rest = entries.drop_first();
        assert(has_doc(rest, id)) by {
            let i = choose|i: int| 0 <= i < entries.len() && entries[i].name == id;
            assert(rest[i - 1] == entries[i]);
        }
        lemma_doc_index(rest, id);
        assert forall|j: int| 0 <= j < doc_index(entries, id) implies entries[j].name != id by {
            if j > 0 {
                assert(entries[j] == rest[j - 1]);
            }
        }
    }
}

/// Where `id` names no entry, `doc_index` is `-1` and `links_of` is empty.
pub proof fn lemma_doc_absent(entries: Seq<EntryV>, id: Seq<char>)
    requires
        !has_doc(entries, id),
    ensures
        doc_index(entries, id) == -1,
        links_of(entries, id) == Seq::<Seq<char>>::empty(),
    decreases entries.len(),
{
    if entries.len() == 0 {
    } else {
        assert(entries[0].name != id);
        let rest = entries.drop_first();
        assert(!has_doc(rest, id)) by {
            if has_doc(rest, id) {
                let i = choose|i: int| 0 <= i < rest.len() && rest[i].name == id;
                assert(entries[i + 1] == rest[i]);
            }
        }
        lemma_doc_absent(rest, id);
    }
}

/// A first match at index `i` is what `doc_index` and `links_of` find.
pub proof fn lemma_first_match(entries: Seq<EntryV>, id: Seq<char>, i: int)
    requires
        0 <= i < entries.len(),
        entries[i].name == id,
        forall|j: int| 0 <= j < i ==> entries[j].name != id,
    ensures
        doc_index(entries, id) == i,
        links_of(entries, id) == entries[i].links,
    decreases entries.len(),
{
    if i == 0 {
    } else {
        let rest = entries.drop_first();
        assert(rest[i - 1] == entries[i]);
        assert forall|j: int| 0 <= j < i - 1 implies rest[j].name != id by {
            assert(rest[j] == entries[j + 1]);
        }
        lemma_first_match(rest, id, i - 1);
    }
}

pub proof fn lemma_count_in_push(links: Seq<Seq<char>>, l: Seq<char>, t: Seq<char>)
    ensures
        count_in(links.push(l), t) == count_in(links, t) + (if l == t {
            1nat
        } else {
            0nat
        }),
    decreases links.len(),
{
    if links.len() == 0 {
        assert(links.push(l)[0] == l);
        assert(links.push(l).drop_first() =~= Seq::<Seq<char>>::empty());
        assert(count_in(Seq::<Seq<char>>::empty(), t) == 0);
        assert(count_in(links, t) == 0);
    } else {
        assert(links.push(l)[0] == links[0]);
        assert(links.push(l).drop_first() =~= links.drop_first().push(l));
        lemma_count_in_push(links.drop_first(), l, t);
    }
}

pub proof fn lemma_count_in_le(links: Seq<Seq<char>>, t: Seq<char>)
    ensures
        count_in(links, t) <= links.len(),
    decreases links.len(),
{
    if links.len() > 0 {
        lemma_count_in_le(links.drop_first(), t);
    }
}

pub proof fn lemma_count_in_concat(a: Seq<Seq<char>>, b: Seq<Seq<char>>, t: Seq<char>)
    ensures
        count_in(a + b, t) == count_in(a, t) + count_in(b, t),
    decreases a.len(),
{
    if a.len() == 0 {
        assert(a + b =~= b);
    } else {
        assert((a + b)[0] == a[0]);
        assert((a + b).drop_first() =~= a.drop_first() + b);
        lemma_count_in_concat(a.drop_first(), b, t);
    }
}

pub proof fn lemma_total_count_concat(a: Seq<EntryV>, b: Seq<EntryV>, t: Seq<char>)
    ensures
        total_count(a + b, t) == total_count(a, t) + total_count(b, t),
    decreases a.len(),
{
    if a.len() == 0 {
        assert(a + b =~= b);
    } else {
        assert((a + b)[0] == a[0]);
        assert((a + b).drop_first() =~= a.drop_first() + b);
        lemma_total_count_concat(a.drop_first(), b, t);
    }
}

pub proof fn lemma_total_links_concat(a: Seq<EntryV>, b: Seq<EntryV>)
    ensures
        total_links(a + b) == total_links(a) + total_links(b),
    decreases a.len(),
{
    if a.len() == 0 {
        assert(a + b =~= b);
    } else {
        assert((a + b)[0] == a[0]);
        assert((a + b).drop_first() =~= a.drop_first() + b);
        lemma_total_links_concat(a.drop_first(), b);
    }
}

pub proof fn lemma_total_count_push(entries: Seq<EntryV>, e: EntryV, t: Seq<char>)
    ensures
        total_count(entries.push(e), t) == total_count(entries, t) + count_in(e.links, t),
{
    assert(entries.push(e) =~= entries + seq![e]);
    lemma_total_count_concat(entries, seq![e], t);
    assert(seq![e].drop_first() =~= Seq::<EntryV>::empty());
    assert(total_count(Seq::<EntryV>::empty(), t) == 0);
    assert(total_count(seq![e], t) == count_in(e.links, t));
}

pub proof fn lemma_total_links_push(entries: Seq<EntryV>, e: EntryV)
    ensures
        total_links(entries.push(e)) == total_links(entries) + e.links.len(),
{
    assert(entries.push(e) =~= entries + seq![e]);
    lemma_total_links_concat(entries, seq![e]);
    assert(seq![e].drop_first() =~= Seq::<EntryV>::empty());
    assert(total_links(Seq::<EntryV>::empty()) == 0);
    assert(total_links(seq![e]) == e.links.len());
}

/// Replacing the entry at `i` shifts the total incoming count of `t` by the
/// difference of the two lists' contributions.
pub proof fn lemma_total_count_update(entries: Seq<EntryV>, i: int, e: EntryV, t: Seq<char>)
    requires
        0 <= i < entries.len(),
    ensures
        total_count(entries.update(i, e), t) + count_in(entries[i].links, t) == total_count(
            entries,
            t,
        ) + count_in(e.links, t),
{
    let a = entries.take(i);
    let b = entries.skip(i + 1);
    assert(entries =~= a + seq![entries[i]] + b);
    assert(entries.update(i, e) =~= a + seq![e] + b);
    lemma_total_count_concat(a + seq![entries[i]], b, t);
    lemma_total_count_concat(a, seq![entries[i]], t);
    lemma_total_count_concat(a + seq![e], b, t);
    lemma_total_count_concat(a, seq![e], t);
    assert(seq![entries[i]].drop_first() =~= Seq::<EntryV>::empty());
    assert(seq![e].drop_first() =~= Seq::<EntryV>::empty());
    assert(total_count(Seq::<EntryV>::empty(), t) == 0);
    assert(total_count(seq![entries[i]], t) == count_in(entries[i].links, t));
    assert(total_count(seq![e], t) == count_in(e.links, t));
}

pub proof fn lemma_total_links_update(entries: Seq<EntryV>, i: int, e: EntryV)
    requires
        0 <= i < entries.len(),
    ensures
        total_links(entries.update(i, e)) + entries[i].links.len() == total_links(entries)
            + e.links.len(),
{
    let a = entries.take(i);
    let b = entries.skip(i + 1);
    assert(entries =~= a + seq![entries[i]] + b);
    assert(entries.update(i, e) =~= a + seq![e] + b);
    lemma_total_links_concat(a + seq![entries[i]], b);
    lemma_total_links_concat(a, seq![entries[i]]);
    lemma_total_links_concat(a + seq![e], b);
    lemma_total_links_concat(a, seq![e]);
    assert(seq![entries[i]].drop_first() =~= Seq::<EntryV>::empty());
    assert(seq![e].drop_first() =~= Seq::<EntryV>::empty());
    assert(total_links(Seq::<EntryV>::empty()) == 0);
}

/// The whole count is at least one entry's contribution.
pub proof fn lemma_total_count_ge_entry(entries: Seq<EntryV>, i: int, t: Seq<char>)
    requires
        0 <= i < entries.len(),
    ensures
        total_count(entries, t) >= count_in(entries[i].links, t),
{
    let a = entries.take(i);
    let b = entries.skip(i + 1);
    assert(entries =~= a + seq![entries[i]] + b);
    lemma_total_count_concat(a + seq![entries[i]], b, t);
    lemma_total_count_concat(a, seq![entries[i]], t);
    assert(seq![entries[i]].drop_first() =~= Seq::<EntryV>::empty());
    assert(total_count(Seq::<EntryV>::empty(), t) == 0);
    assert(total_count(seq![entries[i]], t) == count_in(entries[i].links, t));
}

/// Removing the entry at `i` subtracts its contribution from the total
/// incoming count of `t`.
pub proof fn lemma_total_count_remove(entries: Seq<EntryV>, i: int, t: Seq<char>)
    requires
        0 <= i < entries.len(),
    ensures
        total_count(entries.remove(i), t) + count_in(entries[i].links, t) == total_count(
            entries,
            t,
        ),
{
    let a = entries.take(i);
    let b = entries.skip(i + 1);
    assert(entries =~= a + seq![entries[i]] + b);
    assert(entries.remove(i) =~= a + b);
    lemma_total_count_concat(a + seq![entries[i]], b, t);
    lemma_total_count_concat(a, seq![entries[i]], t);
    lemma_total_count_concat(a, b, t);
    assert(seq![entries[i]].drop_first() =~= Seq::<EntryV>::empty());
    assert(total_count(Seq::<EntryV>::empty(), t) == 0);
    assert(total_count(seq![entries[i]], t) == count_in(entries[i].links, t));
}

pub proof fn lemma_total_links_remove(entries: Seq<EntryV>, i: int)
    requires
        0 <= i < entries.len(),
    ensures
        total_links(entries.remove(i)) + entries[i].links.len() == total_links(entries),
{
    let a = entries.take(i);
    let b = entries.skip(i + 1);
    assert(entries =~= a + seq![entries[i]] + b);
    assert(entries.remove(i) =~= a + b);
    lemma_total_links_concat(a + seq![entries[i]], b);
    lemma_total_links_concat(a, seq![entries[i]]);
    lemma_total_links_concat(a, b);
    assert(seq![entries[i]].drop_first() =~= Seq::<EntryV>::empty());
    assert(total_links(Seq::<EntryV>::empty()) == 0);
}

proof fn lemma_remove_to_set(s: Seq<Seq<char>>, i: int)
    requires
        0 <= i < s.len(),
        s.no_duplicates(),
    ensures
        s.remove(i).to_set() == s.to_set().remove(s[i]),
        s.remove(i).no_duplicates(),
{
    let r = s.remove(i);
    assert(forall|j: int| 0 <= j < i ==> r[j] == s[j]);
    assert(forall|j: int| i <= j < r.len() ==> r[j] == s[j + 1]);
    assert forall|x: Seq<char>| r.to_set().contains(x) implies s.to_set().remove(s[i]).contains(
        x,
    ) by {
        let j = choose|j: int| 0 <= j < r.len() && r[j] == x;
        if j < i {
            assert(s[j] == x);
        } else {
            assert(s[j + 1] == x);
        }
    }
    assert forall|x: Seq<char>| s.to_set().remove(s[i]).contains(x) implies r.to_set().contains(
        x,
    ) by {
        let j = choose|j: int| 0 <= j < s.len() && s[j] == x;
        if j < i {
            assert(r[j] == x);
        } else {
            assert(j != i);
            assert(r[j - 1] == x);
        }
    }
    assert(r.to_set() =~= s.to_set().remove(s[i]));
}

/// The index entry a document yields when scanned.
pub open spec fn entry_of_file(f: FileV) -> EntryV {
    EntryV {
        name: f.name,
        path: f.path,
        links: spec_wiki_links(f.content),
        tags: spec_hashtags(f.content),
    }
}

/// Adds `e`, replacing the first entry of the same name if there is one.
pub open spec fn upsert(entries: Seq<EntryV>, e: EntryV) -> Seq<EntryV> {
    if has_doc(entries, e.name) {
        entries.update(doc_index(entries, e.name), e)
    } else {
        entries.push(e)
    }
}

/// The entries a full scan of `files` yields, in file order; a repeated name
/// keeps its first position and the last content.
pub open spec fn scan_entries(files: Seq<FileV>) -> Seq<EntryV>
    decreases files.len(),
{
    if files.len() == 0 {
        Seq::empty()
    } else {
        upsert(scan_entries(files.drop_last()), entry_of_file(files.last()))
    }
}

/// The total number of wiki-link occurrences over all of `files`.
pub open spec fn files_total_links(files: Seq<FileV>) -> nat
    decreases files.len(),
{
    if files.len() == 0 {
        0
    } else {
        files_total_links(files.drop_last()) + spec_wiki_links(files.last().content).len()
    }
}

/// The ids of the nodes marked as phantoms.
pub open spec fn phantom_marks(nodes: Seq<NodeV>) -> Set<Seq<char>>
    decreases nodes.len(),
{
    if nodes.len() == 0 {
        Set::empty()
    } else if nodes.last().group == phantom_group() {
        phantom_marks(nodes.drop_last()).insert(nodes.last().id)
    } else {
        phantom_marks(nodes.drop_last())
    }
}

proof fn lemma_files_total_links_take(files: Seq<FileV>, k: int)
    requires
        0 <= k <= files.len(),
    ensures
        files_total_links(files.take(k)) <= files_total_links(files),
    decreases files.len(),
{
    if k == files.len() {
        assert(files.take(k) =~= files);
    } else {
        assert(files.drop_last().take(k) =~= files.take(k));
        lemma_files_total_links_take(files.drop_last(), k);
    }
}

/// The cache for tracking graph state and computing deltas.
pub struct GraphCache {
    entries: Vec<CacheEntry>,
    phantoms: Vec<String>,
}

impl View for GraphCache {
    type V = CacheV;

    closed spec fn view(&self) -> CacheV {
        CacheV {
            entries: self.entries.deep_view(),
            phantoms: self.phantoms.deep_view().to_set(),
        }
    }
}

impl GraphCache {
    /// Internal representation invariant: the backing vectors hold each name
    /// at most once.
    pub closed spec fn inv(&self) -> bool {
        &&& self.entries.deep_view().map_values(|e: EntryV| e.name).no_duplicates()
        &&& self.phantoms.deep_view().no_duplicates()
    }

    /// Well-formedness: entry names are unique and the stored references
    /// number at most `usize::MAX` in total, so that counting cannot
    /// overflow.
    pub open spec fn wf(&self) -> bool {
        &&& self.inv()
        &&& entry_names(self@.entries).no_duplicates()
        &&& total_links(self@.entries) <= usize::MAX
    }

    /// Creates an empty cache.
    pub fn new() -> (c: GraphCache)
        ensures
            c.wf(),
            c@.entries == Seq::<EntryV>::empty(),
            c@.phantoms == Set::<Seq<char>>::empty(),
    {
        let c = GraphCache { entries: Vec::new(), phantoms: Vec::new() };
        proof {
            assert(c@.entries =~= Seq::<EntryV>::empty());
            assert(c.phantoms.deep_view() =~= Seq::<Seq<char>>::empty());
            assert(c@.phantoms =~= Set::<Seq<char>>::empty());
            assert(c@.entries.map_values(|e: EntryV| e.name) =~= Seq::<Seq<char>>::empty());
        }
        c
    }

    /// Finds the first entry named `key`, if any.
    fn find_entry(&self, key: &String) -> (r: Option<usize>)
        ensures
            (match r {
                Some(i) => has_doc(self@.entries, key@) && 0 <= i < self@.entries.len()
                    && i as int == doc_index(self@.entries, key@),
                None => !has_doc(self@.entries, key@),
            }),
    {
        let ghost es = self@.entries;
        let mut k: usize = 0;
        while k < self.entries.len()
            invariant
                es == self@.entries,
                k <= self.entries.len(),
                es.len() == self.entries.len(),
                forall|j: int| 0 <= j < k ==> es[j].name != key@,
            decreases self.entries.len() - k,
        {
            proof {
                assert(es[k as int] == self.entries@[k as int].deep_view());
            }
            if self.entries[k].name == *key {
                proof {
                    lemma_first_match(es, key@, k as int);
                }
                return Some(k);
            }
            k = k + 1;
        }
        assert(!has_doc(es, key@));
        None
    }

    /// Whether `id` names a currently known document.
    pub fn node_exists(&self, id: &str) -> (r: bool)
        ensures
            r == has_doc(self@.entries, id@),
    {
        let key = id.to_owned();
        match self.find_entry(&key) {
            Some(_) => true,
            None => false,
        }
    }

    /// Whether `id` is currently materialized as a phantom node.
    pub fn is_phantom(&self, id: &str) -> (r: bool)
        ensures
            r == self@.phantoms.contains(id@),
    {
        let ghost ps = self.phantoms.deep_view();
        let key = id.to_owned();
        let mut k: usize = 0;
        while k < self.phantoms.len()
            invariant
                ps == self.phantoms.deep_view(),
                k <= self.phantoms.len(),
                ps.len() == self.phantoms.len(),
                key@ == id@,
                forall|j: int| 0 <= j < k ==> ps[j] != id@,
            decreases self.phantoms.len() - k,
        {
            proof {
                assert(ps[k as int] == self.phantoms@[k as int]@);
            }
            if self.phantoms[k] == key {
                assert(ps.contains(id@));
                return true;
            }
            k = k + 1;
        }
        assert(!ps.contains(id@));
        false
    }

    /// The outgoing wiki-links stored for `file_name`; empty if unknown.
    pub fn get_links(&self, file_name: &str) -> (r: Vec<String>)
        ensures
            r.deep_view() == links_of(self@.entries, file_name@),
    {
        broadcast use vstd::std_specs::vec::vec_clone_deep_view_proof;

        let key = file_name.to_owned();
        match self.find_entry(&key) {
            Some(i) => {
                proof {
                    lemma_doc_index(self@.entries, file_name@);
                    assert(self@.entries[i as int] == self.entries@[i as int].deep_view());
                }
                self.entries[i].links.clone()
            },
            None => {
                proof {
                    lemma_doc_absent(self@.entries, file_name@);
                }
                let r: Vec<String> = Vec::new();
                proof {
                    assert(r.deep_view() =~= Seq::<Seq<char>>::empty());
                }
                r
            },
        }
    }

    /// Counts the incoming references to `target`: how often it occurs across
    /// all stored outgoing lists, with multiplicity.
    pub fn count_incoming_links(&self, target: &str) -> (r: usize)
        requires
            self.wf(),
        ensures
            r as nat == total_count(self@.entries, target@),
    {
        let ghost es = self@.entries;
        let mut r: usize = 0;
        let mut k: usize = 0;
        proof {
            assert(es.take(0) =~= Seq::<EntryV>::empty());
            assert(total_links(Seq::<EntryV>::empty()) == 0);
        }
        while k < self.entries.len()
            invariant
                self.wf(),
                es == self@.entries,
                k <= self.entries.len(),
                es.len() == self.entries.len(),
                r as nat == total_count(es.take(k as int), target@),
                r as nat <= total_links(es.take(k as int)),
            decreases self.entries.len() - k,
        {
            proof {
                assert(es[k as int] == self.entries@[k as int].deep_view());
                assert(es =~= es.take(k + 1) + es.skip(k + 1));
                lemma_total_links_concat(es.take(k + 1), es.skip(k + 1));
                assert(es.take(k + 1) =~= es.take(k as int).push(es[k as int]));
                lemma_total_links_push(es.take(k as int), es[k as int]);
                lemma_total_count_push(es.take(k as int), es[k as int], target@);
            }
            let row = &self.entries[k].links;
            let ghost row_v = es[k as int].links;
            assert(row.deep_view() == row_v);
            let key = target.to_owned();
            let mut j: usize = 0;
            let mut c: usize = 0;
            proof {
                assert(row_v.take(0) =~= Seq::<Seq<char>>::empty());
            }
            while j < row.len()
                invariant
                    j <= row.len(),
                    c <= j,
                    row.deep_view() == row_v,
                    row_v.len() == row.len(),
                    key@ == target@,
                    c as nat == count_in(row_v.take(j as int), target@),
                decreases row.len() - j,
            {
                proof {
                    assert(row_v[j as int] == row@[j as int]@);
                    assert(row_v.take(j + 1) =~= row_v.take(j as int).push(row_v[j as int]));
                    lemma_count_in_push(row_v.take(j as int), row_v[j as int], target@);
                }
                if row[j] == key {
                    c = c + 1;
                }
                j = j + 1;
            }
            proof {
                assert(row_v.take(row.len() as int) =~= row_v);
                lemma_count_in_le(row_v, target@);
            }
            r = r + c;
            k = k + 1;
        }
        proof {
            assert(es.take(self.entries.len() as int) =~= es);
        }
        r
    }

    /// The total number of stored references over all entries; callers use it
    /// to check that an addition cannot overflow the count.
    pub fn total_link_count(&self) -> (r: usize)
        requires
            self.wf(),
        ensures
            r as nat == total_links(self@.entries),
    {
        let ghost es = self@.entries;
        let mut r: usize = 0;
        let mut k: usize = 0;
        proof {
            assert(es.take(0) =~= Seq::<EntryV>::empty());
            assert(total_links(Seq::<EntryV>::empty()) == 0);
        }
        while k < self.entries.len()
            invariant
                self.wf(),
                es == self@.entries,
                k <= self.entries.len(),
                es.len() == self.entries.len(),
                r as nat == total_links(es.take(k as int)),
            decreases self.entries.len() - k,
        {
            proof {
                assert(es[k as int] == self.entries@[k as int].deep_view());
                assert(es =~= es.take(k + 1) + es.skip(k + 1));
                lemma_total_links_concat(es.take(k + 1), es.skip(k + 1));
                assert(es.take(k + 1) =~= es.take(k as int).push(es[k as int]));
                lemma_total_links_push(es.take(k as int), es[k as int]);
            }
            r = r + self.entries[k].links.len();
            k = k + 1;
        }
        proof {
            assert(es.take(self.entries.len() as int) =~= es);
        }
        r
    }

    /// Adds or replaces the entry for `name`, and ends any phantom status of
    /// that id.
    pub fn add_file(&mut self, name: &str, path: &str, links: &Vec<String>, tags: &Vec<String>)
        requires
            old(self).wf(),
            total_links(old(self)@.entries) + links@.len() <= usize::MAX,
        ensures
            final(self).wf(),
            final(self)@.phantoms == old(self)@.phantoms.remove(name@),
            total_links(final(self)@.entries) <= total_links(old(self)@.entries) + links@.len(),
            ({
                let e = (EntryV {
                    name: name@,
                    path: path@,
                    links: links.deep_view(),
                    tags: tags.deep_view(),
                });
                final(self)@.entries == if has_doc(old(self)@.entries, name@) {
                    old(self)@.entries.update(doc_index(old(self)@.entries, name@), e)
                } else {
                    old(self)@.entries.push(e)
                }
            }),
    {
        broadcast use vstd::std_specs::vec::vec_clone_deep_view_proof;

        let ghost es = self@.entries;
        let key = name.to_owned();
        let entry = CacheEntry {
            name: name.to_owned(),
            path: path.to_owned(),
            links: links.clone(),
            tags: tags.clone(),
        };
        let ghost ev = entry@;
        assert(ev.links =~= links.deep_view());
        assert(ev.tags =~= tags.deep_view());
        let found = self.find_entry(&key);
        match found {
            Some(i) => {
                proof {
                    lemma_doc_index(es, name@);
                    lemma_total_links_update(es, i as int, ev);
                }
                self.entries.set(i, entry);
                proof {
                    assert(self@.entries =~= es.update(i as int, ev));
                    assert(entry_names(self@.entries) =~= entry_names(es));
                    assert(self.inv()) by {
                        assert(self.entries.deep_view().map_values(|e: EntryV| e.name)
                            =~= es.map_values(|e: EntryV| e.name));
                    }
                }
            },
            None => {
                proof {
                    lemma_total_links_push(es, ev);
                }
                self.entries.push(entry);
                proof {
                    assert(self@.entries =~= es.push(ev));
                    assert(entry_names(self@.entries) =~= entry_names(es).push(name@));
                    assert forall|j: int|
                        0 <= j < entry_names(es).len() implies entry_names(es)[j] != name@ by {
                        assert(es[j].name == entry_names(es)[j]);
                    }
                    assert(entry_names(self@.entries).no_duplicates());
                    assert(self.inv()) by {
                        assert(self.entries.deep_view().map_values(|e: EntryV| e.name)
                            =~= entry_names(self@.entries));
                    }
                }
            },
        }
        self.remove_phantom_inner(&key);
    }

    /// Removes `key` from the phantom vector, if present.
    fn remove_phantom_inner(&mut self, key: &String)
        requires
            old(self).inv(),
        ensures
            final(self).inv(),
            final(self)@.entries == old(self)@.entries,
            final(self)@.phantoms == old(self)@.phantoms.remove(key@),
            final(self).entries == old(self).entries,
    {
        let ghost ps = self.phantoms.deep_view();
        let mut k: usize = 0;
        while k < self.phantoms.len()
            invariant
                old(self).inv(),
                self.entries == old(self).entries,
                self.phantoms == old(self).phantoms,
                ps == self.phantoms.deep_view(),
                k <= self.phantoms.len(),
                ps.len() == self.phantoms.len(),
                forall|j: int| 0 <= j < k ==> ps[j] != key@,
            decreases self.phantoms.len() - k,
        {
            proof {
                assert(ps[k as int] == self.phantoms@[k as int]@);
            }
            if self.phantoms[k] == *key {
                proof {
                    assert(old(self).inv());
                    lemma_remove_to_set(ps, k as int);
                }
                self.phantoms.remove(k);
                proof {
                    assert(self.phantoms.deep_view() =~= ps.remove(k as int));
                }
                return ;
            }
            k = k + 1;
        }
        proof {
            assert(!ps.contains(key@));
            assert(!ps.to_set().contains(key@));
            assert(self@.phantoms =~= old(self)@.phantoms.remove(key@));
        }
    }

    /// Replaces the stored outgoing list of the document `name`.
    pub fn update_links(&mut self, name: &str, links: &Vec<String>)
        requires
            old(self).wf(),
            has_doc(old(self)@.entries, name@),
            total_links(old(self)@.entries) + links@.len() <= usize::MAX,
        ensures
            final(self).wf(),
            final(self)@.phantoms == old(self)@.phantoms,
            final(self)@.entries == old(self)@.entries.update(
                doc_index(old(self)@.entries, name@),
                (EntryV {
                    links: links.deep_view(),
                    ..old(self)@.entries[doc_index(old(self)@.entries, name@)]
                }),
            ),
    {
        broadcast use vstd::std_specs::vec::vec_clone_deep_view_proof;

        let ghost es = self@.entries;
        let key = name.to_owned();
        let found = self.find_entry(&key);
        match found {
            Some(i) => {
                proof {
                    lemma_doc_index(es, name@);
                    assert(es[i as int] == self.entries@[i as int].deep_view());
                }
                let old_entry = &self.entries[i];
                let entry = CacheEntry {
                    name: old_entry.name.clone(),
                    path: old_entry.path.clone(),
                    links: links.clone(),
                    tags: old_entry.tags.clone(),
                };
                let ghost ev = entry@;
                proof {
                    assert(ev =~~= (EntryV { links: links.deep_view(), ..es[i as int] }));
                    lemma_total_links_update(es, i as int, ev);
                }
                self.entries.set(i, entry);
                proof {
                    assert(self@.entries =~= es.update(i as int, ev));
                    assert(entry_names(self@.entries) =~= entry_names(es));
                    assert(self.inv()) by {
                        assert(self.entries.deep_view().map_values(|e: EntryV| e.name)
                            =~= es.map_values(|e: EntryV| e.name));
                    }
                }
            },
            None => {
                proof {
                    assert(false);
                }
            },
        }
    }

    /// Replaces the stored tags of the document `name`.
    pub fn update_hashtags(&mut self, name: &str, tags: &Vec<String>)
        requires
            old(self).wf(),
            has_doc(old(self)@.entries, name@),
        ensures
            final(self).wf(),
            final(self)@.phantoms == old(self)@.phantoms,
            final(self)@.entries == old(self)@.entries.update(
                doc_index(old(self)@.entries, name@),
                (EntryV {
                    tags: tags.deep_view(),
                    ..old(self)@.entries[doc_index(old(self)@.entries, name@)]
                }),
            ),
    {
        broadcast use vstd::std_specs::vec::vec_clone_deep_view_proof;

        let ghost es = self@.entries;
        let key = name.to_owned();
        let found = self.find_entry(&key);
        match found {
            Some(i) => {
                proof {
                    lemma_doc_index(es, name@);
                    assert(es[i as int] == self.entries@[i as int].deep_view());
                }
                let old_entry = &self.entries[i];
                let entry = CacheEntry {
                    name: old_entry.name.clone(),
                    path: old_entry.path.clone(),
                    links: old_entry.links.clone(),
                    tags: tags.clone(),
                };
                let ghost ev = entry@;
                proof {
                    assert(ev =~~= (EntryV { tags: tags.deep_view(), ..es[i as int] }));
                    lemma_total_links_update(es, i as int, ev);
                }
                self.entries.set(i, entry);
                proof {
                    assert(self@.entries =~= es.update(i as int, ev));
                    assert(entry_names(self@.entries) =~= entry_names(es));
                    assert(self.inv()) by {
                        assert(self.entries.deep_view().map_values(|e: EntryV| e.name)
                            =~= es.map_values(|e: EntryV| e.name));
                    }
                }
            },
            None => {
                proof {
                    assert(false);
                }
            },
        }
    }

    /// Removes the document `name` from the index entirely; phantom status is
    /// untouched.
    pub fn remove_file(&mut self, name: &str)
        requires
            old(self).wf(),
        ensures
            final(self).wf(),
            final(self)@.phantoms == old(self)@.phantoms,
            final(self)@.entries == if has_doc(old(self)@.entries, name@) {
                old(self)@.entries.remove(doc_index(old(self)@.entries, name@))
            } else {
                old(self)@.entries
            },
    {
        let ghost es = self@.entries;
        let key = name.to_owned();
        let found = self.find_entry(&key);
        match found {
            Some(i) => {
                proof {
                    lemma_doc_index(es, name@);
                    lemma_total_links_remove(es, i as int);
                }
                self.entries.remove(i);
                proof {
                    assert(self@.entries =~= es.remove(i as int));
                    let names_old = entry_names(es);
                    let names_new = entry_names(self@.entries);
                    assert(names_new =~= names_old.remove(i as int));
                    assert(forall|j: int| 0 <= j < i ==> names_new[j] == names_old[j]);
                    assert(forall|j: int|
                        i <= j < names_new.len() ==> names_new[j] == names_old[j + 1]);
                    assert forall|a: int, b: int|
                        0 <= a < b < names_new.len() implies names_new[a] != names_new[b] by {
                        if b < i {
                        } else if a < i {
                            assert(names_new[a] == names_old[a]);
                            assert(names_new[b] == names_old[b + 1]);
                        } else {
                            assert(names_new[a] == names_old[a + 1]);
                            assert(names_new[b] == names_old[b + 1]);
                        }
                    }
                    assert(self.inv()) by {
                        assert(self.entries.deep_view().map_values(|e: EntryV| e.name)
                            =~= names_new);
                    }
                }
            },
            None => {
            },
        }
    }

    /// Marks `id` as a phantom node.
    pub fn add_phantom(&mut self, id: &str)
        requires
            old(self).wf(),
        ensures
            final(self).wf(),
            final(self)@.entries == old(self)@.entries,
            final(self)@.phantoms == old(self)@.phantoms.insert(id@),
    {
        let ghost ps = self.phantoms.deep_view();
        let key = id.to_owned();
        if self.is_phantom(id) {
            proof {
                assert(self@.phantoms =~= old(self)@.phantoms.insert(id@));
            }
        } else {
            assert(!ps.contains(id@));
            self.phantoms.push(key);
            proof {
                assert(self.phantoms.deep_view() =~= ps.push(id@));
                ps.lemma_push_to_set_commute(id@);
                assert(self@.phantoms =~= old(self)@.phantoms.insert(id@));
                assert(self.phantoms.deep_view().no_duplicates());
            }
        }
    }

    /// Clears the phantom status of `id`.
    pub fn remove_phantom(&mut self, id: &str)
        requires
            old(self).wf(),
        ensures
            final(self).wf(),
            final(self)@.entries == old(self)@.entries,
            final(self)@.phantoms == old(self)@.phantoms.remove(id@),
    {
        let key = id.to_owned();
        self.remove_phantom_inner(&key);
    }

    /// All currently known document names, in insertion order.
    pub fn get_all_file_names(&self) -> (r: Vec<String>)
        ensures
            r.deep_view() == entry_names(self@.entries),
    {
        let ghost es = self@.entries;
        let mut r: Vec<String> = Vec::new();
        let mut k: usize = 0;
        proof {
            assert(r.deep_view() =~= entry_names(es).take(0));
        }
        while k < self.entries.len()
            invariant
                es == self@.entries,
                k <= self.entries.len(),
                es.len() == self.entries.len(),
                r.deep_view() == entry_names(es).take(k as int),
            decreases self.entries.len() - k,
        {
            proof {
                assert(es[k as int] == self.entries@[k as int].deep_view());
            }
            let ghost r_dv = r.deep_view();
            r.push(self.entries[k].name.clone());
            k = k + 1;
            proof {
                assert(r.deep_view() =~= r_dv.push(es[k - 1].name));
                assert(entry_names(es).take(k as int) =~= entry_names(es).take(k - 1).push(
                    es[k - 1].name,
                ));
            }
        }
        proof {
            assert(entry_names(es).take(self.entries.len() as int) =~= entry_names(es));
        }
        r
    }

    /// Whether the path's stem names a currently known document.
    pub fn has_file_by_path(&self, path: &str) -> (r: bool)
        ensures
            r == (match spec_stem(path@) {
                Some(id) => has_doc(self@.entries, id),
                None => false,
            }),
    {
        match stem_of_path(path) {
            Some(name) => self.node_exists(name.as_str()),
            None => false,
        }
    }
}

impl GraphCache {
    /// Builds the index that a snapshot of `files` corresponds to: one entry
    /// per file (a repeated name keeps the last content), and the phantom
    /// marks taken from `graph`.
    pub fn from_graph_data(graph: &GraphData, files: &[MarkdownFile]) -> (c: GraphCache)
        requires
            files_total_links(files.deep_view()) <= usize::MAX,
        ensures
            c.wf(),
            c@.entries == scan_entries(files.deep_view()),
            c@.phantoms == phantom_marks(graph.nodes.deep_view()),
    {
        let ghost fs = files.deep_view();
        let mut c = GraphCache::new();
        let n = files.len();
        proof {
            assert(fs.len() == files@.len());
            assert(fs.take(0) =~= Seq::<FileV>::empty());
            assert(c@.entries =~= scan_entries(fs.take(0)));
        }
        let mut k: usize = 0;
        while k < n
            invariant
                n == files@.len(),
                k <= n,
                fs == files.deep_view(),
                files_total_links(fs) <= usize::MAX,
                c.wf(),
                c@.entries == scan_entries(fs.take(k as int)),
                c@.phantoms == Set::<Seq<char>>::empty(),
                total_links(c@.entries) <= files_total_links(fs.take(k as int)),
            decreases n - k,
        {
            let f = &files[k];
            proof {
                assert(fs[k as int] == files@[k as int].deep_view());
                assert(fs.take(k + 1).drop_last() =~= fs.take(k as int));
                assert(fs.take(k + 1).last() == fs[k as int]);
                lemma_files_total_links_take(fs, k + 1);
            }
            let p = parse_markdown(f.content.as_str());
            let ghost before = c@.entries;
            c.add_file(f.name.as_str(), f.path.as_str(), &p.wiki_links, &p.hashtags);
            k = k + 1;
            proof {
                let e = entry_of_file(fs[k - 1]);
                assert((EntryV {
                    name: fs[k - 1].name,
                    path: fs[k - 1].path,
                    links: p.wiki_links.deep_view(),
                    tags: p.hashtags.deep_view(),
                }) =~~= e);
                assert(c@.entries == upsert(before, e));
                assert(c@.entries =~= scan_entries(fs.take(k as int)));
                if has_doc(before, e.name) {
                    lemma_doc_index(before, e.name);
                    lemma_total_links_update(before, doc_index(before, e.name), e);
                } else {
                    lemma_total_links_push(before, e);
                }
                assert(c@.phantoms =~= Set::<Seq<char>>::empty());
            }
        }
        proof {
            assert(fs.take(n as int) =~= fs);
        }

        let ghost ns = graph.nodes.deep_view();
        let phantom_key = String::from_str("phantom");
        let m_total = graph.nodes.len();
        let mut m: usize = 0;
        proof {
            assert(ns.take(0) =~= Seq::<NodeV>::empty());
            assert(c@.phantoms =~= phantom_marks(ns.take(0)));
        }
        while m < m_total
            invariant
                m_total == graph.nodes@.len(),
                m <= m_total,
                ns == graph.nodes.deep_view(),
                phantom_key@ == "phantom"@,
                c.wf(),
                c@.entries == scan_entries(fs),
                fs == files.deep_view(),
                c@.phantoms == phantom_marks(ns.take(m as int)),
            decreases m_total - m,
        {
            let node = &graph.nodes[m];
            proof {
                assert(ns[m as int] == graph.nodes@[m as int].deep_view());
                assert(ns.take(m + 1).drop_last() =~= ns.take(m as int));
                assert(ns.take(m + 1).last() == ns[m as int]);
            }
            match &node.group {
                Some(g) => {
                    if *g == phantom_key {
                        assert(ns[m as int].group == phantom_group());
                        c.add_phantom(node.id.as_str());
                    } else {
                        assert(ns[m as int].group != phantom_group());
                    }
                },
                None => {
                    assert(ns[m as int].group != phantom_group());
                },
            }
            m = m + 1;
            proof {
                assert(c@.phantoms =~= phantom_marks(ns.take(m as int)));
            }
        }
        proof {
            assert(ns.take(m_total as int) =~= ns);
        }
        c
    }
}

} // verus!

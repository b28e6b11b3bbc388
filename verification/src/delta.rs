//! The delta engine: pure per-event transitions of the reference index.
//!
//! Each handler takes the affected path, the freshly extracted plain values,
//! and the shared index, and returns the minimal set of node and edge
//! additions and removals while mutating the index accordingly. Reading and
//! parsing file content is the caller's job.

use vstd::prelude::*;
use crate::graph::{Node, Edge, NodeV, EdgeV, phantom_node_v, contains_string};
use crate::cache::{
    GraphCache, CacheV, EntryV, has_doc, links_of, count_in, total_count, total_links, doc_index,
    lemma_count_in_push, lemma_doc_index, lemma_doc_absent, lemma_total_count_ge_entry,
};
use crate::scanner::{spec_stem, stem_of_path};

verus! {

/// One computed unit of change: ordered lists of nodes and edges to add and
/// remove.
#[derive(Debug)]
pub struct GraphDelta {
    pub nodes_added: Vec<Node>,
    pub nodes_removed: Vec<String>,
    pub nodes_updated: Vec<Node>,
    pub edges_added: Vec<Edge>,
    pub edges_removed: Vec<Edge>,
}

/// The mathematical value of a `GraphDelta`.
#[verifier::ext_equal]
pub ghost struct DeltaV {
    pub nodes_added: Seq<NodeV>,
    pub nodes_removed: Seq<Seq<char>>,
    pub nodes_updated: Seq<NodeV>,
    pub edges_added: Seq<EdgeV>,
    pub edges_removed: Seq<EdgeV>,
}

impl View for GraphDelta {
    type V = DeltaV;

    open spec fn view(&self) -> DeltaV {
        DeltaV {
            nodes_added: self.nodes_added.deep_view(),
            nodes_removed: self.nodes_removed.deep_view(),
            nodes_updated: self.nodes_updated.deep_view(),
            edges_added: self.edges_added.deep_view(),
            edges_removed: self.edges_removed.deep_view(),
        }
    }
}

/// The delta with no change at all.
pub open spec fn empty_delta() -> DeltaV {
    DeltaV {
        nodes_added: Seq::empty(),
        nodes_removed: Seq::empty(),
        nodes_updated: Seq::empty(),
        edges_added: Seq::empty(),
        edges_removed: Seq::empty(),
    }
}

impl Default for GraphDelta {
    /// Creates an empty delta.
    fn default() -> (d: GraphDelta)
        ensures
            d@ == empty_delta(),
    {
        let d = GraphDelta {
            nodes_added: Vec::new(),
            nodes_removed: Vec::new(),
            nodes_updated: Vec::new(),
            edges_added: Vec::new(),
            edges_removed: Vec::new(),
        };
        proof {
            assert(d@ =~~= empty_delta());
        }
        d
    }
}

impl GraphDelta {
    /// Whether the delta holds no change; such a delta is never emitted.
    pub fn is_empty(&self) -> (r: bool)
        ensures
            r == (self@ == empty_delta()),
    {
        let r = self.nodes_added.len() == 0 && self.nodes_removed.len() == 0
            && self.nodes_updated.len() == 0 && self.edges_added.len() == 0
            && self.edges_removed.len() == 0;
        proof {
            assert(self@.nodes_added.len() == self.nodes_added@.len());
            assert(self@.nodes_removed.len() == self.nodes_removed@.len());
            assert(self@.nodes_updated.len() == self.nodes_updated@.len());
            assert(self@.edges_added.len() == self.edges_added@.len());
            assert(self@.edges_removed.len() == self.edges_removed@.len());
            if r {
                assert(self@ =~~= empty_delta());
            }
        }
        r
    }
}

/// The phantom ids freshly materialized while the edges for `links` are
/// added by document `id`, in first-occurrence order: one per referenced
/// target that names no document and is not already marked. A self-reference
/// creates no phantom: the referencing document itself backs that id.
pub open spec fn new_phantoms(
    links: Seq<Seq<char>>,
    id: Seq<char>,
    entries: Seq<EntryV>,
    ph: Set<Seq<char>>,
) -> Seq<Seq<char>>
    decreases links.len(),
{
    if links.len() == 0 {
        Seq::empty()
    } else {
        let l = links[0];
        if !has_doc(entries, l) && !ph.contains(l) && l != id {
            seq![l] + new_phantoms(links.drop_first(), id, entries, ph.insert(l))
        } else {
            new_phantoms(links.drop_first(), id, entries, ph)
        }
    }
}

/// The phantom set after document `id` adds the edges for `links`, starting
/// from `ph`; a self-reference is never marked.
pub open spec fn phantoms_after(
    links: Seq<Seq<char>>,
    id: Seq<char>,
    entries: Seq<EntryV>,
    ph: Set<Seq<char>>,
) -> Set<Seq<char>>
    decreases links.len(),
{
    if links.len() == 0 {
        ph
    } else {
        phantoms_after(
            links.drop_first(),
            id,
            entries,
            if !has_doc(entries, links[0]) && links[0] != id {
                ph.insert(links[0])
            } else {
                ph
            },
        )
    }
}

/// The first occurrence of each element of `a` that occurs nowhere in `b` and
/// not in `seen`: the reference diff taken as sets, in `a`'s order.
pub open spec fn diff_list(
    a: Seq<Seq<char>>,
    b: Seq<Seq<char>>,
    seen: Set<Seq<char>>,
) -> Seq<Seq<char>>
    decreases a.len(),
{
    if a.len() == 0 {
        Seq::empty()
    } else {
        let x = a[0];
        if !b.contains(x) && !seen.contains(x) {
            seq![x] + diff_list(a.drop_first(), b, seen.insert(x))
        } else {
            diff_list(a.drop_first(), b, seen)
        }
    }
}

/// The phantom ids retired while the affected document's edges for `xs` are
/// removed, in order: one per target that is phantom at that point and whose
/// whole incoming count, taken before the stored list `owned` is replaced,
/// comes from `owned` alone - its last remaining references are the ones
/// going away.
pub open spec fn drop_phantoms(
    xs: Seq<Seq<char>>,
    owned: Seq<Seq<char>>,
    entries: Seq<EntryV>,
    ph: Set<Seq<char>>,
) -> Seq<Seq<char>>
    decreases xs.len(),
{
    if xs.len() == 0 {
        Seq::empty()
    } else {
        let x = xs[0];
        if ph.contains(x) && total_count(entries, x) == count_in(owned, x) {
            seq![x] + drop_phantoms(xs.drop_first(), owned, entries, ph.remove(x))
        } else {
            drop_phantoms(xs.drop_first(), owned, entries, ph)
        }
    }
}

/// The phantom set after the edges for `xs` are removed, starting from `ph`.
pub open spec fn phantoms_after_drop(
    xs: Seq<Seq<char>>,
    owned: Seq<Seq<char>>,
    entries: Seq<EntryV>,
    ph: Set<Seq<char>>,
) -> Set<Seq<char>>
    decreases xs.len(),
{
    if xs.len() == 0 {
        ph
    } else {
        let x = xs[0];
        if ph.contains(x) && total_count(entries, x) == count_in(owned, x) {
            phantoms_after_drop(xs.drop_first(), owned, entries, ph.remove(x))
        } else {
            phantoms_after_drop(xs.drop_first(), owned, entries, ph)
        }
    }
}

/// The document node a create event adds.
pub open spec fn created_node(
    id: Seq<char>,
    path: Seq<char>,
    value: nat,
    tags: Seq<Seq<char>>,
) -> NodeV {
    NodeV { id: id, label: id, value: value, group: None, file_path: path, hashtags: tags }
}

/// How a create event changes the index: the entry is appended; every
/// referenced id without a document becomes phantom, except the created id
/// itself, whose phantom status ends.
pub open spec fn create_transition(
    v: CacheV,
    id: Seq<char>,
    path: Seq<char>,
    links: Seq<Seq<char>>,
    tags: Seq<Seq<char>>,
) -> CacheV {
    CacheV {
        entries: v.entries.push(EntryV { name: id, path: path, links: links, tags: tags }),
        phantoms: phantoms_after(links, id, v.entries, v.phantoms.remove(id)),
    }
}

/// The delta a create event yields.
pub open spec fn create_delta(
    v: CacheV,
    id: Seq<char>,
    path: Seq<char>,
    links: Seq<Seq<char>>,
    tags: Seq<Seq<char>>,
) -> DeltaV {
    DeltaV {
        nodes_removed: if v.phantoms.contains(id) {
            seq![id]
        } else {
            Seq::empty()
        },
        nodes_added: seq![created_node(id, path, total_count(v.entries, id), tags)] + new_phantoms(
            links,
            id,
            v.entries,
            v.phantoms.remove(id),
        ).map_values(|t: Seq<char>| phantom_node_v(t, 1)),
        nodes_updated: Seq::empty(),
        edges_added: links.map_values(|l: Seq<char>| EdgeV { from: id, to: l }),
        edges_removed: Seq::empty(),
    }
}

/// How a modify event changes the index. If the reference sets are equal the
/// index is untouched; otherwise retired references may end phantom statuses,
/// new ones may create phantoms, and the stored list is replaced wholesale.
pub open spec fn modify_transition(v: CacheV, id: Seq<char>, new_links: Seq<Seq<char>>) -> CacheV {
    let old_links = links_of(v.entries, id);
    let removed = diff_list(old_links, new_links, Set::empty());
    let added = diff_list(new_links, old_links, Set::empty());
    if removed.len() == 0 && added.len() == 0 {
        v
    } else {
        CacheV {
            entries: v.entries.update(
                doc_index(v.entries, id),
                (EntryV { links: new_links, ..v.entries[doc_index(v.entries, id)] }),
            ),
            phantoms: phantoms_after(
                added,
                id,
                v.entries,
                phantoms_after_drop(removed, old_links, v.entries, v.phantoms),
            ),
        }
    }
}

/// The delta a modify event yields.
pub open spec fn modify_delta(v: CacheV, id: Seq<char>, new_links: Seq<Seq<char>>) -> DeltaV {
    let old_links = links_of(v.entries, id);
    let removed = diff_list(old_links, new_links, Set::empty());
    let added = diff_list(new_links, old_links, Set::empty());
    if removed.len() == 0 && added.len() == 0 {
        empty_delta()
    } else {
        DeltaV {
            nodes_removed: drop_phantoms(removed, old_links, v.entries, v.phantoms),
            nodes_added: new_phantoms(
                added,
                id,
                v.entries,
                phantoms_after_drop(removed, old_links, v.entries, v.phantoms),
            ).map_values(|t: Seq<char>| phantom_node_v(t, 1)),
            nodes_updated: Seq::empty(),
            edges_added: added.map_values(|l: Seq<char>| EdgeV { from: id, to: l }),
            edges_removed: removed.map_values(|l: Seq<char>| EdgeV { from: id, to: l }),
        }
    }
}

/// The incoming reference count of `id` taken from the other documents'
/// stored outgoing lists: the whole count minus what `id`'s own stored list
/// contributes.
pub open spec fn outside_count(v: CacheV, id: Seq<char>) -> int {
    total_count(v.entries, id) - count_in(links_of(v.entries, id), id)
}

/// How a delete event changes the index: the stored references go away and
/// may end phantom statuses; the entry is removed; the id itself becomes
/// phantom exactly when other documents still reference it.
pub open spec fn delete_transition(v: CacheV, id: Seq<char>) -> CacheV {
    let ls = links_of(v.entries, id);
    let ph1 = phantoms_after_drop(ls, ls, v.entries, v.phantoms);
    CacheV {
        entries: if has_doc(v.entries, id) {
            v.entries.remove(doc_index(v.entries, id))
        } else {
            v.entries
        },
        phantoms: if outside_count(v, id) > 0 {
            ph1.insert(id)
        } else {
            ph1
        },
    }
}

/// The delta a delete event yields: the re-added phantom carries the
/// remaining incoming count as its value.
pub open spec fn delete_delta(v: CacheV, id: Seq<char>) -> DeltaV {
    let ls = links_of(v.entries, id);
    DeltaV {
        nodes_removed: drop_phantoms(ls, ls, v.entries, v.phantoms) + seq![id],
        nodes_added: if outside_count(v, id) > 0 {
            seq![phantom_node_v(id, outside_count(v, id) as nat)]
        } else {
            Seq::empty()
        },
        nodes_updated: Seq::empty(),
        edges_added: Seq::empty(),
        edges_removed: ls.map_values(|l: Seq<char>| EdgeV { from: id, to: l }),
    }
}

/// Returns the first occurrence of each element of `a` that does not occur in
/// `b`: the set difference of the two reference lists, in `a`'s order.
fn diff_first_occurrence(a: &Vec<String>, b: &Vec<String>) -> (r: Vec<String>)
    ensures
        r.deep_view() == diff_list(a.deep_view(), b.deep_view(), Set::empty()),
{
    let ghost ad = a.deep_view();
    let ghost bd = b.deep_view();
    let mut r: Vec<String> = Vec::new();
    let mut k: usize = 0;
    proof {
        assert(ad.skip(0) =~= ad);
        assert(r.deep_view() =~= Seq::<Seq<char>>::empty());
        assert(r.deep_view().to_set() =~= Set::<Seq<char>>::empty());
    }
    while k < a.len()
        invariant
            ad == a.deep_view(),
            bd == b.deep_view(),
            k <= a.len(),
            ad.len() == a.len(),
            diff_list(ad, bd, Set::empty()) == r.deep_view() + diff_list(
                ad.skip(k as int),
                bd,
                r.deep_view().to_set(),
            ),
        decreases a.len() - k,
    {
        proof {
            assert(ad[k as int] == a@[k as int]@);
            assert(ad.skip(k as int)[0] == ad[k as int]);
            assert(ad.skip(k as int).drop_first() =~= ad.skip(k + 1));
        }
        let x = &a[k];
        if !contains_string(b, x) && !contains_string(&r, x) {
            assert(!bd.contains(x@));
            assert(!r.deep_view().to_set().contains(x@));
            let ghost r_dv = r.deep_view();
            r.push(x.clone());
            proof {
                assert(r.deep_view() =~= r_dv.push(ad[k as int]));
                r_dv.lemma_push_to_set_commute(ad[k as int]);
                assert(r.deep_view().to_set() =~= r_dv.to_set().insert(ad[k as int]));
                assert(r_dv + diff_list(ad.skip(k as int), bd, r_dv.to_set()) =~= r.deep_view()
                    + diff_list(ad.skip(k + 1), bd, r.deep_view().to_set()));
            }
        } else {
            proof {
                let seen = r.deep_view().to_set();
                if bd.contains(ad[k as int]) {
                } else {
                    assert(r.deep_view().contains(ad[k as int]));
                    assert(seen.contains(ad[k as int]));
                }
                assert(diff_list(ad.skip(k as int), bd, seen) == diff_list(
                    ad.skip(k + 1),
                    bd,
                    seen,
                ));
            }
        }
        k = k + 1;
    }
    proof {
        assert(ad.skip(a.len() as int) =~= Seq::<Seq<char>>::empty());
        assert(diff_list(Seq::<Seq<char>>::empty(), bd, r.deep_view().to_set())
            == Seq::<Seq<char>>::empty());
        assert(r.deep_view() + Seq::<Seq<char>>::empty() =~= r.deep_view());
    }
    r
}

/// Appends one added edge per element of `xs`, and a phantom node plus a
/// phantom mark for each referenced target that names no document, is not yet
/// phantom, and is not the referencing document `id` itself.
fn add_reference_edges(id: &String, xs: &Vec<String>, cache: &mut GraphCache, delta: &mut GraphDelta)
    requires
        old(cache).wf(),
    ensures
        final(cache).wf(),
        final(cache)@.entries == old(cache)@.entries,
        final(cache)@.phantoms == phantoms_after(
            xs.deep_view(),
            id@,
            old(cache)@.entries,
            old(cache)@.phantoms,
        ),
        final(delta)@.edges_added == old(delta)@.edges_added + xs.deep_view().map_values(
            |l: Seq<char>| EdgeV { from: id@, to: l },
        ),
        final(delta)@.nodes_added == old(delta)@.nodes_added + new_phantoms(
            xs.deep_view(),
            id@,
            old(cache)@.entries,
            old(cache)@.phantoms,
        ).map_values(|t: Seq<char>| phantom_node_v(t, 1)),
        final(delta)@.nodes_removed == old(delta)@.nodes_removed,
        final(delta)@.nodes_updated == old(delta)@.nodes_updated,
        final(delta)@.edges_removed == old(delta)@.edges_removed,
{
    let ghost v0 = cache@;
    let ghost ph0 = v0.phantoms;
    let ghost ld = xs.deep_view();
    let ghost sid = id@;
    let ghost ea0 = delta.edges_added.deep_view();
    let ghost na0 = delta.nodes_added.deep_view();
    let ghost mut emitted: Seq<Seq<char>> = Seq::empty();
    proof {
        assert(ld.skip(0) =~= ld);
        assert(emitted + new_phantoms(ld, sid, v0.entries, ph0) =~= new_phantoms(
            ld,
            sid,
            v0.entries,
            ph0,
        ));
        assert(emitted.map_values(|t: Seq<char>| phantom_node_v(t, 1)) =~= Seq::<NodeV>::empty());
        assert(na0 + emitted.map_values(|t: Seq<char>| phantom_node_v(t, 1)) =~= na0);
        assert(ea0 + ld.take(0).map_values(|l: Seq<char>| EdgeV { from: sid, to: l }) =~= ea0);
    }
    let mut k: usize = 0;
    while k < xs.len()
        invariant
            cache.wf(),
            cache@.entries == v0.entries,
            ld == xs.deep_view(),
            sid == id@,
            k <= xs.len(),
            ld.len() == xs.len(),
            new_phantoms(ld, sid, v0.entries, ph0) == emitted + new_phantoms(
                ld.skip(k as int),
                sid,
                v0.entries,
                cache@.phantoms,
            ),
            phantoms_after(ld, sid, v0.entries, ph0) == phantoms_after(
                ld.skip(k as int),
                sid,
                v0.entries,
                cache@.phantoms,
            ),
            delta.nodes_added.deep_view() == na0 + emitted.map_values(
                |t: Seq<char>| phantom_node_v(t, 1),
            ),
            delta.edges_added.deep_view() == ea0 + ld.take(k as int).map_values(
                |l: Seq<char>| EdgeV { from: sid, to: l },
            ),
            delta.nodes_removed.deep_view() == old(delta)@.nodes_removed,
            delta.nodes_updated.deep_view() == old(delta)@.nodes_updated,
            delta.edges_removed.deep_view() == old(delta)@.edges_removed,
        decreases xs.len() - k,
    {
        proof {
            assert(ld[k as int] == xs@[k as int]@);
            assert(ld.skip(k as int)[0] == ld[k as int]);
            assert(ld.skip(k as int).drop_first() =~= ld.skip(k + 1));
        }
        let link = &xs[k];
        let ghost ea = delta.edges_added.deep_view();
        delta.edges_added.push(Edge { from: id.clone(), to: link.clone() });
        proof {
            assert(delta.edges_added.deep_view() =~= ea.push(
                EdgeV { from: sid, to: ld[k as int] },
            ));
            assert(ea0 + ld.take(k + 1).map_values(|l: Seq<char>| EdgeV { from: sid, to: l })
                =~= ea.push(EdgeV { from: sid, to: ld[k as int] }));
        }
        if !cache.node_exists(link.as_str()) && !cache.is_phantom(link.as_str()) && *link != *id {
            let ghost ph_cur = cache@.phantoms;
            let ghost na = delta.nodes_added.deep_view();
            delta.nodes_added.push(Node::phantom(link.as_str()));
            cache.add_phantom(link.as_str());
            proof {
                emitted = emitted + seq![ld[k as int]];
                assert(delta.nodes_added.deep_view() =~= na.push(phantom_node_v(ld[k as int], 1)));
                assert(na0 + emitted.map_values(|t: Seq<char>| phantom_node_v(t, 1)) =~= na.push(
                    phantom_node_v(ld[k as int], 1),
                ));
                assert(new_phantoms(ld.skip(k as int), sid, v0.entries, ph_cur) == seq![
                    ld[k as int],
                ] + new_phantoms(ld.skip(k + 1), sid, v0.entries, ph_cur.insert(ld[k as int])));
                assert(emitted + new_phantoms(ld.skip(k + 1), sid, v0.entries, cache@.phantoms)
                    =~= emitted.drop_last() + new_phantoms(
                    ld.skip(k as int),
                    sid,
                    v0.entries,
                    ph_cur,
                ));
            }
        } else {
            proof {
                let ph_cur = cache@.phantoms;
                if !has_doc(v0.entries, ld[k as int]) && ld[k as int] != sid {
                    assert(ph_cur.contains(ld[k as int]));
                    assert(ph_cur.insert(ld[k as int]) =~= ph_cur);
                }
                assert(new_phantoms(ld.skip(k as int), sid, v0.entries, ph_cur) == new_phantoms(
                    ld.skip(k + 1),
                    sid,
                    v0.entries,
                    ph_cur,
                ));
                assert(phantoms_after(ld.skip(k as int), sid, v0.entries, ph_cur)
                    == phantoms_after(ld.skip(k + 1), sid, v0.entries, ph_cur));
            }
        }
        k = k + 1;
    }
    proof {
        assert(ld.skip(xs.len() as int) =~= Seq::<Seq<char>>::empty());
        assert(emitted + Seq::<Seq<char>>::empty() =~= emitted);
        assert(ld.take(xs.len() as int) =~= ld);
    }
}

/// Counts how often `t` occurs in `xs`.
fn count_occurrences(xs: &Vec<String>, t: &str) -> (r: usize)
    ensures
        r as nat == count_in(xs.deep_view(), t@),
{
    let ghost xd = xs.deep_view();
    let key = t.to_owned();
    let mut r: usize = 0;
    let mut k: usize = 0;
    proof {
        assert(xd.take(0) =~= Seq::<Seq<char>>::empty());
    }
    while k < xs.len()
        invariant
            xd == xs.deep_view(),
            k <= xs.len(),
            xd.len() == xs.len(),
            r <= k,
            key@ == t@,
            r as nat == count_in(xd.take(k as int), t@),
        decreases xs.len() - k,
    {
        proof {
            assert(xd[k as int] == xs@[k as int]@);
            assert(xd.take(k + 1) =~= xd.take(k as int).push(xd[k as int]));
            lemma_count_in_push(xd.take(k as int), xd[k as int], t@);
        }
        if xs[k] == key {
            r = r + 1;
        }
        k = k + 1;
    }
    proof {
        assert(xd.take(xs.len() as int) =~= xd);
    }
    r
}

/// Appends one removed edge per element of `xs`, and retires the phantom
/// status (with a removed node) of each target that is phantom and whose
/// whole incoming count comes from the affected document's stored list
/// `owned` alone: the references going away are its last.
fn remove_reference_edges(
    id: &String,
    xs: &Vec<String>,
    owned: &Vec<String>,
    cache: &mut GraphCache,
    delta: &mut GraphDelta,
)
    requires
        old(cache).wf(),
    ensures
        final(cache).wf(),
        final(cache)@.entries == old(cache)@.entries,
        final(cache)@.phantoms == phantoms_after_drop(
            xs.deep_view(),
            owned.deep_view(),
            old(cache)@.entries,
            old(cache)@.phantoms,
        ),
        final(delta)@.edges_removed == old(delta)@.edges_removed + xs.deep_view().map_values(
            |l: Seq<char>| EdgeV { from: id@, to: l },
        ),
        final(delta)@.nodes_removed == old(delta)@.nodes_removed + drop_phantoms(
            xs.deep_view(),
            owned.deep_view(),
            old(cache)@.entries,
            old(cache)@.phantoms,
        ),
        final(delta)@.nodes_added == old(delta)@.nodes_added,
        final(delta)@.nodes_updated == old(delta)@.nodes_updated,
        final(delta)@.edges_added == old(delta)@.edges_added,
{
    let ghost v0 = cache@;
    let ghost ph0 = v0.phantoms;
    let ghost ld = xs.deep_view();
    let ghost od = owned.deep_view();
    let ghost er0 = delta.edges_removed.deep_view();
    let ghost nr0 = delta.nodes_removed.deep_view();
    let ghost mut emitted: Seq<Seq<char>> = Seq::empty();
    proof {
        assert(ld.skip(0) =~= ld);
        assert(emitted + drop_phantoms(ld, od, v0.entries, ph0) =~= drop_phantoms(
            ld,
            od,
            v0.entries,
            ph0,
        ));
        assert(nr0 + emitted =~= nr0);
        assert(er0 + ld.take(0).map_values(|l: Seq<char>| EdgeV { from: id@, to: l }) =~= er0);
    }
    let mut k: usize = 0;
    while k < xs.len()
        invariant
            cache.wf(),
            cache@.entries == v0.entries,
            ld == xs.deep_view(),
            od == owned.deep_view(),
            k <= xs.len(),
            ld.len() == xs.len(),
            drop_phantoms(ld, od, v0.entries, ph0) == emitted + drop_phantoms(
                ld.skip(k as int),
                od,
                v0.entries,
                cache@.phantoms,
            ),
            phantoms_after_drop(ld, od, v0.entries, ph0) == phantoms_after_drop(
                ld.skip(k as int),
                od,
                v0.entries,
                cache@.phantoms,
            ),
            delta.nodes_removed.deep_view() == nr0 + emitted,
            delta.edges_removed.deep_view() == er0 + ld.take(k as int).map_values(
                |l: Seq<char>| EdgeV { from: id@, to: l },
            ),
            delta.nodes_added.deep_view() == old(delta)@.nodes_added,
            delta.nodes_updated.deep_view() == old(delta)@.nodes_updated,
            delta.edges_added.deep_view() == old(delta)@.edges_added,
        decreases xs.len() - k,
    {
        proof {
            assert(ld[k as int] == xs@[k as int]@);
            assert(ld.skip(k as int)[0] == ld[k as int]);
            assert(ld.skip(k as int).drop_first() =~= ld.skip(k + 1));
        }
        let link = &xs[k];
        let ghost er = delta.edges_removed.deep_view();
        delta.edges_removed.push(Edge { from: id.clone(), to: link.clone() });
        proof {
            assert(delta.edges_removed.deep_view() =~= er.push(
                EdgeV { from: id@, to: ld[k as int] },
            ));
            assert(er0 + ld.take(k + 1).map_values(|l: Seq<char>| EdgeV { from: id@, to: l })
                =~= er.push(EdgeV { from: id@, to: ld[k as int] }));
        }
        if cache.is_phantom(link.as_str()) {
            let ghost ph_cur = cache@.phantoms;
            let c = cache.count_incoming_links(link.as_str());
            let own = count_occurrences(owned, link.as_str());
            if c == own {
                let ghost nr = delta.nodes_removed.deep_view();
                delta.nodes_removed.push(link.clone());
                cache.remove_phantom(link.as_str());
                proof {
                    emitted = emitted + seq![ld[k as int]];
                    assert(delta.nodes_removed.deep_view() =~= nr.push(ld[k as int]));
                    assert(nr0 + emitted =~= nr.push(ld[k as int]));
                    assert(drop_phantoms(ld.skip(k as int), od, v0.entries, ph_cur) == seq![
                        ld[k as int],
                    ] + drop_phantoms(ld.skip(k + 1), od, v0.entries, ph_cur.remove(ld[k as int])));
                    assert(emitted + drop_phantoms(
                        ld.skip(k + 1),
                        od,
                        v0.entries,
                        cache@.phantoms,
                    ) =~= emitted.drop_last() + drop_phantoms(
                        ld.skip(k as int),
                        od,
                        v0.entries,
                        ph_cur,
                    ));
                }
            } else {
                proof {
                    assert(!(cache@.phantoms.contains(ld[k as int]) && total_count(
                        v0.entries,
                        ld[k as int],
                    ) == count_in(od, ld[k as int])));
                    assert(drop_phantoms(ld.skip(k as int), od, v0.entries, cache@.phantoms)
                        == drop_phantoms(ld.skip(k + 1), od, v0.entries, cache@.phantoms));
                    assert(phantoms_after_drop(
                        ld.skip(k as int),
                        od,
                        v0.entries,
                        cache@.phantoms,
                    ) == phantoms_after_drop(ld.skip(k + 1), od, v0.entries, cache@.phantoms));
                }
            }
        } else {
            proof {
                assert(drop_phantoms(ld.skip(k as int), od, v0.entries, cache@.phantoms)
                    == drop_phantoms(ld.skip(k + 1), od, v0.entries, cache@.phantoms));
                assert(phantoms_after_drop(ld.skip(k as int), od, v0.entries, cache@.phantoms)
                    == phantoms_after_drop(ld.skip(k + 1), od, v0.entries, cache@.phantoms));
            }
        }
        k = k + 1;
    }
    proof {
        assert(ld.skip(xs.len() as int) =~= Seq::<Seq<char>>::empty());
        assert(emitted + Seq::<Seq<char>>::empty() =~= emitted);
        assert(ld.take(xs.len() as int) =~= ld);
    }
}

/// Handles a file creation: retires the id's phantom status, adds the real
/// node with its current incoming count, adds one edge per reference and a
/// phantom node per reference into the void (a self-reference creates none),
/// then commits the entry.
///
/// The watch pipeline classifies an event as a create exactly when the index
/// has no entry for the id, which the first precondition records; the second
/// keeps the index's reference counter within `usize`.
pub fn handle_file_created(
    path: &str,
    links: &Vec<String>,
    tags: &Vec<String>,
    cache: &mut GraphCache,
) -> (r: Result<GraphDelta, String>)
    requires
        old(cache).wf(),
        spec_stem(path@) matches Some(id) ==> !has_doc(old(cache)@.entries, id),
        total_links(old(cache)@.entries) + links@.len() <= usize::MAX,
    ensures
        final(cache).wf(),
        (r is Err) == (spec_stem(path@) is None),
        r is Err ==> final(cache)@ == old(cache)@,
        r matches Ok(delta) ==> final(cache)@ == create_transition(
            old(cache)@,
            spec_stem(path@).unwrap(),
            path@,
            links.deep_view(),
            tags.deep_view(),
        ) && delta@ == create_delta(
            old(cache)@,
            spec_stem(path@).unwrap(),
            path@,
            links.deep_view(),
            tags.deep_view(),
        ),
{
    broadcast use vstd::std_specs::vec::vec_clone_deep_view_proof;

    let id = match stem_of_path(path) {
        Some(s) => s,
        None => {
            return Err(String::from_str("invalid file path: ").concat(path));
        },
    };
    let ghost sid = spec_stem(path@).unwrap();
    assert(id@ == sid);
    let ghost v0 = cache@;
    let mut delta = GraphDelta::default();

    if cache.is_phantom(id.as_str()) {
        let ghost nr = delta.nodes_removed.deep_view();
        delta.nodes_removed.push(id.clone());
        cache.remove_phantom(id.as_str());
        proof {
            assert(delta.nodes_removed.deep_view() =~= nr.push(sid));
            assert(delta.nodes_removed.deep_view() =~= seq![sid]);
        }
    } else {
        proof {
            assert(cache@.phantoms =~= v0.phantoms.remove(sid));
        }
    }
    let ghost ph0 = v0.phantoms.remove(sid);
    assert(cache@.phantoms == ph0);

    let value = cache.count_incoming_links(id.as_str());
    let node = Node {
        id: id.clone(),
        label: id.clone(),
        value,
        group: None,
        file_path: path.to_owned(),
        hashtags: tags.clone(),
    };
    proof {
        assert(node@ =~~= created_node(sid, path@, total_count(v0.entries, sid), tags.deep_view()));
    }
    let ghost na0 = delta.nodes_added.deep_view();
    delta.nodes_added.push(node);
    proof {
        assert(delta.nodes_added.deep_view() =~= seq![
            created_node(sid, path@, total_count(v0.entries, sid), tags.deep_view()),
        ]);
    }

    let ghost ld = links.deep_view();
    add_reference_edges(&id, links, cache, &mut delta);
    proof {
        assert(delta.edges_added.deep_view() =~= ld.map_values(
            |l: Seq<char>| EdgeV { from: sid, to: l },
        ));
        assert(delta.nodes_added.deep_view() =~= seq![
            created_node(sid, path@, total_count(v0.entries, sid), tags.deep_view()),
        ] + new_phantoms(ld, sid, v0.entries, ph0).map_values(|t: Seq<char>| phantom_node_v(t, 1)));
    }
    cache.add_file(id.as_str(), path, links, tags);
    proof {
        assert(!has_doc(v0.entries, sid));
        assert(cache@.entries == v0.entries.push(
            EntryV { name: sid, path: path@, links: ld, tags: tags.deep_view() },
        ));
        lemma_phantoms_after_excludes(ld, sid, v0.entries, ph0);
        assert(phantoms_after(ld, sid, v0.entries, ph0).remove(sid) =~= phantoms_after(
            ld,
            sid,
            v0.entries,
            ph0,
        ));
        assert(cache@ =~~= create_transition(v0, sid, path@, ld, tags.deep_view()));
        assert(delta@ =~~= create_delta(v0, sid, path@, ld, tags.deep_view()));
    }
    Ok(delta)
}

/// The referencing document's own id is never freshly marked.
proof fn lemma_phantoms_after_excludes(
    links: Seq<Seq<char>>,
    id: Seq<char>,
    entries: Seq<EntryV>,
    ph: Set<Seq<char>>,
)
    requires
        !ph.contains(id),
    ensures
        !phantoms_after(links, id, entries, ph).contains(id),
    decreases links.len(),
{
    if links.len() == 0 {
    } else {
        if !has_doc(entries, links[0]) && links[0] != id {
            lemma_phantoms_after_excludes(links.drop_first(), id, entries, ph.insert(links[0]));
        } else {
            lemma_phantoms_after_excludes(links.drop_first(), id, entries, ph);
        }
    }
}

/// Handles a file modification: diffs the new reference list against the
/// stored one as sets. Equal sets yield an empty delta and leave the index
/// untouched (a tag-only edit is not detected); otherwise retired references
/// are removed (retiring each phantom whose remaining references all came
/// from this document), new ones added, and the stored list replaced
/// wholesale.
///
/// The watch pipeline classifies an event as a modify exactly when the index
/// holds an entry for the id, which the first precondition records; the
/// second keeps the index's reference counter within `usize`.
pub fn handle_file_modified(
    path: &str,
    links: &Vec<String>,
    cache: &mut GraphCache,
) -> (r: Result<GraphDelta, String>)
    requires
        old(cache).wf(),
        spec_stem(path@) matches Some(id) ==> has_doc(old(cache)@.entries, id),
        total_links(old(cache)@.entries) + links@.len() <= usize::MAX,
    ensures
        final(cache).wf(),
        (r is Err) == (spec_stem(path@) is None),
        r is Err ==> final(cache)@ == old(cache)@,
        r matches Ok(delta) ==> final(cache)@ == modify_transition(
            old(cache)@,
            spec_stem(path@).unwrap(),
            links.deep_view(),
        ) && delta@ == modify_delta(old(cache)@, spec_stem(path@).unwrap(), links.deep_view()),
{
    let id = match stem_of_path(path) {
        Some(s) => s,
        None => {
            return Err(String::from_str("invalid file path: ").concat(path));
        },
    };
    let ghost sid = spec_stem(path@).unwrap();
    assert(id@ == sid);
    let ghost v0 = cache@;
    let ghost new_ld = links.deep_view();

    let old_links = cache.get_links(id.as_str());
    let ghost old_ld = links_of(v0.entries, sid);
    assert(old_links.deep_view() == old_ld);

    let removed = diff_first_occurrence(&old_links, links);
    let added = diff_first_occurrence(links, &old_links);
    let ghost removed_v = diff_list(old_ld, new_ld, Set::empty());
    let ghost added_v = diff_list(new_ld, old_ld, Set::empty());

    if removed.len() == 0 && added.len() == 0 {
        proof {
            assert(removed_v.len() == removed.deep_view().len());
            assert(added_v.len() == added.deep_view().len());
            assert(cache@ == modify_transition(v0, sid, new_ld));
        }
        let d = GraphDelta::default();
        assert(d@ == modify_delta(v0, sid, new_ld));
        return Ok(d);
    }
    proof {
        assert(removed.deep_view().len() == removed@.len());
        assert(added.deep_view().len() == added@.len());
        assert(!(removed_v.len() == 0 && added_v.len() == 0));
    }

    let mut delta = GraphDelta::default();
    remove_reference_edges(&id, &removed, &old_links, cache, &mut delta);
    proof {
        assert(delta.edges_removed.deep_view() =~= removed_v.map_values(
            |l: Seq<char>| EdgeV { from: sid, to: l },
        ));
        assert(delta.nodes_removed.deep_view() =~= drop_phantoms(
            removed_v,
            old_ld,
            v0.entries,
            v0.phantoms,
        ));
    }
    let ghost ph1 = phantoms_after_drop(removed_v, old_ld, v0.entries, v0.phantoms);
    add_reference_edges(&id, &added, cache, &mut delta);
    proof {
        assert(delta.edges_added.deep_view() =~= added_v.map_values(
            |l: Seq<char>| EdgeV { from: sid, to: l },
        ));
        assert(delta.nodes_added.deep_view() =~= new_phantoms(
            added_v,
            sid,
            v0.entries,
            ph1,
        ).map_values(|t: Seq<char>| phantom_node_v(t, 1)));
    }
    cache.update_links(id.as_str(), links);
    proof {
        assert(cache@ =~~= modify_transition(v0, sid, new_ld));
        assert(delta@ =~~= modify_delta(v0, sid, new_ld));
    }
    Ok(delta)
}

/// Handles a file deletion: removes every stored outgoing edge (retiring each
/// phantom whose remaining references all came from this document), removes
/// the node, re-adds it as a phantom carrying the remaining incoming count
/// exactly when other documents still reference it, and drops the entry.
pub fn handle_file_deleted(path: &str, cache: &mut GraphCache) -> (r: Result<GraphDelta, String>)
    requires
        old(cache).wf(),
    ensures
        final(cache).wf(),
        (r is Err) == (spec_stem(path@) is None),
        r is Err ==> final(cache)@ == old(cache)@,
        r matches Ok(delta) ==> final(cache)@ == delete_transition(
            old(cache)@,
            spec_stem(path@).unwrap(),
        ) && delta@ == delete_delta(old(cache)@, spec_stem(path@).unwrap()),
{
    let id = match stem_of_path(path) {
        Some(s) => s,
        None => {
            return Err(String::from_str("invalid file path: ").concat(path));
        },
    };
    let ghost sid = spec_stem(path@).unwrap();
    assert(id@ == sid);
    let ghost v0 = cache@;

    let old_links = cache.get_links(id.as_str());
    let ghost ls = links_of(v0.entries, sid);
    assert(old_links.deep_view() == ls);

    let mut delta = GraphDelta::default();
    remove_reference_edges(&id, &old_links, &old_links, cache, &mut delta);
    proof {
        assert(delta.edges_removed.deep_view() =~= ls.map_values(
            |l: Seq<char>| EdgeV { from: sid, to: l },
        ));
        assert(delta.nodes_removed.deep_view() =~= drop_phantoms(ls, ls, v0.entries, v0.phantoms));
    }

    // the count over the other documents' lists: the whole count minus this
    // document's own contribution
    let incoming = cache.count_incoming_links(id.as_str());
    let own = count_occurrences(&old_links, id.as_str());
    proof {
        if has_doc(v0.entries, sid) {
            lemma_doc_index(v0.entries, sid);
            lemma_total_count_ge_entry(v0.entries, doc_index(v0.entries, sid), sid);
        } else {
            lemma_doc_absent(v0.entries, sid);
            assert(count_in(Seq::<Seq<char>>::empty(), sid) == 0);
        }
        assert(incoming >= own);
    }
    let remaining = incoming - own;
    assert(remaining as int == outside_count(v0, sid));

    let ghost nr = delta.nodes_removed.deep_view();
    delta.nodes_removed.push(id.clone());
    proof {
        assert(delta.nodes_removed.deep_view() =~= nr.push(sid));
        assert(nr.push(sid) =~= drop_phantoms(ls, ls, v0.entries, v0.phantoms) + seq![sid]);
    }
    if remaining > 0 {
        let node = Node {
            id: id.clone(),
            label: id.clone(),
            value: remaining,
            group: Some("phantom".to_owned()),
            file_path: String::new(),
            hashtags: Vec::new(),
        };
        proof {
            assert(node@ =~~= phantom_node_v(sid, outside_count(v0, sid) as nat));
        }
        let ghost na = delta.nodes_added.deep_view();
        delta.nodes_added.push(node);
        cache.add_phantom(id.as_str());
        proof {
            assert(delta.nodes_added.deep_view() =~= na.push(
                phantom_node_v(sid, outside_count(v0, sid) as nat),
            ));
            assert(na.push(phantom_node_v(sid, outside_count(v0, sid) as nat)) =~= seq![
                phantom_node_v(sid, outside_count(v0, sid) as nat),
            ]);
        }
    }
    cache.remove_file(id.as_str());
    proof {
        assert(cache@ =~~= delete_transition(v0, sid));
        assert(delta@ =~~= delete_delta(v0, sid));
    }
    Ok(delta)
}

} // verus!

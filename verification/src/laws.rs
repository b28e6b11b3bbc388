//! Cross-component laws of the engine, stated over the index model and
//! proved once for all inputs: the phantom threshold law, and the agreement
//! of the incremental delta engine with a full rescan.

use vstd::prelude::*;
use crate::cache::{
    CacheV, EntryV, has_doc, links_of, count_in, total_count, doc_index, entry_names,
    lemma_doc_index, lemma_total_count_push, lemma_total_count_update, lemma_total_count_remove,
    lemma_total_count_concat, lemma_total_count_ge_entry, lemma_first_match, scan_entries,
    upsert, entry_of_file,
};
use crate::delta::{
    phantoms_after, phantoms_after_drop, diff_list, outside_count, create_transition,
    modify_transition, delete_transition,
};
use crate::graph::{
    all_edges, edge_count_to, file_names, file_edges, phantom_ids, real_nodes, phantom_nodes,
    lemma_phantom_ids_props, lemma_edge_count_concat, lemma_edge_count_pos, lemma_file_edges_count,
};
use crate::parser::spec_wiki_links;
use crate::scanner::FileV;

verus! {

/// The phantom threshold invariant: an id is marked phantom exactly when it
/// names no document and its incoming reference count is positive.
pub open spec fn phantom_inv(v: CacheV) -> bool {
    forall|x: Seq<char>|
        #[trigger] v.phantoms.contains(x) <==> (!has_doc(v.entries, x) && total_count(
            v.entries,
            x,
        ) > 0)
}

/// `count_in` is positive exactly on the members of the list.
pub proof fn lemma_count_in_pos(links: Seq<Seq<char>>, t: Seq<char>)
    ensures
        (count_in(links, t) > 0) == links.contains(t),
    decreases links.len(),
{
    if links.len() == 0 {
        assert(!links.contains(t));
    } else {
        lemma_count_in_pos(links.drop_first(), t);
        if links[0] == t {
            assert(links.contains(t));
        } else {
            if links.drop_first().contains(t) {
                let i = choose|i: int|
                    0 <= i < links.drop_first().len() && links.drop_first()[i] == t;
                assert(links[i + 1] == t);
            }
            if links.contains(t) {
                let i = choose|i: int| 0 <= i < links.len() && links[i] == t;
                assert(i > 0);
                assert(links.drop_first()[i - 1] == t);
            }
        }
    }
}

/// Pushing an entry makes exactly its name newly known.
pub proof fn lemma_has_doc_push(entries: Seq<EntryV>, e: EntryV)
    ensures
        forall|x: Seq<char>|
            #[trigger] has_doc(entries.push(e), x) <==> (has_doc(entries, x) || x == e.name),
{
    assert forall|x: Seq<char>| #[trigger]
        has_doc(entries.push(e), x) <==> (has_doc(entries, x) || x == e.name) by {
        if has_doc(entries, x) {
            let i = choose|i: int| 0 <= i < entries.len() && entries[i].name == x;
            assert(entries.push(e)[i].name == x);
        }
        if x == e.name {
            assert(entries.push(e)[entries.len() as int].name == x);
        }
        if has_doc(entries.push(e), x) {
            let i = choose|i: int|
                0 <= i < entries.push(e).len() && entries.push(e)[i].name == x;
            if i < entries.len() {
                assert(entries[i].name == x);
            }
        }
    }
}

/// Replacing an entry by one of the same name leaves `has_doc` unchanged.
pub proof fn lemma_has_doc_update(entries: Seq<EntryV>, i: int, e: EntryV)
    requires
        0 <= i < entries.len(),
        e.name == entries[i].name,
    ensures
        forall|x: Seq<char>| #[trigger]
            has_doc(entries.update(i, e), x) <==> has_doc(entries, x),
{
    let e2 = entries.update(i, e);
    assert forall|x: Seq<char>| #[trigger] has_doc(e2, x) <==> has_doc(entries, x) by {
        if has_doc(e2, x) {
            let j = choose|j: int| 0 <= j < e2.len() && e2[j].name == x;
            assert(entries[j].name == x);
        }
        if has_doc(entries, x) {
            let j = choose|j: int| 0 <= j < entries.len() && entries[j].name == x;
            assert(e2[j].name == x);
        }
    }
}

/// With unique names, removing the entry at `i` makes exactly its name
/// unknown.
pub proof fn lemma_has_doc_remove(entries: Seq<EntryV>, i: int)
    requires
        0 <= i < entries.len(),
        entry_names(entries).no_duplicates(),
    ensures
        forall|x: Seq<char>| #[trigger]
            has_doc(entries.remove(i), x) <==> (has_doc(entries, x) && x != entries[i].name),
{
    let r = entries.remove(i);
    assert forall|x: Seq<char>| #[trigger]
        has_doc(r, x) <==> (has_doc(entries, x) && x != entries[i].name) by {
        if has_doc(r, x) {
            let j = choose|j: int| 0 <= j < r.len() && r[j].name == x;
            if j < i {
                assert(entries[j].name == x);
                assert(entry_names(entries)[j] == x);
                assert(entry_names(entries)[i] == entries[i].name);
            } else {
                assert(entries[j + 1].name == x);
                assert(entry_names(entries)[j + 1] == x);
                assert(entry_names(entries)[i] == entries[i].name);
            }
        }
        if has_doc(entries, x) && x != entries[i].name {
            let j = choose|j: int| 0 <= j < entries.len() && entries[j].name == x;
            assert(j != i);
            if j < i {
                assert(r[j].name == x);
            } else {
                assert(r[j - 1] == entries[j]);
            }
        }
    }
}

/// Closed form of the phantom set after document `id` adds references: the
/// old marks plus every referenced id, other than `id` itself, without a
/// document.
pub proof fn lemma_phantoms_after_closed(
    links: Seq<Seq<char>>,
    id: Seq<char>,
    entries: Seq<EntryV>,
    ph: Set<Seq<char>>,
)
    ensures
        phantoms_after(links, id, entries, ph) == Set::new(
            |x: Seq<char>|
                ph.contains(x) || (links.contains(x) && !has_doc(entries, x) && x != id),
        ),
    decreases links.len(),
{
    let target = Set::new(
        |x: Seq<char>| ph.contains(x) || (links.contains(x) && !has_doc(entries, x) && x != id),
    );
    if links.len() == 0 {
        assert forall|x: Seq<char>| #[trigger] target.contains(x) implies ph.contains(x) by {
            assert(!links.contains(x));
        }
        assert(phantoms_after(links, id, entries, ph) =~= target);
    } else {
        let l = links[0];
        let rest = links.drop_first();
        let ph2 = if !has_doc(entries, l) && l != id {
            ph.insert(l)
        } else {
            ph
        };
        lemma_phantoms_after_closed(rest, id, entries, ph2);
        assert forall|x: Seq<char>| #[trigger]
            phantoms_after(links, id, entries, ph).contains(x) <==> target.contains(x) by {
            if rest.contains(x) {
                let i = choose|i: int| 0 <= i < rest.len() && rest[i] == x;
                assert(links[i + 1] == x);
                assert(links.contains(x));
            }
            if links.contains(x) && x != l {
                let i = choose|i: int| 0 <= i < links.len() && links[i] == x;
                assert(i > 0);
                assert(rest[i - 1] == x);
            }
            assert(links.contains(l)) by {
                assert(links[0] == l);
            }
        }
        assert(phantoms_after(links, id, entries, ph) =~= target);
    }
}

/// Closed form of the phantom set after the affected document's references
/// are removed: the old marks except those whose whole incoming count came
/// from the document's stored list `owned`.
pub proof fn lemma_phantoms_after_drop_closed(
    xs: Seq<Seq<char>>,
    owned: Seq<Seq<char>>,
    entries: Seq<EntryV>,
    ph: Set<Seq<char>>,
)
    ensures
        phantoms_after_drop(xs, owned, entries, ph) == Set::new(
            |y: Seq<char>|
                ph.contains(y) && !(xs.contains(y) && total_count(entries, y) == count_in(
                    owned,
                    y,
                )),
        ),
    decreases xs.len(),
{
    let target = Set::new(
        |y: Seq<char>|
            ph.contains(y) && !(xs.contains(y) && total_count(entries, y) == count_in(owned, y)),
    );
    if xs.len() == 0 {
        assert forall|y: Seq<char>| #[trigger] ph.contains(y) implies target.contains(y) by {
            assert(!xs.contains(y));
        }
        assert(phantoms_after_drop(xs, owned, entries, ph) =~= target);
    } else {
        let x = xs[0];
        let rest = xs.drop_first();
        let ph2 = if ph.contains(x) && total_count(entries, x) == count_in(owned, x) {
            ph.remove(x)
        } else {
            ph
        };
        lemma_phantoms_after_drop_closed(rest, owned, entries, ph2);
        assert forall|y: Seq<char>| #[trigger]
            phantoms_after_drop(xs, owned, entries, ph).contains(y) <==> target.contains(y) by {
            if rest.contains(y) {
                let i = choose|i: int| 0 <= i < rest.len() && rest[i] == y;
                assert(xs[i + 1] == y);
                assert(xs.contains(y));
            }
            if xs.contains(y) && y != x {
                let i = choose|i: int| 0 <= i < xs.len() && xs[i] == y;
                assert(i > 0);
                assert(rest[i - 1] == y);
            }
            assert(xs.contains(x)) by {
                assert(xs[0] == x);
            }
        }
        assert(phantoms_after_drop(xs, owned, entries, ph) =~= target);
    }
}

/// Membership in a reference diff: the first-occurrence list of `a` minus `b`
/// holds exactly the elements of `a` that occur neither in `b` nor in `seen`.
pub proof fn lemma_diff_list_contains(a: Seq<Seq<char>>, b: Seq<Seq<char>>, seen: Set<Seq<char>>)
    ensures
        forall|y: Seq<char>| #[trigger]
            diff_list(a, b, seen).contains(y) <==> (a.contains(y) && !b.contains(y)
                && !seen.contains(y)),
    decreases a.len(),
{
    if a.len() == 0 {
        assert(forall|y: Seq<char>| !(#[trigger] a.contains(y)));
        assert(diff_list(a, b, seen) =~= Seq::<Seq<char>>::empty());
        assert(forall|y: Seq<char>| !(#[trigger] diff_list(a, b, seen).contains(y)));
    } else {
        let x = a[0];
        let rest = a.drop_first();
        let d = diff_list(a, b, seen);
        assert forall|y: Seq<char>| #[trigger] a.contains(y) implies (y == x || rest.contains(
            y,
        )) by {
            let i = choose|i: int| 0 <= i < a.len() && a[i] == y;
            if i > 0 {
                assert(rest[i - 1] == y);
            }
        }
        assert forall|y: Seq<char>| #[trigger] rest.contains(y) implies a.contains(y) by {
            let i = choose|i: int| 0 <= i < rest.len() && rest[i] == y;
            assert(a[i + 1] == y);
        }
        assert(a.contains(x)) by {
            assert(a[0] == x);
        }
        if !b.contains(x) && !seen.contains(x) {
            let r = diff_list(rest, b, seen.insert(x));
            lemma_diff_list_contains(rest, b, seen.insert(x));
            assert(d == seq![x] + r);
            assert forall|y: Seq<char>| #[trigger] d.contains(y) implies (y == x || r.contains(
                y,
            )) by {
                let i = choose|i: int| 0 <= i < d.len() && d[i] == y;
                if i > 0 {
                    assert(r[i - 1] == y);
                }
            }
            assert(d.contains(x)) by {
                assert(d[0] == x);
            }
            assert forall|y: Seq<char>| #[trigger] r.contains(y) implies d.contains(y) by {
                let i = choose|i: int| 0 <= i < r.len() && r[i] == y;
                assert(d[i + 1] == y);
            }
            assert forall|y: Seq<char>|
                #[trigger] d.contains(y) <==> (a.contains(y) && !b.contains(y) && !seen.contains(
                y,
            )) by {
                assert(r.contains(y) == (rest.contains(y) && !b.contains(y)
                    && !seen.insert(x).contains(y)));
            }
        } else {
            let r = diff_list(rest, b, seen);
            lemma_diff_list_contains(rest, b, seen);
            assert(d == r);
            assert forall|y: Seq<char>|
                #[trigger] d.contains(y) <==> (a.contains(y) && !b.contains(y) && !seen.contains(
                y,
            )) by {
                assert(r.contains(y) == (rest.contains(y) && !b.contains(y) && !seen.contains(y)));
            }
        }
    }
}

/// Phantom threshold law for a create event: if the invariant holds and the
/// created id names no document yet, the invariant holds after the event.
pub proof fn lemma_phantom_threshold_create(
    v: CacheV,
    id: Seq<char>,
    path: Seq<char>,
    links: Seq<Seq<char>>,
    tags: Seq<Seq<char>>,
)
    requires
        phantom_inv(v),
        !has_doc(v.entries, id),
    ensures
        phantom_inv(create_transition(v, id, path, links, tags)),
{
    let e = EntryV { name: id, path: path, links: links, tags: tags };
    let v2 = create_transition(v, id, path, links, tags);
    lemma_phantoms_after_closed(links, id, v.entries, v.phantoms.remove(id));
    lemma_has_doc_push(v.entries, e);
    assert forall|x: Seq<char>| #[trigger]
        v2.phantoms.contains(x) <==> (!has_doc(v2.entries, x) && total_count(v2.entries, x)
            > 0) by {
        lemma_total_count_push(v.entries, e, x);
        lemma_count_in_pos(links, x);
        if x == id {
            assert(!v2.phantoms.contains(x));
            assert(has_doc(v2.entries, x));
        } else {
            assert(v2.phantoms.contains(x) <==> (v.phantoms.contains(x) || (links.contains(x)
                && !has_doc(v.entries, x))));
        }
    }
}

/// Phantom threshold law for a modify event: if the invariant holds and the
/// id names a document, the invariant holds after the event, for every input.
pub proof fn lemma_phantom_threshold_modify(v: CacheV, id: Seq<char>, new_links: Seq<Seq<char>>)
    requires
        phantom_inv(v),
        has_doc(v.entries, id),
    ensures
        phantom_inv(modify_transition(v, id, new_links)),
{
    let ls = links_of(v.entries, id);
    let removed = diff_list(ls, new_links, Set::empty());
    let added = diff_list(new_links, ls, Set::empty());
    let v2 = modify_transition(v, id, new_links);
    if removed.len() == 0 && added.len() == 0 {
        assert(v2 == v);
    } else {
        lemma_doc_index(v.entries, id);
        let di = doc_index(v.entries, id);
        let e2 = EntryV { links: new_links, ..v.entries[di] };
        let ph1 = phantoms_after_drop(removed, ls, v.entries, v.phantoms);
        lemma_phantoms_after_drop_closed(removed, ls, v.entries, v.phantoms);
        lemma_phantoms_after_closed(added, id, v.entries, ph1);
        lemma_diff_list_contains(ls, new_links, Set::empty());
        lemma_diff_list_contains(new_links, ls, Set::empty());
        lemma_has_doc_update(v.entries, di, e2);
        assert forall|x: Seq<char>| #[trigger]
            v2.phantoms.contains(x) <==> (!has_doc(v2.entries, x) && total_count(v2.entries, x)
                > 0) by {
            lemma_total_count_update(v.entries, di, e2, x);
            lemma_total_count_ge_entry(v.entries, di, x);
            lemma_count_in_pos(new_links, x);
            lemma_count_in_pos(ls, x);
            let c = total_count(v.entries, x);
            let cin_old = count_in(ls, x);
            let cin_new = count_in(new_links, x);
            assert(total_count(v2.entries, x) + cin_old == c + cin_new);
            if has_doc(v.entries, x) {
                assert(!v.phantoms.contains(x));
                assert(!v2.phantoms.contains(x));
            } else {
                if new_links.contains(x) {
                    assert(total_count(v2.entries, x) > 0);
                    if v.phantoms.contains(x) {
                        assert(!removed.contains(x));
                        assert(ph1.contains(x));
                        assert(v2.phantoms.contains(x));
                    } else {
                        assert(c == 0);
                        assert(cin_old == 0);
                        assert(!ls.contains(x));
                        assert(added.contains(x));
                        assert(v2.phantoms.contains(x));
                    }
                } else {
                    assert(cin_new == 0);
                    assert(!added.contains(x));
                    if !v.phantoms.contains(x) {
                        assert(c == 0);
                        assert(cin_old == 0);
                        assert(!v2.phantoms.contains(x));
                        assert(total_count(v2.entries, x) == 0);
                    } else {
                        assert(c > 0);
                        if cin_old == 0 {
                            assert(!ls.contains(x));
                            assert(!removed.contains(x));
                            assert(v2.phantoms.contains(x));
                            assert(total_count(v2.entries, x) == c);
                        } else {
                            assert(ls.contains(x));
                            assert(removed.contains(x));
                            assert(v2.phantoms.contains(x) <==> c != cin_old);
                            assert(total_count(v2.entries, x) == c - cin_old);
                        }
                    }
                }
            }
        }
    }
}

/// Phantom threshold law for a delete event: if the invariant holds and the
/// id names a document of a well-formed index, the invariant holds after the
/// event, for every input.
pub proof fn lemma_phantom_threshold_delete(v: CacheV, id: Seq<char>)
    requires
        phantom_inv(v),
        has_doc(v.entries, id),
        entry_names(v.entries).no_duplicates(),
    ensures
        phantom_inv(delete_transition(v, id)),
{
    let ls = links_of(v.entries, id);
    let v2 = delete_transition(v, id);
    lemma_doc_index(v.entries, id);
    let di = doc_index(v.entries, id);
    let ph1 = phantoms_after_drop(ls, ls, v.entries, v.phantoms);
    lemma_phantoms_after_drop_closed(ls, ls, v.entries, v.phantoms);
    lemma_has_doc_remove(v.entries, di);
    assert(v2.entries == v.entries.remove(di));
    assert forall|x: Seq<char>| #[trigger]
        v2.phantoms.contains(x) <==> (!has_doc(v2.entries, x) && total_count(v2.entries, x)
            > 0) by {
        lemma_total_count_remove(v.entries, di, x);
        lemma_total_count_ge_entry(v.entries, di, x);
        lemma_count_in_pos(ls, x);
        let c = total_count(v.entries, x);
        let cin = count_in(ls, x);
        assert(total_count(v2.entries, x) + cin == c);
        if x == id {
            assert(!v.phantoms.contains(id));
            assert(!ph1.contains(id));
            assert(!has_doc(v2.entries, id));
            assert(v2.phantoms.contains(id) <==> c - cin > 0);
        } else {
            assert(has_doc(v2.entries, x) <==> has_doc(v.entries, x));
            assert(v2.phantoms.contains(x) <==> ph1.contains(x));
            if has_doc(v.entries, x) {
                assert(!v.phantoms.contains(x));
                assert(!ph1.contains(x));
            } else {
                if !v.phantoms.contains(x) {
                    assert(c == 0);
                    assert(cin == 0);
                    assert(!ph1.contains(x));
                } else {
                    assert(c > 0);
                    if cin == 0 {
                        assert(!ls.contains(x));
                        assert(ph1.contains(x));
                        assert(total_count(v2.entries, x) == c);
                    } else {
                        assert(ls.contains(x));
                        assert(ph1.contains(x) <==> c != cin);
                        assert(total_count(v2.entries, x) == c - cin);
                    }
                }
            }
        }
    }
}

/// The phantom set a well-formed index must carry: every id that names no
/// document but is referenced.
pub open spec fn scan_phantoms(entries: Seq<EntryV>) -> Set<Seq<char>> {
    Set::new(|x: Seq<char>| !has_doc(entries, x) && total_count(entries, x) > 0)
}

/// The index a full scan of `files` yields.
pub open spec fn index_of_files(files: Seq<FileV>) -> CacheV {
    CacheV { entries: scan_entries(files), phantoms: scan_phantoms(scan_entries(files)) }
}

/// A scanned index satisfies the phantom threshold invariant by construction,
/// and any index satisfying it carries exactly the scan phantom set.
pub proof fn lemma_index_inv(files: Seq<FileV>)
    ensures
        phantom_inv(index_of_files(files)),
{
}

proof fn lemma_inv_determines_phantoms(v: CacheV)
    requires
        phantom_inv(v),
    ensures
        v.phantoms == scan_phantoms(v.entries),
{
    assert(v.phantoms =~= scan_phantoms(v.entries));
}

/// With distinct file names a full scan keeps one entry per file, in file
/// order.
pub proof fn lemma_scan_entries_map(files: Seq<FileV>)
    requires
        file_names(files).no_duplicates(),
    ensures
        scan_entries(files) == files.map_values(|f: FileV| entry_of_file(f)),
        entry_names(scan_entries(files)) == file_names(files),
    decreases files.len(),
{
    let m = files.map_values(|f: FileV| entry_of_file(f));
    if files.len() == 0 {
        assert(scan_entries(files) =~= m);
        assert(entry_names(scan_entries(files)) =~= file_names(files));
    } else {
        let fl = files.drop_last();
        let f = files.last();
        assert(file_names(fl) =~= file_names(files).drop_last());
        assert(file_names(fl).no_duplicates()) by {
            assert(forall|j: int|
                0 <= j < file_names(fl).len() ==> file_names(fl)[j] == file_names(files)[j]);
        }
        lemma_scan_entries_map(fl);
        assert(!has_doc(scan_entries(fl), f.name)) by {
            if has_doc(scan_entries(fl), f.name) {
                let i = choose|i: int|
                    0 <= i < scan_entries(fl).len() && scan_entries(fl)[i].name == f.name;
                assert(scan_entries(fl)[i] == entry_of_file(fl[i]));
                assert(file_names(files)[i] == f.name);
                assert(file_names(files)[files.len() - 1] == f.name);
            }
        }
        assert(scan_entries(files) == upsert(scan_entries(fl), entry_of_file(f)));
        assert(scan_entries(files) =~= m) by {
            assert(m =~= fl.map_values(|g: FileV| entry_of_file(g)).push(entry_of_file(f)));
        }
        assert(entry_names(scan_entries(files)) =~= file_names(files));
    }
}

/// The snapshot's edge count of `t` equals the scanned index's incoming
/// count of `t`.
pub proof fn lemma_total_count_map(files: Seq<FileV>, t: Seq<char>)
    ensures
        edge_count_to(all_edges(files), t) == total_count(
            files.map_values(|f: FileV| entry_of_file(f)),
            t,
        ),
    decreases files.len(),
{
    let m = files.map_values(|f: FileV| entry_of_file(f));
    if files.len() == 0 {
    } else {
        let f0 = files[0];
        let rest = files.drop_first();
        lemma_edge_count_concat(
            file_edges(f0.name, spec_wiki_links(f0.content)),
            all_edges(rest),
            t,
        );
        lemma_file_edges_count(f0.name, spec_wiki_links(f0.content), t);
        assert(m[0] == entry_of_file(f0));
        assert(m.drop_first() =~= rest.map_values(|f: FileV| entry_of_file(f)));
        lemma_total_count_map(rest, t);
    }
}

/// In a snapshot the phantom ids, taken as a set, are exactly the scan
/// phantom set of the corresponding index.
pub proof fn lemma_phantom_ids_set(files: Seq<FileV>)
    requires
        file_names(files).no_duplicates(),
    ensures
        phantom_ids(all_edges(files), file_names(files), Set::empty()).to_set() == scan_phantoms(
            scan_entries(files),
        ),
{
    lemma_scan_entries_map(files);
    let edges = all_edges(files);
    let names = file_names(files);
    let pids = phantom_ids(edges, names, Set::<Seq<char>>::empty());
    let m = files.map_values(|f: FileV| entry_of_file(f));
    lemma_phantom_ids_props(edges, names, Set::empty());
    assert forall|x: Seq<char>| #[trigger]
        pids.to_set().contains(x) <==> scan_phantoms(m).contains(x) by {
        lemma_edge_count_pos(edges, x);
        lemma_total_count_map(files, x);
        assert(has_doc(m, x) <==> names.contains(x)) by {
            if has_doc(m, x) {
                let i = choose|i: int| 0 <= i < m.len() && m[i].name == x;
                assert(names[i] == x);
            }
            if names.contains(x) {
                let i = choose|i: int| 0 <= i < names.len() && names[i] == x;
                assert(m[i].name == x);
            }
        }
        if pids.contains(x) {
            assert(!names.contains(x));
            assert(total_count(m, x) > 0);
        }
        if !has_doc(m, x) && total_count(m, x) > 0 {
            let k = choose|k: int| 0 <= k < edges.len() && edges[k].to == x;
            assert(pids.contains(edges[k].to));
        }
    }
    assert(pids.to_set() =~= scan_phantoms(m));
}

/// What the snapshot and the scanned index agree on: the document nodes line
/// up with the entries, every node's value is the index's incoming count of
/// its id, and the phantom ids are the index's phantom set.
pub proof fn lemma_snapshot_of_index(files: Seq<FileV>)
    requires
        file_names(files).no_duplicates(),
    ensures
        entry_names(index_of_files(files).entries) == file_names(files),
        real_nodes(files).len() == index_of_files(files).entries.len(),
        forall|k: int|
            0 <= k < real_nodes(files).len() ==> (#[trigger] real_nodes(files)[k]).id
                == index_of_files(files).entries[k].name && real_nodes(files)[k].value
                == total_count(index_of_files(files).entries, real_nodes(files)[k].id),
        phantom_ids(all_edges(files), file_names(files), Set::empty()).to_set() == index_of_files(
            files,
        ).phantoms,
        forall|k: int|
            0 <= k < phantom_nodes(files).len() ==> (#[trigger] phantom_nodes(files)[k]).value
                == total_count(index_of_files(files).entries, phantom_nodes(files)[k].id),
{
    lemma_scan_entries_map(files);
    lemma_phantom_ids_set(files);
    let m = files.map_values(|f: FileV| entry_of_file(f));
    assert forall|k: int| 0 <= k < real_nodes(files).len() implies (#[trigger] real_nodes(
        files,
    )[k]).id == index_of_files(files).entries[k].name && real_nodes(files)[k].value == total_count(
        index_of_files(files).entries,
        real_nodes(files)[k].id,
    ) by {
        lemma_total_count_map(files, files[k].name);
    }
    assert forall|k: int| 0 <= k < phantom_nodes(files).len() implies (#[trigger] phantom_nodes(
        files,
    )[k]).value == total_count(index_of_files(files).entries, phantom_nodes(files)[k].id) by {
        let pids = phantom_ids(all_edges(files), file_names(files), Set::empty());
        assert(phantom_nodes(files)[k].id == pids[k]);
        lemma_total_count_map(files, pids[k]);
    }
}

/// Rescan equivalence for a create event: applying the create transition to
/// the scanned index of `files` yields exactly the scanned index of the
/// directory with the new document appended.
pub proof fn lemma_rescan_create(files: Seq<FileV>, f: FileV)
    requires
        file_names(files).no_duplicates(),
        !file_names(files).contains(f.name),
    ensures
        create_transition(
            index_of_files(files),
            f.name,
            f.path,
            spec_wiki_links(f.content),
            crate::parser::spec_hashtags(f.content),
        ) == index_of_files(files.push(f)),
{
    let v = index_of_files(files);
    let e = entry_of_file(f);
    lemma_scan_entries_map(files);
    assert(file_names(files.push(f)) =~= file_names(files).push(f.name));
    assert(file_names(files.push(f)).no_duplicates()) by {
        let names2 = file_names(files).push(f.name);
        assert forall|a: int, b: int| 0 <= a < b < names2.len() implies names2[a] != names2[b] by {
            if b == file_names(files).len() {
                assert(names2[a] == file_names(files)[a]);
                assert(file_names(files).contains(names2[a]) ==> names2[a] != f.name);
            }
        }
    }
    lemma_scan_entries_map(files.push(f));
    assert(files.push(f).drop_last() =~= files);
    assert(files.push(f).last() == f);
    assert(!has_doc(scan_entries(files), f.name)) by {
        if has_doc(scan_entries(files), f.name) {
            let i = choose|i: int|
                0 <= i < scan_entries(files).len() && scan_entries(files)[i].name == f.name;
            assert(entry_names(scan_entries(files))[i] == f.name);
            assert(file_names(files).contains(f.name));
        }
    }
    assert(scan_entries(files.push(f)) == scan_entries(files).push(e));
    let v2 = create_transition(
        v,
        f.name,
        f.path,
        spec_wiki_links(f.content),
        crate::parser::spec_hashtags(f.content),
    );
    assert(v2.entries == v.entries.push(e)) by {
        assert((EntryV {
            name: f.name,
            path: f.path,
            links: spec_wiki_links(f.content),
            tags: crate::parser::spec_hashtags(f.content),
        }) =~~= e);
    }
    lemma_index_inv(files);
    lemma_phantom_threshold_create(
        v,
        f.name,
        f.path,
        spec_wiki_links(f.content),
        crate::parser::spec_hashtags(f.content),
    );
    lemma_inv_determines_phantoms(v2);
    assert(v2 =~~= index_of_files(files.push(f)));
}

proof fn lemma_total_count_agree(a: Seq<EntryV>, b: Seq<EntryV>, t: Seq<char>)
    requires
        a.len() == b.len(),
        forall|j: int| 0 <= j < a.len() ==> a[j].links == b[j].links,
    ensures
        total_count(a, t) == total_count(b, t),
    decreases a.len(),
{
    if a.len() == 0 {
    } else {
        assert(forall|j: int|
            0 <= j < a.drop_first().len() ==> a.drop_first()[j] == a[j + 1] && b.drop_first()[j]
                == b[j + 1]);
        lemma_total_count_agree(a.drop_first(), b.drop_first(), t);
    }
}

proof fn lemma_scan_phantoms_agree(a: Seq<EntryV>, b: Seq<EntryV>)
    requires
        a.len() == b.len(),
        forall|j: int| 0 <= j < a.len() ==> a[j].links == b[j].links && a[j].name == b[j].name,
    ensures
        scan_phantoms(a) == scan_phantoms(b),
{
    assert forall|x: Seq<char>| #[trigger]
        scan_phantoms(a).contains(x) <==> scan_phantoms(b).contains(x) by {
        lemma_total_count_agree(a, b, x);
        assert(has_doc(a, x) <==> has_doc(b, x)) by {
            if has_doc(a, x) {
                let i = choose|i: int| 0 <= i < a.len() && a[i].name == x;
                assert(b[i].name == x);
            }
            if has_doc(b, x) {
                let i = choose|i: int| 0 <= i < b.len() && b[i].name == x;
                assert(a[i].name == x);
            }
        }
    }
    assert(scan_phantoms(a) =~= scan_phantoms(b));
}

/// Rescan equivalence for a delete event: applying the delete transition to
/// the scanned index yields exactly the scanned index of the directory with
/// the document removed, for every input.
pub proof fn lemma_rescan_delete(files: Seq<FileV>, i: int)
    requires
        file_names(files).no_duplicates(),
        0 <= i < files.len(),
    ensures
        delete_transition(index_of_files(files), files[i].name) == index_of_files(files.remove(i)),
{
    let v = index_of_files(files);
    let name = files[i].name;
    lemma_scan_entries_map(files);
    assert forall|j: int| 0 <= j < i implies v.entries[j].name != name by {
        assert(v.entries[j].name == file_names(files)[j]);
        assert(file_names(files)[i] == name);
    }
    assert(v.entries[i].name == name);
    lemma_first_match(v.entries, name, i);
    assert(has_doc(v.entries, name));
    assert(links_of(v.entries, name) == spec_wiki_links(files[i].content));
    lemma_index_inv(files);
    lemma_phantom_threshold_delete(v, name);
    let v2 = delete_transition(v, name);
    assert(v2.entries == v.entries.remove(i));
    assert(file_names(files.remove(i)) =~= file_names(files).remove(i));
    assert(file_names(files.remove(i)).no_duplicates()) by {
        let n1 = file_names(files);
        let n2 = n1.remove(i);
        assert(forall|j: int| 0 <= j < i ==> n2[j] == n1[j]);
        assert(forall|j: int| i <= j < n2.len() ==> n2[j] == n1[j + 1]);
        assert forall|a: int, b: int| 0 <= a < b < n2.len() implies n2[a] != n2[b] by {
            if b < i {
            } else if a < i {
                assert(n2[a] == n1[a] && n2[b] == n1[b + 1]);
            } else {
                assert(n2[a] == n1[a + 1] && n2[b] == n1[b + 1]);
            }
        }
    }
    lemma_scan_entries_map(files.remove(i));
    assert(v2.entries == scan_entries(files.remove(i))) by {
        assert(files.remove(i).map_values(|f: FileV| entry_of_file(f)) =~= files.map_values(
            |f: FileV| entry_of_file(f),
        ).remove(i));
    }
    lemma_inv_determines_phantoms(v2);
    assert(v2 =~~= index_of_files(files.remove(i)));
}

/// Rescan equivalence for a modify event: the modify transition and a rescan
/// of the directory with the document's content replaced agree on every
/// entry's name, path and reference list and on the phantom set; the stored
/// tags may lag behind, since a tag-only edit is not detected. The one other
/// input left aside: an edit that changes only how often a reference repeats
/// keeps the old list, since the engine's set-equality short-circuit commits
/// nothing; the side condition rules that out.
pub proof fn lemma_rescan_modify(files: Seq<FileV>, i: int, f: FileV)
    requires
        file_names(files).no_duplicates(),
        0 <= i < files.len(),
        f.name == files[i].name,
        f.path == files[i].path,
        ({
            let ols = spec_wiki_links(files[i].content);
            let nls = spec_wiki_links(f.content);
            (diff_list(ols, nls, Set::empty()).len() == 0 && diff_list(nls, ols, Set::empty()).len()
                == 0) ==> ols == nls
        }),
    ensures
        ({
            let v2 = modify_transition(
                index_of_files(files),
                files[i].name,
                spec_wiki_links(f.content),
            );
            let w = index_of_files(files.update(i, f));
            &&& v2.entries.len() == w.entries.len()
            &&& forall|j: int|
                0 <= j < v2.entries.len() ==> (#[trigger] v2.entries[j]).name == w.entries[j].name
                    && v2.entries[j].path == w.entries[j].path && v2.entries[j].links
                    == w.entries[j].links
            &&& v2.phantoms == w.phantoms
        }),
{
    let v = index_of_files(files);
    let name = files[i].name;
    let ols = spec_wiki_links(files[i].content);
    let nls = spec_wiki_links(f.content);
    lemma_scan_entries_map(files);
    assert forall|j: int| 0 <= j < i implies v.entries[j].name != name by {
        assert(v.entries[j].name == file_names(files)[j]);
        assert(file_names(files)[i] == name);
    }
    assert(v.entries[i].name == name);
    lemma_first_match(v.entries, name, i);
    assert(has_doc(v.entries, name));
    assert(links_of(v.entries, name) == ols);
    lemma_index_inv(files);
    lemma_phantom_threshold_modify(v, name, nls);
    let v2 = modify_transition(v, name, nls);
    let w = index_of_files(files.update(i, f));
    assert(file_names(files.update(i, f)) =~= file_names(files));
    lemma_scan_entries_map(files.update(i, f));
    assert(w.entries == files.update(i, f).map_values(|g: FileV| entry_of_file(g)));
    assert(w.entries =~= files.map_values(|g: FileV| entry_of_file(g)).update(
        i,
        entry_of_file(f),
    ));
    let removed = diff_list(ols, nls, Set::empty());
    let added = diff_list(nls, ols, Set::empty());
    if removed.len() == 0 && added.len() == 0 {
        assert(v2 == v);
        assert(ols == nls);
        assert forall|j: int|
            0 <= j < v2.entries.len() implies (#[trigger] v2.entries[j]).name == w.entries[j].name
            && v2.entries[j].path == w.entries[j].path && v2.entries[j].links
            == w.entries[j].links by {
            if j == i {
                assert(v2.entries[i] == entry_of_file(files[i]));
                assert(w.entries[i] == entry_of_file(f));
            }
        }
        lemma_scan_phantoms_agree(v2.entries, w.entries);
        lemma_inv_determines_phantoms(v);
    } else {
        assert(v2.entries == v.entries.update(i, (EntryV { links: nls, ..v.entries[i] })));
        assert forall|j: int|
            0 <= j < v2.entries.len() implies (#[trigger] v2.entries[j]).name == w.entries[j].name
            && v2.entries[j].path == w.entries[j].path && v2.entries[j].links
            == w.entries[j].links by {
            if j == i {
                assert(v.entries[i] == entry_of_file(files[i]));
                assert(w.entries[i] == entry_of_file(f));
            } else {
                assert(v2.entries[j] == v.entries[j]);
            }
        }
        lemma_inv_determines_phantoms(v2);
        lemma_scan_phantoms_agree(v2.entries, w.entries);
    }
}

/// Agreement of an index with the scan of a directory: same entries by name,
/// path and reference list (stored tags may lag behind), and the same phantom
/// set.
pub open spec fn index_agrees(v: CacheV, files: Seq<FileV>) -> bool {
    let w = index_of_files(files);
    &&& v.entries.len() == w.entries.len()
    &&& forall|j: int|
        0 <= j < v.entries.len() ==> (#[trigger] v.entries[j]).name == w.entries[j].name
            && v.entries[j].path == w.entries[j].path && v.entries[j].links == w.entries[j].links
    &&& v.phantoms == w.phantoms
}

proof fn lemma_links_of_agree(a: Seq<EntryV>, b: Seq<EntryV>, id: Seq<char>)
    requires
        a.len() == b.len(),
        forall|j: int| 0 <= j < a.len() ==> a[j].name == b[j].name && a[j].links == b[j].links,
    ensures
        links_of(a, id) == links_of(b, id),
        doc_index(a, id) == doc_index(b, id),
    decreases a.len(),
{
    if a.len() == 0 {
    } else {
        assert(forall|j: int|
            0 <= j < a.drop_first().len() ==> a.drop_first()[j] == a[j + 1] && b.drop_first()[j]
                == b[j + 1]);
        lemma_links_of_agree(a.drop_first(), b.drop_first(), id);
    }
}

proof fn lemma_has_doc_agree(a: Seq<EntryV>, b: Seq<EntryV>, id: Seq<char>)
    requires
        a.len() == b.len(),
        forall|j: int| 0 <= j < a.len() ==> a[j].name == b[j].name,
    ensures
        has_doc(a, id) == has_doc(b, id),
{
    if has_doc(a, id) {
        let j = choose|j: int| 0 <= j < a.len() && a[j].name == id;
        assert(b[j].name == id);
    }
    if has_doc(b, id) {
        let j = choose|j: int| 0 <= j < b.len() && b[j].name == id;
        assert(a[j].name == id);
    }
}

proof fn lemma_phantoms_after_agree(
    links: Seq<Seq<char>>,
    id: Seq<char>,
    a: Seq<EntryV>,
    b: Seq<EntryV>,
    ph: Set<Seq<char>>,
)
    requires
        a.len() == b.len(),
        forall|j: int| 0 <= j < a.len() ==> a[j].name == b[j].name,
    ensures
        phantoms_after(links, id, a, ph) == phantoms_after(links, id, b, ph),
    decreases links.len(),
{
    if links.len() == 0 {
    } else {
        lemma_has_doc_agree(a, b, links[0]);
        if !has_doc(a, links[0]) && links[0] != id {
            lemma_phantoms_after_agree(links.drop_first(), id, a, b, ph.insert(links[0]));
        } else {
            lemma_phantoms_after_agree(links.drop_first(), id, a, b, ph);
        }
    }
}

proof fn lemma_phantoms_after_drop_agree(
    xs: Seq<Seq<char>>,
    owned: Seq<Seq<char>>,
    a: Seq<EntryV>,
    b: Seq<EntryV>,
    ph: Set<Seq<char>>,
)
    requires
        a.len() == b.len(),
        forall|j: int| 0 <= j < a.len() ==> a[j].links == b[j].links,
    ensures
        phantoms_after_drop(xs, owned, a, ph) == phantoms_after_drop(xs, owned, b, ph),
    decreases xs.len(),
{
    if xs.len() == 0 {
    } else {
        lemma_total_count_agree(a, b, xs[0]);
        if ph.contains(xs[0]) && total_count(a, xs[0]) == count_in(owned, xs[0]) {
            lemma_phantoms_after_drop_agree(xs.drop_first(), owned, a, b, ph.remove(xs[0]));
        } else {
            lemma_phantoms_after_drop_agree(xs.drop_first(), owned, a, b, ph);
        }
    }
}

/// One filesystem event at the level of the directory model: a new document,
/// a document's content replaced in place, or a document removed.
pub ghost enum FsEventV {
    Created(FileV),
    Modified(int, FileV),
    Deleted(int),
}

/// The directory after one event.
pub open spec fn step_files(files: Seq<FileV>, ev: FsEventV) -> Seq<FileV> {
    match ev {
        FsEventV::Created(f) => files.push(f),
        FsEventV::Modified(i, f) => files.update(i, f),
        FsEventV::Deleted(i) => files.remove(i),
    }
}

/// The index after the delta engine handles one event.
pub open spec fn step_index(v: CacheV, files: Seq<FileV>, ev: FsEventV) -> CacheV {
    match ev {
        FsEventV::Created(f) => create_transition(
            v,
            f.name,
            f.path,
            spec_wiki_links(f.content),
            crate::parser::spec_hashtags(f.content),
        ),
        FsEventV::Modified(i, f) => modify_transition(v, f.name, spec_wiki_links(f.content)),
        FsEventV::Deleted(i) => delete_transition(v, files[i].name),
    }
}

/// Admissibility of one event against the current directory: the
/// classification facts the watch pipeline guarantees. A modify must change
/// the reference set or nothing: an edit that changes only how often a
/// reference repeats is invisible to the engine's set-equality short-circuit.
pub open spec fn event_ok(files: Seq<FileV>, ev: FsEventV) -> bool {
    match ev {
        FsEventV::Created(f) => !file_names(files).contains(f.name),
        FsEventV::Modified(i, f) => {
            let ols = spec_wiki_links(files[i].content);
            let nls = spec_wiki_links(f.content);
            &&& 0 <= i < files.len()
            &&& f.name == files[i].name
            &&& f.path == files[i].path
            &&& ((diff_list(ols, nls, Set::empty()).len() == 0 && diff_list(
                nls,
                ols,
                Set::empty(),
            ).len() == 0) ==> ols == nls)
        },
        FsEventV::Deleted(i) => 0 <= i < files.len(),
    }
}

/// The directory after a whole event sequence.
pub open spec fn apply_events(files: Seq<FileV>, evs: Seq<FsEventV>) -> Seq<FileV>
    decreases evs.len(),
{
    if evs.len() == 0 {
        files
    } else {
        apply_events(step_files(files, evs[0]), evs.drop_first())
    }
}

/// The index after the delta engine handles a whole event sequence.
pub open spec fn apply_events_index(v: CacheV, files: Seq<FileV>, evs: Seq<FsEventV>) -> CacheV
    decreases evs.len(),
{
    if evs.len() == 0 {
        v
    } else {
        apply_events_index(step_index(v, files, evs[0]), step_files(files, evs[0]), evs.drop_first())
    }
}

/// Admissibility of a whole event sequence.
pub open spec fn events_ok(files: Seq<FileV>, evs: Seq<FsEventV>) -> bool
    decreases evs.len(),
{
    if evs.len() == 0 {
        true
    } else {
        event_ok(files, evs[0]) && events_ok(step_files(files, evs[0]), evs.drop_first())
    }
}

/// The scanned index of a directory agrees with that directory.
pub proof fn lemma_scan_agrees(files: Seq<FileV>)
    ensures
        index_agrees(index_of_files(files), files),
{
}

proof fn lemma_agree_step(v: CacheV, files: Seq<FileV>, ev: FsEventV)
    requires
        file_names(files).no_duplicates(),
        index_agrees(v, files),
        event_ok(files, ev),
    ensures
        index_agrees(step_index(v, files, ev), step_files(files, ev)),
        file_names(step_files(files, ev)).no_duplicates(),
{
    let w = index_of_files(files);
    lemma_scan_entries_map(files);
    match ev {
        FsEventV::Created(f) => {
            let links = spec_wiki_links(f.content);
            let tags = crate::parser::spec_hashtags(f.content);
            lemma_rescan_create(files, f);
            let v2 = create_transition(v, f.name, f.path, links, tags);
            let w2 = create_transition(w, f.name, f.path, links, tags);
            lemma_phantoms_after_agree(
                links,
                f.name,
                v.entries,
                w.entries,
                v.phantoms.remove(f.name),
            );
            assert(v2.phantoms == w2.phantoms);
            assert(index_agrees(v2, files.push(f))) by {
                assert(forall|j: int|
                    0 <= j < v.entries.len() ==> v2.entries[j] == v.entries[j] && w2.entries[j]
                        == w.entries[j]);
                assert(v2.entries[v.entries.len() as int] == w2.entries[v.entries.len() as int]);
            }
            assert(file_names(files.push(f)) =~= file_names(files).push(f.name));
            let names2 = file_names(files).push(f.name);
            assert forall|a: int, b: int|
                0 <= a < b < names2.len() implies names2[a] != names2[b] by {
                if b == file_names(files).len() {
                    assert(names2[a] == file_names(files)[a]);
                    assert(file_names(files).contains(file_names(files)[a]));
                }
            }
        },
        FsEventV::Modified(i, f) => {
            let name = f.name;
            let nls = spec_wiki_links(f.content);
            lemma_rescan_modify(files, i, f);
            let v2 = modify_transition(v, name, nls);
            let w2 = modify_transition(w, name, nls);
            lemma_links_of_agree(v.entries, w.entries, name);
            let ols = links_of(w.entries, name);
            let removed = diff_list(ols, nls, Set::empty());
            let added = diff_list(nls, ols, Set::empty());
            lemma_phantoms_after_drop_agree(removed, ols, v.entries, w.entries, v.phantoms);
            let ph1 = phantoms_after_drop(removed, ols, w.entries, v.phantoms);
            lemma_phantoms_after_agree(added, name, v.entries, w.entries, ph1);
            assert(v2.phantoms == w2.phantoms);
            if removed.len() == 0 && added.len() == 0 {
                assert(v2 == v);
                assert(w2 == w);
                assert(index_agrees(v2, files.update(i, f))) by {
                    assert(forall|j: int|
                        0 <= j < w2.entries.len() ==> (#[trigger] w2.entries[j]).name
                            == index_of_files(files.update(i, f)).entries[j].name && w2.entries[j].path
                            == index_of_files(files.update(i, f)).entries[j].path
                            && w2.entries[j].links == index_of_files(
                            files.update(i, f),
                        ).entries[j].links);
                }
            } else {
                assert(has_doc(w.entries, name)) by {
                    assert(w.entries[i].name == name);
                }
                let di = doc_index(w.entries, name);
                lemma_doc_index(w.entries, name);
                assert(index_agrees(v2, files.update(i, f))) by {
                    assert(forall|j: int|
                        0 <= j < v.entries.len() && j != di ==> v2.entries[j] == v.entries[j]
                            && w2.entries[j] == w.entries[j]);
                    assert(v2.entries[di].name == w2.entries[di].name && v2.entries[di].path
                        == w2.entries[di].path && v2.entries[di].links == w2.entries[di].links);
                    assert(forall|j: int|
                        0 <= j < w2.entries.len() ==> (#[trigger] w2.entries[j]).name
                            == index_of_files(files.update(i, f)).entries[j].name && w2.entries[j].path
                            == index_of_files(files.update(i, f)).entries[j].path
                            && w2.entries[j].links == index_of_files(
                            files.update(i, f),
                        ).entries[j].links);
                }
            }
            assert(file_names(files.update(i, f)) =~= file_names(files));
        },
        FsEventV::Deleted(i) => {
            let name = files[i].name;
            lemma_rescan_delete(files, i);
            let v2 = delete_transition(v, name);
            let w2 = delete_transition(w, name);
            lemma_links_of_agree(v.entries, w.entries, name);
            let ls = links_of(w.entries, name);
            lemma_phantoms_after_drop_agree(ls, ls, v.entries, w.entries, v.phantoms);
            lemma_has_doc_agree(v.entries, w.entries, name);
            lemma_total_count_agree(v.entries, w.entries, name);
            assert(outside_count(v, name) == outside_count(w, name));
            assert(v2.phantoms == w2.phantoms);
            assert(w.entries[i].name == name);
            assert(has_doc(w.entries, name));
            let di = doc_index(w.entries, name);
            lemma_doc_index(w.entries, name);
            assert(index_agrees(v2, files.remove(i))) by {
                assert(v2.entries =~= v.entries.remove(di));
                assert(w2.entries =~= w.entries.remove(di));
                assert(forall|j: int| 0 <= j < di ==> v2.entries[j] == v.entries[j]);
                assert(forall|j: int|
                    di <= j < v2.entries.len() ==> v2.entries[j] == v.entries[j + 1]);
                assert(forall|j: int| 0 <= j < di ==> w2.entries[j] == w.entries[j]);
                assert(forall|j: int|
                    di <= j < w2.entries.len() ==> w2.entries[j] == w.entries[j + 1]);
            }
            assert(file_names(files.remove(i)) =~= file_names(files).remove(i));
            let n1 = file_names(files);
            let n2 = n1.remove(i);
            assert forall|a: int, b: int| 0 <= a < b < n2.len() implies n2[a] != n2[b] by {
                if b < i {
                } else if a < i {
                    assert(n2[a] == n1[a] && n2[b] == n1[b + 1]);
                } else {
                    assert(n2[a] == n1[a + 1] && n2[b] == n1[b + 1]);
                }
            }
        },
    }
}

/// Rescan equivalence: starting from the scanned index of a directory,
/// handling any admissible sequence of create, modify and delete events
/// leaves an index that agrees with a fresh scan of the resulting directory
/// on every entry's name, path and reference list and on the phantom set, so
/// both yield the same node set (ids, kinds, values) and edge multiset.
pub proof fn lemma_rescan_equivalence(v: CacheV, files: Seq<FileV>, evs: Seq<FsEventV>)
    requires
        file_names(files).no_duplicates(),
        index_agrees(v, files),
        events_ok(files, evs),
    ensures
        index_agrees(apply_events_index(v, files, evs), apply_events(files, evs)),
        file_names(apply_events(files, evs)).no_duplicates(),
    decreases evs.len(),
{
    if evs.len() == 0 {
    } else {
        lemma_agree_step(v, files, evs[0]);
        lemma_rescan_equivalence(
            step_index(v, files, evs[0]),
            step_files(files, evs[0]),
            evs.drop_first(),
        );
    }
}

} // verus!

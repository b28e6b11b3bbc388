//! The graph model and the full-scan builder.
//!
//! A snapshot of the knowledge graph consists of nodes (one per document, plus
//! one phantom node per referenced but missing document) and directed edges
//! (one per wiki-link occurrence; the graph is a multigraph). A node's `value`
//! is the number of edges, counted with multiplicity, that point at it.

use vstd::prelude::*;
use crate::parser::{spec_wiki_links, spec_hashtags, parse_markdown};
use crate::scanner::{MarkdownFile, FileV};

verus! {

/// A node of the graph: a document (`group == None`) or a phantom
/// (`group == Some("phantom")`, no backing document).
#[derive(Debug, Clone, PartialEq)]
pub struct Node {
    pub id: String,
    pub label: String,
    pub value: usize,
    pub group: Option<String>,
    pub file_path: String,
    pub hashtags: Vec<String>,
}

/// The mathematical value of a `Node`.
#[verifier::ext_equal]
pub ghost struct NodeV {
    pub id: Seq<char>,
    pub label: Seq<char>,
    pub value: nat,
    pub group: Option<Seq<char>>,
    pub file_path: Seq<char>,
    pub hashtags: Seq<Seq<char>>,
}

impl View for Node {
    type V = NodeV;

    open spec fn view(&self) -> NodeV {
        NodeV {
            id: self.id@,
            label: self.label@,
            value: self.value as nat,
            group: self.group.deep_view(),
            file_path: self.file_path@,
            hashtags: self.hashtags.deep_view(),
        }
    }
}

impl DeepView for Node {
    type V = NodeV;

    open spec fn deep_view(&self) -> NodeV {
        self.view()
    }
}

/// A directed edge: one wiki-link occurrence from document `from` to target
/// `to`.
#[derive(Debug, Clone, PartialEq)]
pub struct Edge {
    pub from: String,
    pub to: String,
}

/// The mathematical value of an `Edge`.
#[verifier::ext_equal]
pub ghost struct EdgeV {
    pub from: Seq<char>,
    pub to: Seq<char>,
}

impl View for Edge {
    type V = EdgeV;

    open spec fn view(&self) -> EdgeV {
        EdgeV { from: self.from@, to: self.to@ }
    }
}

impl DeepView for Edge {
    type V = EdgeV;

    open spec fn deep_view(&self) -> EdgeV {
        self.view()
    }
}

/// A full graph snapshot.
#[derive(Debug, Clone, PartialEq)]
pub struct GraphData {
    pub nodes: Vec<Node>,
    pub edges: Vec<Edge>,
}

/// The group marker that distinguishes a phantom node.
pub open spec fn phantom_group() -> Option<Seq<char>> {
    Some("phantom"@)
}

/// A phantom node in a snapshot carries the incoming-edge count of its id.
pub open spec fn phantom_node_v(id: Seq<char>, value: nat) -> NodeV {
    NodeV {
        id: id,
        label: id,
        value: value,
        group: phantom_group(),
        file_path: Seq::empty(),
        hashtags: Seq::empty(),
    }
}

/// The edges contributed by one document: one per wiki-link occurrence, in
/// occurrence order.
pub open spec fn file_edges(name: Seq<char>, links: Seq<Seq<char>>) -> Seq<EdgeV> {
    links.map_values(|l: Seq<char>| EdgeV { from: name, to: l })
}

/// All edges of the snapshot of `files`, in file order and occurrence order.
pub open spec fn all_edges(files: Seq<FileV>) -> Seq<EdgeV>
    decreases files.len(),
{
    if files.len() == 0 {
        Seq::empty()
    } else {
        file_edges(files[0].name, spec_wiki_links(files[0].content)) + all_edges(
            files.drop_first(),
        )
    }
}

/// How many of `edges` point at `t` (with multiplicity).
pub open spec fn edge_count_to(edges: Seq<EdgeV>, t: Seq<char>) -> nat
    decreases edges.len(),
{
    if edges.len() == 0 {
        0
    } else {
        (if edges[0].to == t {
            1nat
        } else {
            0nat
        }) + edge_count_to(edges.drop_first(), t)
    }
}

/// The names of the given documents, in order.
pub open spec fn file_names(files: Seq<FileV>) -> Seq<Seq<char>> {
    files.map_values(|f: FileV| f.name)
}

/// The node a document contributes to the snapshot of `files`.
pub open spec fn real_node_of(files: Seq<FileV>, f: FileV) -> NodeV {
    NodeV {
        id: f.name,
        label: f.name,
        value: edge_count_to(all_edges(files), f.name),
        group: None,
        file_path: f.path,
        hashtags: spec_hashtags(f.content),
    }
}

/// The document nodes of the snapshot, in file order.
pub open spec fn real_nodes(files: Seq<FileV>) -> Seq<NodeV> {
    files.map_values(|f: FileV| real_node_of(files, f))
}

/// The referenced ids among `edges` that name no document, each at its first
/// occurrence; `seen` holds the ids already encountered.
pub open spec fn phantom_ids(edges: Seq<EdgeV>, names: Seq<Seq<char>>, seen: Set<Seq<char>>) -> Seq<
    Seq<char>,
>
    decreases edges.len(),
{
    if edges.len() == 0 {
        Seq::empty()
    } else {
        let t = edges[0].to;
        if !names.contains(t) && !seen.contains(t) {
            seq![t] + phantom_ids(edges.drop_first(), names, seen.insert(t))
        } else {
            phantom_ids(edges.drop_first(), names, seen)
        }
    }
}

/// The phantom nodes of the snapshot, in first-reference order.
pub open spec fn phantom_nodes(files: Seq<FileV>) -> Seq<NodeV> {
    phantom_ids(all_edges(files), file_names(files), Set::empty()).map_values(
        |t: Seq<char>| phantom_node_v(t, edge_count_to(all_edges(files), t)),
    )
}

/// All nodes of the snapshot of `files`: document nodes first, then phantoms.
pub open spec fn spec_graph_nodes(files: Seq<FileV>) -> Seq<NodeV> {
    real_nodes(files) + phantom_nodes(files)
}

/// The ids already encountered after scanning `edges` for phantom targets,
/// starting from `seen`: every referenced id that names no document is added.
pub open spec fn seen_after(
    edges: Seq<EdgeV>,
    names: Seq<Seq<char>>,
    seen: Set<Seq<char>>,
) -> Set<Seq<char>>
    decreases edges.len(),
{
    if edges.len() == 0 {
        seen
    } else {
        seen_after(
            edges.drop_first(),
            names,
            if !names.contains(edges[0].to) {
                seen.insert(edges[0].to)
            } else {
                seen
            },
        )
    }
}

proof fn lemma_all_edges_push(files: Seq<FileV>, f: FileV)
    ensures
        all_edges(files.push(f)) == all_edges(files) + file_edges(
            f.name,
            spec_wiki_links(f.content),
        ),
    decreases files.len(),
{
    if files.len() == 0 {
        assert(files.push(f)[0] == f);
        assert(files.push(f).drop_first() =~= Seq::<FileV>::empty());
        assert(all_edges(Seq::<FileV>::empty()) == Seq::<EdgeV>::empty());
        assert(all_edges(files) == Seq::<EdgeV>::empty());
        assert(all_edges(files.push(f)) =~= all_edges(files) + file_edges(
            f.name,
            spec_wiki_links(f.content),
        ));
    } else {
        assert(files.push(f)[0] == files[0]);
        assert(files.push(f).drop_first() =~= files.drop_first().push(f));
        lemma_all_edges_push(files.drop_first(), f);
        assert(all_edges(files.push(f)) =~= all_edges(files) + file_edges(
            f.name,
            spec_wiki_links(f.content),
        ));
    }
}

proof fn lemma_edge_count_push(edges: Seq<EdgeV>, e: EdgeV, t: Seq<char>)
    ensures
        edge_count_to(edges.push(e), t) == edge_count_to(edges, t) + (if e.to == t {
            1nat
        } else {
            0nat
        }),
    decreases edges.len(),
{
    if edges.len() == 0 {
        assert(edges.push(e)[0] == e);
        assert(edges.push(e).drop_first() =~= Seq::<EdgeV>::empty());
        assert(edge_count_to(Seq::<EdgeV>::empty(), t) == 0);
        assert(edge_count_to(edges, t) == 0);
    } else {
        assert(edges.push(e)[0] == edges[0]);
        assert(edges.push(e).drop_first() =~= edges.drop_first().push(e));
        lemma_edge_count_push(edges.drop_first(), e, t);
    }
}

pub(crate) proof fn lemma_edge_count_concat(a: Seq<EdgeV>, b: Seq<EdgeV>, t: Seq<char>)
    ensures
        edge_count_to(a + b, t) == edge_count_to(a, t) + edge_count_to(b, t),
    decreases a.len(),
{
    if a.len() == 0 {
        assert(a + b =~= b);
    } else {
        assert((a + b)[0] == a[0]);
        assert((a + b).drop_first() =~= a.drop_first() + b);
        lemma_edge_count_concat(a.drop_first(), b, t);
    }
}

/// The edge count is positive exactly when some edge points at `t`.
pub(crate) proof fn lemma_edge_count_pos(edges: Seq<EdgeV>, t: Seq<char>)
    ensures
        (edge_count_to(edges, t) > 0) == exists|k: int| 0 <= k < edges.len() && edges[k].to == t,
    decreases edges.len(),
{
    if edges.len() == 0 {
    } else {
        lemma_edge_count_pos(edges.drop_first(), t);
        if edges[0].to == t {
            assert(0 <= 0 < edges.len() && edges[0].to == t);
        } else {
            if exists|k: int| 0 <= k < edges.drop_first().len() && edges.drop_first()[k].to == t {
                let k = choose|k: int|
                    0 <= k < edges.drop_first().len() && edges.drop_first()[k].to == t;
                assert(edges[k + 1].to == t);
            }
            if exists|k: int| 0 <= k < edges.len() && edges[k].to == t {
                let k = choose|k: int| 0 <= k < edges.len() && edges[k].to == t;
                assert(k > 0);
                assert(edges.drop_first()[k - 1].to == t);
            }
        }
    }
}

/// One document's edges point at `t` as often as its reference list names it.
pub(crate) proof fn lemma_file_edges_count(name: Seq<char>, links: Seq<Seq<char>>, t: Seq<char>)
    ensures
        edge_count_to(file_edges(name, links), t) == crate::cache::count_in(links, t),
    decreases links.len(),
{
    if links.len() == 0 {
    } else {
        assert(file_edges(name, links)[0] == (EdgeV { from: name, to: links[0] }));
        assert(file_edges(name, links).drop_first() =~= file_edges(name, links.drop_first()));
        lemma_file_edges_count(name, links.drop_first(), t);
    }
}

proof fn lemma_seen_after_insert(
    edges: Seq<EdgeV>,
    names: Seq<Seq<char>>,
    seen: Set<Seq<char>>,
    x: Seq<char>,
)
    ensures
        seen_after(edges, names, seen.insert(x)) == seen_after(edges, names, seen).insert(x),
    decreases edges.len(),
{
    if edges.len() == 0 {
    } else {
        let t = edges[0].to;
        if !names.contains(t) {
            assert(seen.insert(x).insert(t) =~= seen.insert(t).insert(x));
            lemma_seen_after_insert(edges.drop_first(), names, seen.insert(t), x);
        } else {
            lemma_seen_after_insert(edges.drop_first(), names, seen, x);
        }
    }
}

proof fn lemma_seen_after_push(
    edges: Seq<EdgeV>,
    names: Seq<Seq<char>>,
    seen: Set<Seq<char>>,
    e: EdgeV,
)
    ensures
        seen_after(edges.push(e), names, seen) == (if !names.contains(e.to) {
            seen_after(edges, names, seen).insert(e.to)
        } else {
            seen_after(edges, names, seen)
        }),
    decreases edges.len(),
{
    if edges.len() == 0 {
        assert(edges.push(e)[0] == e);
        assert(edges.push(e).drop_first() =~= Seq::<EdgeV>::empty());
        assert(seen_after(Seq::<EdgeV>::empty(), names, seen.insert(e.to)) == seen.insert(e.to));
        assert(seen_after(Seq::<EdgeV>::empty(), names, seen) == seen);
    } else {
        assert(edges.push(e)[0] == edges[0]);
        assert(edges.push(e).drop_first() =~= edges.drop_first().push(e));
        if !names.contains(edges[0].to) {
            lemma_seen_after_push(edges.drop_first(), names, seen.insert(edges[0].to), e);
        } else {
            lemma_seen_after_push(edges.drop_first(), names, seen, e);
        }
    }
}

proof fn lemma_phantom_ids_push(
    edges: Seq<EdgeV>,
    names: Seq<Seq<char>>,
    seen: Set<Seq<char>>,
    e: EdgeV,
)
    ensures
        phantom_ids(edges.push(e), names, seen) == phantom_ids(edges, names, seen) + (if !names.contains(e.to) && !seen_after(edges, names, seen).contains(e.to) {
            seq![e.to]
        } else {
            Seq::<Seq<char>>::empty()
        }),
    decreases edges.len(),
{
    let fresh = !names.contains(e.to) && !seen_after(edges, names, seen).contains(e.to);
    let tail: Seq<Seq<char>> = if fresh {
        seq![e.to]
    } else {
        Seq::empty()
    };
    if edges.len() == 0 {
        assert(edges.push(e)[0] == e);
        assert(edges.push(e).drop_first() =~= Seq::<EdgeV>::empty());
        assert(seen_after(edges, names, seen) == seen);
        assert(phantom_ids(Seq::<EdgeV>::empty(), names, seen.insert(e.to)) == Seq::<Seq<char>>::empty());
        assert(phantom_ids(Seq::<EdgeV>::empty(), names, seen) == Seq::<Seq<char>>::empty());
        assert(phantom_ids(edges, names, seen) == Seq::<Seq<char>>::empty());
        assert(phantom_ids(edges.push(e), names, seen) =~= phantom_ids(edges, names, seen) + tail);
    } else {
        let t = edges[0].to;
        assert(edges.push(e)[0] == edges[0]);
        assert(edges.push(e).drop_first() =~= edges.drop_first().push(e));
        if !names.contains(t) && !seen.contains(t) {
            lemma_phantom_ids_push(edges.drop_first(), names, seen.insert(t), e);
            assert(phantom_ids(edges.push(e), names, seen) =~= phantom_ids(edges, names, seen)
                + tail);
        } else {
            if !names.contains(t) {
                assert(seen.insert(t) =~= seen);
                assert(seen_after(edges, names, seen) == seen_after(
                    edges.drop_first(),
                    names,
                    seen,
                )) by {
                    assert(seen_after(edges, names, seen) == seen_after(
                        edges.drop_first(),
                        names,
                        seen.insert(t),
                    ));
                }
            }
            lemma_phantom_ids_push(edges.drop_first(), names, seen, e);
            assert(phantom_ids(edges.push(e), names, seen) =~= phantom_ids(edges, names, seen)
                + tail);
        }
    }
}

/// Counts the edges of `edges` whose target is `t`.
fn count_edges_to(edges: &Vec<Edge>, t: &String) -> (r: usize)
    ensures
        r as nat == edge_count_to(edges.deep_view(), t@),
{
    let ghost es = edges.deep_view();
    let mut r: usize = 0;
    let mut k: usize = 0;
    while k < edges.len()
        invariant
            k <= edges.len(),
            es == edges.deep_view(),
            r <= k,
            r as nat == edge_count_to(es.take(k as int), t@),
        decreases edges.len() - k,
    {
        proof {
            assert(es.take(k + 1) =~= es.take(k as int).push(es[k as int]));
            lemma_edge_count_push(es.take(k as int), es[k as int], t@);
        }
        if edges[k].to == *t {
            r = r + 1;
        }
        k = k + 1;
    }
    proof {
        assert(es.take(edges.len() as int) =~= es);
    }
    r
}

/// Whether `v` holds a string whose characters equal those of `t`.
pub(crate) fn contains_string(v: &Vec<String>, t: &String) -> (r: bool)
    ensures
        r == v.deep_view().contains(t@),
{
    let mut k: usize = 0;
    while k < v.len()
        invariant
            k <= v.len(),
            forall|m: int| 0 <= m < k ==> v.deep_view()[m] != t@,
        decreases v.len() - k,
    {
        if v[k] == *t {
            assert(v.deep_view()[k as int] == t@);
            return true;
        }
        k = k + 1;
    }
    assert(!v.deep_view().contains(t@));
    false
}

/// Builds the full snapshot of `files`: all edges first, then one document
/// node per file, then one phantom node per referenced id that names no file.
/// A node's `value` is the number of edges pointing at its id, with
/// multiplicity.
pub fn build_graph(files: Vec<MarkdownFile>) -> (graph: GraphData)
    ensures
        graph.nodes.deep_view() == spec_graph_nodes(files.deep_view()),
        graph.edges.deep_view() == all_edges(files.deep_view()),
{
    broadcast use vstd::seq_lib::group_seq_lib_default;

    let ghost fs = files.deep_view();
    proof {
        assert(fs.len() == files@.len());
    }
    let n = files.len();

    let mut names: Vec<String> = Vec::new();
    let mut k: usize = 0;
    while k < n
        invariant
            n == files.len(),
            k <= n,
            fs == files.deep_view(),
            names.deep_view() == file_names(fs).take(k as int),
        decreases n - k,
    {
        let f = &files[k];
        proof {
            assert(fs[k as int] == files@[k as int].deep_view());
        }
        let ghost names_dv = names.deep_view();
        names.push(f.name.clone());
        k = k + 1;
        proof {
            assert(names.deep_view() =~= names_dv.push(fs[k - 1].name));
            assert(file_names(fs).take(k as int) =~= file_names(fs).take(k - 1).push(
                fs[k - 1].name,
            ));
        }
    }
    proof {
        assert(names.deep_view() =~= file_names(fs));
    }

    let mut edges: Vec<Edge> = Vec::new();
    k = 0;
    while k < n
        invariant
            n == files.len(),
            k <= n,
            fs == files.deep_view(),
            edges.deep_view() == all_edges(fs.take(k as int)),
        decreases n - k,
    {
        let f = &files[k];
        proof {
            assert(fs[k as int] == files@[k as int].deep_view());
        }
        let p = parse_markdown(f.content.as_str());
        let row = p.wiki_links;
        let ghost row_links = spec_wiki_links(fs[k as int].content);
        assert(row.deep_view() == row_links);
        let mut m: usize = 0;
        while m < row.len()
            invariant
                n == files.len(),
                k < n,
                m <= row.len(),
                fs == files.deep_view(),
                row.deep_view() == row_links,
                row_links == spec_wiki_links(fs[k as int].content),
                edges.deep_view() == all_edges(fs.take(k as int)) + file_edges(
                    fs[k as int].name,
                    row_links,
                ).take(m as int),
        decreases row.len() - m,
        {
            proof {
                assert(fs[k as int] == files@[k as int].deep_view());
                assert(row.deep_view()[m as int] == row@[m as int]@);
            }
            let ghost edges_dv = edges.deep_view();
            edges.push(Edge { from: files[k].name.clone(), to: row[m].clone() });
            m = m + 1;
            proof {
                assert(edges.deep_view() =~= edges_dv.push(
                    EdgeV { from: fs[k as int].name, to: row_links[m - 1] },
                ));
                assert(file_edges(fs[k as int].name, row_links).take(m as int) =~= file_edges(
                    fs[k as int].name,
                    row_links,
                ).take(m - 1).push(EdgeV { from: fs[k as int].name, to: row_links[m - 1] }));
                assert(edges.deep_view() =~= all_edges(fs.take(k as int)) + file_edges(
                    fs[k as int].name,
                    row_links,
                ).take(m as int));
            }
        }
        k = k + 1;
        proof {
            assert(file_edges(fs[k - 1].name, row_links).take(row_links.len() as int)
                =~= file_edges(fs[k - 1].name, row_links));
            assert(fs.take(k as int) =~= fs.take(k - 1).push(fs[k - 1]));
            lemma_all_edges_push(fs.take(k - 1), fs[k - 1]);
            assert(edges.deep_view() =~= all_edges(fs.take(k as int)));
        }
    }
    proof {
        assert(fs.take(n as int) =~= fs);
    }
    let ghost es = edges.deep_view();
    assert(es == all_edges(fs));

    let mut nodes: Vec<Node> = Vec::new();
    k = 0;
    while k < n
        invariant
            n == files.len(),
            k <= n,
            fs == files.deep_view(),
            es == edges.deep_view(),
            es == all_edges(fs),
            nodes.deep_view() == real_nodes(fs).take(k as int),
        decreases n - k,
    {
        let f = &files[k];
        proof {
            assert(fs[k as int] == files@[k as int].deep_view());
        }
        let p = parse_markdown(f.content.as_str());
        let value = count_edges_to(&edges, &f.name);
        let node = Node {
            id: f.name.clone(),
            label: f.name.clone(),
            value,
            group: None,
            file_path: f.path.clone(),
            hashtags: p.hashtags,
        };
        proof {
            assert(node@ =~~= real_node_of(fs, fs[k as int]));
        }
        let ghost nodes_dv = nodes.deep_view();
        nodes.push(node);
        k = k + 1;
        proof {
            assert(nodes.deep_view() =~= nodes_dv.push(real_node_of(fs, fs[k - 1])));
            assert(real_nodes(fs).take(k as int) =~= real_nodes(fs).take(k - 1).push(
                real_node_of(fs, fs[k - 1]),
            ));
        }
    }
    proof {
        assert(real_nodes(fs).take(n as int) =~= real_nodes(fs));
        assert(nodes.deep_view() == real_nodes(fs));
    }

    let ghost names_v = file_names(fs);
    let mut seen: Vec<String> = Vec::new();
    let mut m: usize = 0;
    proof {
        assert(seen.deep_view().to_set() =~= seen_after(es.take(0), names_v, Set::empty()));
        assert(nodes.deep_view() =~= real_nodes(fs) + phantom_ids(
            es.take(0),
            names_v,
            Set::empty(),
        ).map_values(|t: Seq<char>| phantom_node_v(t, edge_count_to(es, t))));
    }
    while m < edges.len()
        invariant
            fs == files.deep_view(),
            es == edges.deep_view(),
            es == all_edges(fs),
            names.deep_view() == names_v,
            names_v == file_names(fs),
            m <= edges.len(),
            seen.deep_view().to_set() == seen_after(es.take(m as int), names_v, Set::empty()),
            nodes.deep_view() == real_nodes(fs) + phantom_ids(
                es.take(m as int),
                names_v,
                Set::empty(),
            ).map_values(|t: Seq<char>| phantom_node_v(t, edge_count_to(es, t))),
        decreases edges.len() - m,
    {
        let t = edges[m].to.clone();
        proof {
            assert(es[m as int] == edges@[m as int].deep_view());
            assert(t@ == es[m as int].to);
            assert(es.take(m + 1) =~= es.take(m as int).push(es[m as int]));
            lemma_seen_after_push(es.take(m as int), names_v, Set::empty(), es[m as int]);
            lemma_phantom_ids_push(es.take(m as int), names_v, Set::empty(), es[m as int]);
        }
        if !contains_string(&names, &t) && !contains_string(&seen, &t) {
            assert(!seen_after(es.take(m as int), names_v, Set::empty()).contains(t@));
            let value = count_edges_to(&edges, &t);
            let node = Node {
                id: t.clone(),
                label: t.clone(),
                value,
                group: Some("phantom".to_owned()),
                file_path: String::new(),
                hashtags: Vec::new(),
            };
            proof {
                assert(node@ =~~= phantom_node_v(es[m as int].to, edge_count_to(es, es[m as int].to)));
            }
            let ghost nodes_dv = nodes.deep_view();
            let ghost seen_dv = seen.deep_view();
            nodes.push(node);
            seen.push(t);
            proof {
                assert(nodes.deep_view() =~= nodes_dv.push(
                    phantom_node_v(es[m as int].to, edge_count_to(es, es[m as int].to)),
                ));
                assert(phantom_ids(es.take(m + 1), names_v, Set::empty()).map_values(
                    |t: Seq<char>| phantom_node_v(t, edge_count_to(es, t)),
                ) =~= phantom_ids(es.take(m as int), names_v, Set::empty()).map_values(
                    |t: Seq<char>| phantom_node_v(t, edge_count_to(es, t)),
                ).push(phantom_node_v(es[m as int].to, edge_count_to(es, es[m as int].to))));
                assert(seen.deep_view() =~= seen_dv.push(es[m as int].to));
                seen_dv.lemma_push_to_set_commute(es[m as int].to);
                assert(seen.deep_view().to_set() =~= seen_dv.to_set().insert(es[m as int].to));
                assert(seen.deep_view().to_set() =~= seen_after(
                    es.take(m + 1),
                    names_v,
                    Set::empty(),
                ));
            }
        } else {
            proof {
                if !names_v.contains(es[m as int].to) {
                    assert(seen.deep_view().to_set().contains(es[m as int].to));
                    assert(seen_after(es.take(m + 1), names_v, Set::empty()) =~= seen_after(
                        es.take(m as int),
                        names_v,
                        Set::empty(),
                    ));
                }
                assert(phantom_ids(es.take(m + 1), names_v, Set::empty()) =~= phantom_ids(
                    es.take(m as int),
                    names_v,
                    Set::empty(),
                ));
            }
        }
        m = m + 1;
    }
    proof {
        assert(es.take(edges.len() as int) =~= es);
        assert(nodes.deep_view() =~= spec_graph_nodes(fs));
    }

    GraphData { nodes, edges }
}

pub(crate) proof fn lemma_phantom_ids_props(
    edges: Seq<EdgeV>,
    names: Seq<Seq<char>>,
    seen: Set<Seq<char>>,
)
    ensures
        phantom_ids(edges, names, seen).no_duplicates(),
        forall|x: Seq<char>| #[trigger] phantom_ids(edges, names, seen).contains(x) ==> !names.contains(x)
            && !seen.contains(x),
        forall|k: int|
            0 <= k < edges.len() && !names.contains(#[trigger] edges[k].to) ==> seen.contains(
                edges[k].to,
            ) || phantom_ids(edges, names, seen).contains(edges[k].to),
        forall|x: Seq<char>| #[trigger] phantom_ids(edges, names, seen).contains(x) ==> exists|k: int|
            0 <= k < edges.len() && edges[k].to == x,
    decreases edges.len(),
{
    if edges.len() == 0 {
    } else {
        let t = edges[0].to;
        let rest = edges.drop_first();
        if !names.contains(t) && !seen.contains(t) {
            let r = phantom_ids(rest, names, seen.insert(t));
            let whole = phantom_ids(edges, names, seen);
            lemma_phantom_ids_props(rest, names, seen.insert(t));
            assert(whole == seq![t] + r);
            assert forall|x: Seq<char>| #[trigger] whole.contains(x) implies exists|k: int|
                0 <= k < edges.len() && edges[k].to == x by {
                let i = choose|i: int| 0 <= i < whole.len() && whole[i] == x;
                if i == 0 {
                    assert(edges[0].to == x);
                } else {
                    assert(whole[i] == r[i - 1]);
                    assert(r.contains(x));
                    let k = choose|k: int| 0 <= k < rest.len() && rest[k].to == x;
                    assert(edges[k + 1].to == x);
                }
            }
            assert(whole[0] == t);
            assert(forall|i: int| 0 <= i < r.len() ==> whole[i + 1] == r[i]);
            assert forall|i: int, j: int| 0 <= i < j < whole.len() implies whole[i] != whole[j] by {
                if i == 0 {
                    assert(r.contains(whole[j])) by {
                        assert(whole[j] == r[j - 1]);
                    }
                    assert(!seen.insert(t).contains(whole[j]));
                } else {
                    assert(whole[i] == r[i - 1]);
                    assert(whole[j] == r[j - 1]);
                }
            }
            assert forall|x: Seq<char>| #[trigger] whole.contains(x) implies !names.contains(x)
                && !seen.contains(x) by {
                let i = choose|i: int| 0 <= i < whole.len() && whole[i] == x;
                if i == 0 {
                } else {
                    assert(whole[i] == r[i - 1]);
                    assert(r.contains(x));
                }
            }
            assert forall|k: int|
                0 <= k < edges.len() && !names.contains(#[trigger] edges[k].to) implies seen.contains(
                edges[k].to,
            ) || whole.contains(edges[k].to) by {
                if k == 0 {
                    assert(whole[0] == t);
                    assert(whole.contains(t));
                } else {
                    let u = edges[k].to;
                    assert(rest[k - 1].to == u);
                    if seen.insert(t).contains(u) {
                        if u == t {
                            assert(whole.contains(t));
                        }
                    } else {
                        assert(r.contains(u));
                        let i = choose|i: int| 0 <= i < r.len() && r[i] == u;
                        assert(whole[i + 1] == u);
                        assert(whole.contains(u));
                    }
                }
            }
        } else {
            let whole = phantom_ids(edges, names, seen);
            lemma_phantom_ids_props(rest, names, seen);
            assert(whole == phantom_ids(rest, names, seen));
            assert forall|x: Seq<char>| #[trigger] whole.contains(x) implies exists|k: int|
                0 <= k < edges.len() && edges[k].to == x by {
                let k = choose|k: int| 0 <= k < rest.len() && rest[k].to == x;
                assert(edges[k + 1].to == x);
            }
            assert forall|k: int|
                0 <= k < edges.len() && !names.contains(#[trigger] edges[k].to) implies seen.contains(
                edges[k].to,
            ) || whole.contains(edges[k].to) by {
                if k == 0 {
                } else {
                    assert(rest[k - 1].to == edges[k].to);
                }
            }
        }
    }
}

proof fn lemma_all_edges_from(files: Seq<FileV>)
    ensures
        forall|k: int|
            0 <= k < all_edges(files).len() ==> file_names(files).contains(
                #[trigger] all_edges(files)[k].from,
            ),
    decreases files.len(),
{
    if files.len() == 0 {
    } else {
        let rest = files.drop_first();
        let head_edges = file_edges(files[0].name, spec_wiki_links(files[0].content));
        lemma_all_edges_from(rest);
        assert forall|k: int| 0 <= k < all_edges(files).len() implies file_names(files).contains(
            #[trigger] all_edges(files)[k].from,
        ) by {
            if k < head_edges.len() {
                assert(all_edges(files)[k] == head_edges[k]);
                assert(head_edges[k].from == files[0].name);
                assert(file_names(files)[0] == files[0].name);
            } else {
                let j = k - head_edges.len();
                assert(all_edges(files)[k] == all_edges(rest)[j]);
                assert(file_names(rest).contains(all_edges(rest)[j].from));
                let i = choose|i: int|
                    0 <= i < file_names(rest).len() && file_names(rest)[i] == all_edges(rest)[j].from;
                assert(file_names(files)[i + 1] == file_names(rest)[i]);
            }
        }
    }
}

/// Count consistency: in the snapshot of any document set, every node's
/// `value` equals the number of edges, counted with multiplicity, whose
/// target is that node's id.
pub proof fn lemma_count_consistency(files: Seq<FileV>)
    ensures
        forall|k: int|
            0 <= k < spec_graph_nodes(files).len() ==> (#[trigger] spec_graph_nodes(files)[k]).value
                == edge_count_to(all_edges(files), spec_graph_nodes(files)[k].id),
{
    let nodes = spec_graph_nodes(files);
    let reals = real_nodes(files);
    let phs = phantom_nodes(files);
    assert forall|k: int| 0 <= k < nodes.len() implies (#[trigger] nodes[k]).value == edge_count_to(
        all_edges(files),
        nodes[k].id,
    ) by {
        if k < reals.len() {
            assert(nodes[k] == reals[k]);
            assert(reals[k] == real_node_of(files, files[k]));
        } else {
            let j = k - reals.len();
            assert(nodes[k] == phs[j]);
            let ids = phantom_ids(all_edges(files), file_names(files), Set::empty());
            assert(phs[j] == phantom_node_v(ids[j], edge_count_to(all_edges(files), ids[j])));
        }
    }
}

/// Referential completeness: if the documents have distinct names, then in
/// their snapshot every edge endpoint is the id of exactly one node; node ids
/// never repeat.
pub proof fn lemma_referential_completeness(files: Seq<FileV>)
    requires
        file_names(files).no_duplicates(),
    ensures
        spec_graph_nodes(files).map_values(|n: NodeV| n.id).no_duplicates(),
        forall|k: int|
            0 <= k < all_edges(files).len() ==> spec_graph_nodes(files).map_values(
                |n: NodeV| n.id,
            ).contains(#[trigger] all_edges(files)[k].from) && spec_graph_nodes(files).map_values(
                |n: NodeV| n.id,
            ).contains(all_edges(files)[k].to),
{
    let names = file_names(files);
    let pids = phantom_ids(all_edges(files), names, Set::empty());
    let ids = spec_graph_nodes(files).map_values(|n: NodeV| n.id);
    assert(ids =~= names + pids);
    lemma_phantom_ids_props(all_edges(files), names, Set::empty());
    lemma_all_edges_from(files);

    assert forall|i: int, j: int| 0 <= i < j < ids.len() implies ids[i] != ids[j] by {
        if j < names.len() {
        } else if i >= names.len() {
            assert(ids[i] == pids[i - names.len()]);
            assert(ids[j] == pids[j - names.len()]);
        } else {
            assert(ids[i] == names[i]);
            assert(ids[j] == pids[j - names.len()]);
            assert(pids.contains(pids[j - names.len()]));
            assert(!names.contains(pids[j - names.len()]));
            assert(names.contains(names[i]));
        }
    }

    assert forall|k: int| 0 <= k < all_edges(files).len() implies ids.contains(
        #[trigger] all_edges(files)[k].from,
    ) && ids.contains(all_edges(files)[k].to) by {
        let e = all_edges(files)[k];
        assert(names.contains(e.from));
        let i = choose|i: int| 0 <= i < names.len() && names[i] == e.from;
        assert(ids[i] == e.from);
        if names.contains(e.to) {
            let i2 = choose|i2: int| 0 <= i2 < names.len() && names[i2] == e.to;
            assert(ids[i2] == e.to);
        } else {
            assert(pids.contains(e.to));
            let i3 = choose|i3: int| 0 <= i3 < pids.len() && pids[i3] == e.to;
            assert(ids[names.len() + i3] == e.to);
        }
    }
}

impl Node {
    /// The node a phantom enters a delta with: its first incoming edge gives
    /// it value 1.
    pub fn phantom(id: &str) -> (n: Node)
        ensures
            n@ == phantom_node_v(id@, 1),
    {
        let n = Node {
            id: id.to_owned(),
            label: id.to_owned(),
            value: 1,
            group: Some("phantom".to_owned()),
            file_path: String::new(),
            hashtags: Vec::new(),
        };
        proof {
            assert(n@ =~~= phantom_node_v(id@, 1));
        }
        n
    }
}

impl GraphData {
    /// Creates an empty snapshot.
    pub fn new() -> (g: GraphData)
        ensures
            g.nodes.deep_view() == Seq::<NodeV>::empty(),
            g.edges.deep_view() == Seq::<EdgeV>::empty(),
    {
        let g = GraphData { nodes: Vec::new(), edges: Vec::new() };
        proof {
            assert(g.nodes.deep_view() =~= Seq::<NodeV>::empty());
            assert(g.edges.deep_view() =~= Seq::<EdgeV>::empty());
        }
        g
    }
}

} // verus!

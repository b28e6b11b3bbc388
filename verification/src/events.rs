//! The change emitter: serializes a delta into discrete events in the fixed
//! emission order node-removed, edge-removed, node-added, node-updated,
//! edge-added. That order is the only safe way a consumer can apply changes
//! without transient duplicate-id or dangling-edge states; within one kind the
//! computation order is preserved. Sending each event onward is the embedding
//! application's job.

use vstd::prelude::*;
use crate::graph::{Node, Edge, NodeV, EdgeV};
use crate::delta::{GraphDelta, DeltaV};

verus! {

/// One discrete change to the graph.
#[derive(Debug, Clone, PartialEq)]
pub enum GraphDeltaEvent {
    NodeAdded { node: Node },
    NodeRemoved { node_id: String },
    NodeUpdated { node: Node },
    EdgeAdded { edge: Edge },
    EdgeRemoved { edge: Edge },
}

/// The mathematical value of a `GraphDeltaEvent`.
pub ghost enum EventV {
    NodeAdded(NodeV),
    NodeRemoved(Seq<char>),
    NodeUpdated(NodeV),
    EdgeAdded(EdgeV),
    EdgeRemoved(EdgeV),
}

impl View for GraphDeltaEvent {
    type V = EventV;

    open spec fn view(&self) -> EventV {
        match self {
            GraphDeltaEvent::NodeAdded { node } => EventV::NodeAdded(node@),
            GraphDeltaEvent::NodeRemoved { node_id } => EventV::NodeRemoved(node_id@),
            GraphDeltaEvent::NodeUpdated { node } => EventV::NodeUpdated(node@),
            GraphDeltaEvent::EdgeAdded { edge } => EventV::EdgeAdded(edge@),
            GraphDeltaEvent::EdgeRemoved { edge } => EventV::EdgeRemoved(edge@),
        }
    }
}

impl DeepView for GraphDeltaEvent {
    type V = EventV;

    open spec fn deep_view(&self) -> EventV {
        self.view()
    }
}

/// The event sequence a delta is emitted as: the five kinds in emission
/// order, each kind in computation order.
pub open spec fn spec_emit(d: DeltaV) -> Seq<EventV> {
    d.nodes_removed.map_values(|i: Seq<char>| EventV::NodeRemoved(i)) + d.edges_removed.map_values(
        |e: EdgeV| EventV::EdgeRemoved(e),
    ) + d.nodes_added.map_values(|n: NodeV| EventV::NodeAdded(n)) + d.nodes_updated.map_values(
        |n: NodeV| EventV::NodeUpdated(n),
    ) + d.edges_added.map_values(|e: EdgeV| EventV::EdgeAdded(e))
}

/// The position of an event's kind in the emission order.
pub open spec fn event_rank(e: EventV) -> int {
    match e {
        EventV::NodeRemoved(_) => 0,
        EventV::EdgeRemoved(_) => 1,
        EventV::NodeAdded(_) => 2,
        EventV::NodeUpdated(_) => 3,
        EventV::EdgeAdded(_) => 4,
    }
}

/// Emission order law: in the event sequence of any delta, the kinds appear
/// in the fixed order node-removed, edge-removed, node-added, node-updated,
/// edge-added; no later kind ever precedes an earlier one.
pub proof fn lemma_emission_order(d: DeltaV)
    ensures
        forall|i: int, j: int|
            0 <= i <= j < spec_emit(d).len() ==> event_rank(spec_emit(d)[i]) <= event_rank(
                spec_emit(d)[j],
            ),
{
    let s = spec_emit(d);
    let n0 = d.nodes_removed.len() as int;
    let n1 = n0 + d.edges_removed.len();
    let n2 = n1 + d.nodes_added.len();
    let n3 = n2 + d.nodes_updated.len();
    assert forall|i: int| 0 <= i < s.len() implies event_rank(s[i]) == (if i < n0 {
        0int
    } else if i < n1 {
        1int
    } else if i < n2 {
        2int
    } else if i < n3 {
        3int
    } else {
        4int
    }) by {
        if i < n0 {
            assert(s[i] == EventV::NodeRemoved(d.nodes_removed[i]));
        } else if i < n1 {
            assert(s[i] == EventV::EdgeRemoved(d.edges_removed[i - n0]));
        } else if i < n2 {
            assert(s[i] == EventV::NodeAdded(d.nodes_added[i - n1]));
        } else if i < n3 {
            assert(s[i] == EventV::NodeUpdated(d.nodes_updated[i - n2]));
        } else {
            assert(s[i] == EventV::EdgeAdded(d.edges_added[i - n3]));
        }
    }
}

/// Turns a delta into its ordered event sequence: removals first (nodes, then
/// edges), then added nodes, updated nodes, and added edges last.
pub fn emit_delta(delta: GraphDelta) -> (r: Vec<GraphDeltaEvent>)
    ensures
        r.deep_view() == spec_emit(delta@),
{
    let ghost d0 = delta@;
    let mut delta = delta;
    let mut events: Vec<GraphDeltaEvent> = Vec::new();
    let ghost base0: Seq<EventV> = Seq::empty();
    proof {
        assert(events.deep_view() =~= base0);
    }

    let ghost part0 = base0 + d0.nodes_removed.map_values(|i: Seq<char>| EventV::NodeRemoved(i));
    proof {
        assert(d0.nodes_removed.skip(0) =~= d0.nodes_removed);
        assert(events.deep_view() =~= part0.take(base0.len() as int));
    }
    while delta.nodes_removed.len() > 0
        invariant
            base0.len() <= events.deep_view().len() <= part0.len(),
            part0 == base0 + d0.nodes_removed.map_values(|i: Seq<char>| EventV::NodeRemoved(i)),
            delta.nodes_removed.deep_view() == d0.nodes_removed.skip(
                events.deep_view().len() - base0.len(),
            ),
            events.deep_view() == part0.take(events.deep_view().len() as int),
            delta.edges_removed.deep_view() == d0.edges_removed,
            delta.nodes_added.deep_view() == d0.nodes_added,
            delta.nodes_updated.deep_view() == d0.nodes_updated,
            delta.edges_added.deep_view() == d0.edges_added,
        decreases delta.nodes_removed.len(),
    {
        let ghost k = events.deep_view().len() - base0.len();
        let ghost ev = events.deep_view();
        let ghost before = delta.nodes_removed.deep_view();
        proof {
            assert(delta.nodes_removed.deep_view().len() == delta.nodes_removed@.len());
            assert(before[0] == delta.nodes_removed@[0].deep_view());
            assert(before[0] == d0.nodes_removed[k]);
        }
        let node_id = delta.nodes_removed.remove(0);
        proof {
            assert(node_id.deep_view() == d0.nodes_removed[k]);
            assert(delta.nodes_removed.deep_view() =~= before.remove(0));
            assert(before.remove(0) =~= d0.nodes_removed.skip(k + 1));
        }
        events.push(GraphDeltaEvent::NodeRemoved { node_id });
        proof {
            assert(events.deep_view() =~= ev.push(EventV::NodeRemoved(d0.nodes_removed[k])));
            assert(part0[base0.len() + k] == EventV::NodeRemoved(d0.nodes_removed[k]));
            assert(events.deep_view() =~= part0.take(ev.len() + 1int));
        }
    }
    proof {
        assert(events.deep_view() =~= part0);
    }
    let ghost base1 = part0;

    let ghost part1 = base1 + d0.edges_removed.map_values(|e: EdgeV| EventV::EdgeRemoved(e));
    proof {
        assert(d0.edges_removed.skip(0) =~= d0.edges_removed);
        assert(events.deep_view() =~= part1.take(base1.len() as int));
    }
    while delta.edges_removed.len() > 0
        invariant
            base1.len() <= events.deep_view().len() <= part1.len(),
            part1 == base1 + d0.edges_removed.map_values(|e: EdgeV| EventV::EdgeRemoved(e)),
            delta.edges_removed.deep_view() == d0.edges_removed.skip(
                events.deep_view().len() - base1.len(),
            ),
            events.deep_view() == part1.take(events.deep_view().len() as int),
            delta.nodes_added.deep_view() == d0.nodes_added,
            delta.nodes_updated.deep_view() == d0.nodes_updated,
            delta.edges_added.deep_view() == d0.edges_added,
        decreases delta.edges_removed.len(),
    {
        let ghost k = events.deep_view().len() - base1.len();
        let ghost ev = events.deep_view();
        let ghost before = delta.edges_removed.deep_view();
        proof {
            assert(delta.edges_removed.deep_view().len() == delta.edges_removed@.len());
            assert(before[0] == delta.edges_removed@[0].deep_view());
            assert(before[0] == d0.edges_removed[k]);
        }
        let edge = delta.edges_removed.remove(0);
        proof {
            assert(edge.deep_view() == d0.edges_removed[k]);
            assert(delta.edges_removed.deep_view() =~= before.remove(0));
            assert(before.remove(0) =~= d0.edges_removed.skip(k + 1));
        }
        events.push(GraphDeltaEvent::EdgeRemoved { edge });
        proof {
            assert(events.deep_view() =~= ev.push(EventV::EdgeRemoved(d0.edges_removed[k])));
            assert(part1[base1.len() + k] == EventV::EdgeRemoved(d0.edges_removed[k]));
            assert(events.deep_view() =~= part1.take(ev.len() + 1int));
        }
    }
    proof {
        assert(events.deep_view() =~= part1);
    }
    let ghost base2 = part1;

    let ghost part2 = base2 + d0.nodes_added.map_values(|n: NodeV| EventV::NodeAdded(n));
    proof {
        assert(d0.nodes_added.skip(0) =~= d0.nodes_added);
        assert(events.deep_view() =~= part2.take(base2.len() as int));
    }
    while delta.nodes_added.len() > 0
        invariant
            base2.len() <= events.deep_view().len() <= part2.len(),
            part2 == base2 + d0.nodes_added.map_values(|n: NodeV| EventV::NodeAdded(n)),
            delta.nodes_added.deep_view() == d0.nodes_added.skip(
                events.deep_view().len() - base2.len(),
            ),
            events.deep_view() == part2.take(events.deep_view().len() as int),
            delta.nodes_updated.deep_view() == d0.nodes_updated,
            delta.edges_added.deep_view() == d0.edges_added,
        decreases delta.nodes_added.len(),
    {
        let ghost k = events.deep_view().len() - base2.len();
        let ghost ev = events.deep_view();
        let ghost before = delta.nodes_added.deep_view();
        proof {
            assert(delta.nodes_added.deep_view().len() == delta.nodes_added@.len());
            assert(before[0] == delta.nodes_added@[0].deep_view());
            assert(before[0] == d0.nodes_added[k]);
        }
        let node = delta.nodes_added.remove(0);
        proof {
            assert(node.deep_view() == d0.nodes_added[k]);
            assert(delta.nodes_added.deep_view() =~= before.remove(0));
            assert(before.remove(0) =~= d0.nodes_added.skip(k + 1));
        }
        events.push(GraphDeltaEvent::NodeAdded { node });
        proof {
            assert(events.deep_view() =~= ev.push(EventV::NodeAdded(d0.nodes_added[k])));
            assert(part2[base2.len() + k] == EventV::NodeAdded(d0.nodes_added[k]));
            assert(events.deep_view() =~= part2.take(ev.len() + 1int));
        }
    }
    proof {
        assert(events.deep_view() =~= part2);
    }
    let ghost base3 = part2;

    let ghost part3 = base3 + d0.nodes_updated.map_values(|n: NodeV| EventV::NodeUpdated(n));
    proof {
        assert(d0.nodes_updated.skip(0) =~= d0.nodes_updated);
        assert(events.deep_view() =~= part3.take(base3.len() as int));
    }
    while delta.nodes_updated.len() > 0
        invariant
            base3.len() <= events.deep_view().len() <= part3.len(),
            part3 == base3 + d0.nodes_updated.map_values(|n: NodeV| EventV::NodeUpdated(n)),
            delta.nodes_updated.deep_view() == d0.nodes_updated.skip(
                events.deep_view().len() - base3.len(),
            ),
            events.deep_view() == part3.take(events.deep_view().len() as int),
            delta.edges_added.deep_view() == d0.edges_added,
        decreases delta.nodes_updated.len(),
    {
        let ghost k = events.deep_view().len() - base3.len();
        let ghost ev = events.deep_view();
        let ghost before = delta.nodes_updated.deep_view();
        proof {
            assert(delta.nodes_updated.deep_view().len() == delta.nodes_updated@.len());
            assert(before[0] == delta.nodes_updated@[0].deep_view());
            assert(before[0] == d0.nodes_updated[k]);
        }
        let node = delta.nodes_updated.remove(0);
        proof {
            assert(node.deep_view() == d0.nodes_updated[k]);
            assert(delta.nodes_updated.deep_view() =~= before.remove(0));
            assert(before.remove(0) =~= d0.nodes_updated.skip(k + 1));
        }
        events.push(GraphDeltaEvent::NodeUpdated { node });
        proof {
            assert(events.deep_view() =~= ev.push(EventV::NodeUpdated(d0.nodes_updated[k])));
            assert(part3[base3.len() + k] == EventV::NodeUpdated(d0.nodes_updated[k]));
            assert(events.deep_view() =~= part3.take(ev.len() + 1int));
        }
    }
    proof {
        assert(events.deep_view() =~= part3);
    }
    let ghost base4 = part3;

    let ghost part4 = base4 + d0.edges_added.map_values(|e: EdgeV| EventV::EdgeAdded(e));
    proof {
        assert(d0.edges_added.skip(0) =~= d0.edges_added);
        assert(events.deep_view() =~= part4.take(base4.len() as int));
    }
    while delta.edges_added.len() > 0
        invariant
            base4.len() <= events.deep_view().len() <= part4.len(),
            part4 == base4 + d0.edges_added.map_values(|e: EdgeV| EventV::EdgeAdded(e)),
            delta.edges_added.deep_view() == d0.edges_added.skip(
                events.deep_view().len() - base4.len(),
            ),
            events.deep_view() == part4.take(events.deep_view().len() as int),

        decreases delta.edges_added.len(),
    {
        let ghost k = events.deep_view().len() - base4.len();
        let ghost ev = events.deep_view();
        let ghost before = delta.edges_added.deep_view();
        proof {
            assert(delta.edges_added.deep_view().len() == delta.edges_added@.len());
            assert(before[0] == delta.edges_added@[0].deep_view());
            assert(before[0] == d0.edges_added[k]);
        }
        let edge = delta.edges_added.remove(0);
        proof {
            assert(edge.deep_view() == d0.edges_added[k]);
            assert(delta.edges_added.deep_view() =~= before.remove(0));
            assert(before.remove(0) =~= d0.edges_added.skip(k + 1));
        }
        events.push(GraphDeltaEvent::EdgeAdded { edge });
        proof {
            assert(events.deep_view() =~= ev.push(EventV::EdgeAdded(d0.edges_added[k])));
            assert(part4[base4.len() + k] == EventV::EdgeAdded(d0.edges_added[k]));
            assert(events.deep_view() =~= part4.take(ev.len() + 1int));
        }
    }
    proof {
        assert(events.deep_view() =~= part4);
    }
    let ghost base5 = part4;

    proof {
        assert(events.deep_view() =~= spec_emit(d0));
    }
    events
}

} // verus!

//! The per-forward-pass dispatch scheduler.
//!
//! Each layer of the model is served by one [`Forwarder`]: either in-process
//! (local) or by a named remote node. A forward pass walks the layers in order;
//! a local layer becomes one single-layer call, and every maximal run of
//! consecutive layers served by the same remote node becomes one batched call.
use vstd::prelude::*;

verus! {

/// The execution unit bound to one layer.
pub enum Forwarder {
    /// The layer runs in-process.
    Local { layer_name: String },
    /// The layer runs on the remote node `node_name`, reachable at `host`.
    Remote { layer_name: String, node_name: String, host: String },
}

/// The route of a forwarder: `None` when local, else the serving node's name.
pub open spec fn route_of(f: Forwarder) -> Option<Seq<char>> {
    match f {
        Forwarder::Local { .. } => None,
        Forwarder::Remote { node_name, .. } => Some(node_name@),
    }
}

/// The name of the layer a forwarder is bound to.
pub open spec fn name_of(f: Forwarder) -> Seq<char> {
    match f {
        Forwarder::Local { layer_name } => layer_name@,
        Forwarder::Remote { layer_name, .. } => layer_name@,
    }
}

/// The routes of a list of forwarders, in layer order.
pub open spec fn routes(fs: Seq<Forwarder>) -> Seq<Option<Seq<char>>> {
    fs.map_values(|f: Forwarder| route_of(f))
}

impl Forwarder {
    /// The identity used for batching: `"local"` for a local layer, the node
    /// name for a remote one.
    pub fn ident(&self) -> (r: &str)
        ensures
            self is Remote ==> r@ == self->node_name@,
            self is Local ==> r@ == "local"@,
    {
        proof {
            reveal_strlit("local");
        }
        match self {
            Forwarder::Local { .. } => "local",
            Forwarder::Remote { node_name, .. } => node_name.as_str(),
        }
    }

    /// Whether the layer runs in-process.
    pub fn is_local(&self) -> (r: bool)
        ensures
            r == (route_of(*self) is None),
    {
        match self {
            Forwarder::Local { .. } => true,
            Forwarder::Remote { .. } => false,
        }
    }

    /// Whether `self` and `other` have the same route.
    pub fn same_route(&self, other: &Forwarder) -> (r: bool)
        ensures
            r == (route_of(*self) == route_of(*other)),
    {
        match (self, other) {
            (Forwarder::Local { .. }, Forwarder::Local { .. }) => true,
            (Forwarder::Remote { node_name: a, .. }, Forwarder::Remote { node_name: b, .. }) => {
                a.eq(b)
            },
            _ => false,
        }
    }

    /// The name of the layer this forwarder is bound to.
    pub fn layer_name(&self) -> (r: &String)
        ensures
            r@ == name_of(*self),
    {
        match self {
            Forwarder::Local { layer_name } => layer_name,
            Forwarder::Remote { layer_name, .. } => layer_name,
        }
    }
}

/// One layer of a batched remote call.
pub struct BatchEntry {
    pub layer_name: String,
    pub position: usize,
    pub layer_index: usize,
}

/// One call issued during a forward pass.
pub enum Call {
    /// Run layer `layer_index` in-process.
    Local { layer_index: usize },
    /// Send every layer of `entries` to the node `node` in one round trip.
    Batch { node: String, entries: Vec<BatchEntry> },
}

/// A span of layers `[start, end)` handled by one call; `node` is `None` for
/// a local call.
pub struct Span {
    pub node: Option<Seq<char>>,
    pub start: int,
    pub end: int,
}

/// The end of the run of equal routes that starts at `i`.
pub open spec fn run_end(rs: Seq<Option<Seq<char>>>, i: int) -> int
    decreases rs.len() - i,
{
    if 0 <= i && i + 1 < rs.len() && rs[i + 1] == rs[i] {
        run_end(rs, i + 1)
    } else {
        i + 1
    }
}

/// The calls of a forward pass over the layers from `i` on.
pub open spec fn plan_from(rs: Seq<Option<Seq<char>>>, i: int) -> Seq<Span>
    decreases rs.len() - i,
{
    if i < 0 || i >= rs.len() {
        Seq::empty()
    } else if rs[i] is None {
        seq![Span { node: None, start: i, end: i + 1 }].add(plan_from(rs, i + 1))
    } else {
        let e = run_end(rs, i);
        if e <= i || e > rs.len() {
            Seq::empty()
        } else {
            seq![Span { node: rs[i], start: i, end: e }].add(plan_from(rs, e))
        }
    }
}

/// The calls of a whole forward pass.
pub open spec fn plan(rs: Seq<Option<Seq<char>>>) -> Seq<Span> {
    plan_from(rs, 0)
}

/// `c` is the call that carries out span `s` over the layers `fs` at `position`.
pub open spec fn call_matches(c: Call, s: Span, fs: Seq<Forwarder>, position: usize) -> bool {
    match c {
        Call::Local { layer_index } => s.node is None && layer_index == s.start && s.end
            == s.start + 1,
        Call::Batch { node, entries } => {
            &&& s.node == Some(node@)
            &&& entries@.len() == s.end - s.start
            &&& forall|j: int|
                0 <= j < entries@.len() ==> {
                    &&& (#[trigger] entries@[j]).layer_index == s.start + j
                    &&& entries@[j].position == position
                    &&& entries@[j].layer_name@ == name_of(fs[s.start + j])
                }
        },
    }
}

pub proof fn lemma_run_end(rs: Seq<Option<Seq<char>>>, i: int, j: int)
    requires
        0 <= i < j <= rs.len(),
        forall|m: int| i <= m < j ==> rs[m] == rs[i],
        j == rs.len() || rs[j] != rs[i],
    ensures
        run_end(rs, i) == j,
    decreases j - i,
{
    if i + 1 < j {
        lemma_run_end(rs, i + 1, j);
    }
}

/// The spans `spans` cover the layers `[from, rs.len())` one after another,
/// each local layer alone and each maximal run of one remote route as a whole.
pub open spec fn batched_from(rs: Seq<Option<Seq<char>>>, from: int, spans: Seq<Span>) -> bool {
    &&& (spans.len() > 0 <==> from < rs.len())
    &&& spans.len() > 0 ==> spans[0].start == from && spans.last().end == rs.len()
    &&& forall|k: int| 0 <= k < spans.len() - 1 ==> (#[trigger] spans[k]).end == spans[k + 1].start
    &&& forall|k: int|
        0 <= k < spans.len() ==> {
            let s = #[trigger] spans[k];
            &&& from <= s.start < s.end <= rs.len()
            &&& s.node is None ==> s.end == s.start + 1 && rs[s.start] is None
            &&& s.node is Some ==> {
                &&& forall|m: int| s.start <= m < s.end ==> rs[m] == s.node
                &&& s.end == rs.len() || rs[s.end] != s.node
                &&& s.start == 0 || rs[s.start - 1] != s.node
            }
        }
}

pub proof fn lemma_run_end_bounds(rs: Seq<Option<Seq<char>>>, i: int)
    requires
        0 <= i < rs.len(),
    ensures
        i < run_end(rs, i) <= rs.len(),
        forall|m: int| i <= m < run_end(rs, i) ==> rs[m] == rs[i],
        run_end(rs, i) == rs.len() || rs[run_end(rs, i)] != rs[i],
    decreases rs.len() - i,
{
    if i + 1 < rs.len() && rs[i + 1] == rs[i] {
        lemma_run_end_bounds(rs, i + 1);
    }
}

pub proof fn lemma_plan_from(rs: Seq<Option<Seq<char>>>, i: int)
    requires
        0 <= i <= rs.len(),
        0 < i < rs.len() && rs[i] is Some ==> rs[i - 1] != rs[i],
    ensures
        batched_from(rs, i, plan_from(rs, i)),
    decreases rs.len() - i,
{
    if i < rs.len() {
        let next = if rs[i] is None {
            i + 1
        } else {
            lemma_run_end_bounds(rs, i);
            run_end(rs, i)
        };
        lemma_plan_from(rs, next);
        let rest = plan_from(rs, next);
        let spans = plan_from(rs, i);
        assert(spans.len() == rest.len() + 1);
        assert forall|k: int| 1 <= k < spans.len() implies #[trigger] spans[k] == rest[k - 1] by {}
        assert forall|k: int| 0 <= k < spans.len() - 1 implies (#[trigger] spans[k]).end
            == spans[k + 1].start by {
            if k > 0 {
                assert(rest[k - 1].end == rest[k].start);
            }
        }
    }
}

/// Batching law: the plan of a forward pass covers every layer exactly once,
/// in ascending order (its spans are contiguous, from the first layer to the
/// last); a local layer is a call of its own, and every maximal run of
/// consecutive layers with one remote route is exactly one batched call.
pub proof fn lemma_plan_batches(rs: Seq<Option<Seq<char>>>)
    ensures
        batched_from(rs, 0, plan(rs)),
{
    lemma_plan_from(rs, 0);
}

/// Plans the calls of one forward pass over `blocks`, every call carrying the
/// absolute position `position`. Every layer is covered, the last included.
pub fn dispatch_plan(blocks: &Vec<Forwarder>, position: usize) -> (calls: Vec<Call>)
    ensures
        calls@.len() == plan(routes(blocks@)).len(),
        forall|k: int|
            0 <= k < calls@.len() ==> call_matches(
                #[trigger] calls@[k],
                plan(routes(blocks@))[k],
                blocks@,
                position,
            ),
{
    let ghost rs = routes(blocks@);
    let ghost full = plan(rs);
    let mut calls: Vec<Call> = Vec::new();
    let mut i: usize = 0;
    while i < blocks.len()
        invariant
            i <= blocks@.len(),
            rs == routes(blocks@),
            full == plan(rs),
            calls@.len() <= full.len(),
            full == full.subrange(0, calls@.len() as int).add(plan_from(rs, i as int)),
            forall|k: int|
                0 <= k < calls@.len() ==> call_matches(
                    #[trigger] calls@[k],
                    full[k],
                    blocks@,
                    position,
                ),
        decreases blocks@.len() - i,
    {
        let ghost before = calls@.len() as int;
        if blocks[i].is_local() {
            let ghost s = Span { node: None, start: i as int, end: i + 1 };
            assert(plan_from(rs, i as int) == seq![s].add(plan_from(rs, i + 1)));
            calls.push(Call::Local { layer_index: i });
            assert(full[before] == s);
            assert(full =~= full.subrange(0, calls@.len() as int).add(plan_from(rs, i + 1)));
            i = i + 1;
        } else {
            let first = i;
            let node = blocks[first].ident();
            let mut entries: Vec<BatchEntry> = Vec::new();
            let name = blocks[i].layer_name().clone();
            entries.push(BatchEntry { layer_name: name, position, layer_index: i });
            i = i + 1;
            while i < blocks.len() && blocks[i].same_route(&blocks[first])
                invariant
                    first < i <= blocks@.len(),
                    rs == routes(blocks@),
                    rs[first as int] == Some(node@),
                    entries@.len() == i - first,
                    forall|m: int| first <= m < i ==> rs[m] == rs[first as int],
                    forall|j: int|
                        0 <= j < entries@.len() ==> {
                            &&& (#[trigger] entries@[j]).layer_index == first + j
                            &&& entries@[j].position == position
                            &&& entries@[j].layer_name@ == name_of(blocks@[first + j])
                        },
                decreases blocks@.len() - i,
            {
                let name = blocks[i].layer_name().clone();
                entries.push(BatchEntry { layer_name: name, position, layer_index: i });
                i = i + 1;
            }
            proof {
                lemma_run_end(rs, first as int, i as int);
            }
            let ghost s = Span { node: rs[first as int], start: first as int, end: i as int };
            assert(plan_from(rs, first as int) == seq![s].add(plan_from(rs, i as int)));
            calls.push(Call::Batch { node: node.to_string(), entries });
            assert(full[before] == s);
            assert(full =~= full.subrange(0, calls@.len() as int).add(plan_from(rs, i as int)));
        }
    }
    assert(full =~= full.subrange(0, calls@.len() as int));
    calls
}

} // verus!

//! Open Jackson queueing network: the job flow between single-server FIFO nodes.
//!
//! External arrivals enter a node; a job that finishes service either moves to
//! another node (chosen by the caller from the routing probabilities) or leaves
//! the network. Each node serves one job at a time in arrival order.
//!
//! This module holds the job bookkeeping: which jobs wait at which node, whether a
//! node is serving, how many jobs each node holds, and how many left the network.
//! Sampling, routing draws and time-averaged statistics belong to the caller.

use std::collections::VecDeque;
use vstd::prelude::*;

verus! {

broadcast use vstd::std_specs::vecdeque::group_vec_dequeue_axioms;

/// What happens at an instant of the network simulation.
#[derive(Debug, Clone, Copy, PartialEq, Eq, Structural)]
pub enum NetEvent {
    Arrival { node: usize, job_id: u64 },
    Departure { node: usize, job_id: u64 },
}

/// Abstract state of one node.
pub struct NodeState {
    pub queue: Seq<u64>,
    pub busy: bool,
    pub system_size: u64,
}

/// One node's waiting line and server.
#[derive(Debug)]
pub struct Node {
    queue: VecDeque<u64>,
    busy: bool,
    system_size: u64,
}

impl View for Node {
    type V = NodeState;

    closed spec fn view(&self) -> NodeState {
        NodeState { queue: self.queue@, busy: self.busy, system_size: self.system_size }
    }
}

impl Node {
    pub fn new() -> (n: Self)
        ensures
            n@.queue == Seq::<u64>::empty(),
            !n@.busy,
            n@.system_size == 0,
    {
        Node { queue: VecDeque::new(), busy: false, system_size: 0 }
    }

    /// Jobs at the node, waiting or in service.
    pub fn system_size(&self) -> (n: u64)
        ensures
            n == self@.system_size,
    {
        self.system_size
    }
}

/// A job joins the node: it starts service at once when the server is idle, else
/// it waits at the back of the line. Yields the job that starts service, if any.
pub open spec fn arrive_at(n: NodeState, job_id: u64) -> (NodeState, Option<u64>) {
    if !n.busy {
        (NodeState { busy: true, system_size: (n.system_size + 1) as u64, ..n }, Some(job_id))
    } else {
        (NodeState { queue: n.queue.push(job_id), system_size: (n.system_size + 1) as u64, ..n }, None)
    }
}

/// What a departure led to.
#[derive(Debug, Clone, Copy)]
pub struct DepartureOutcome {
    /// The departing job started service at the node it was routed to.
    pub routed_start: Option<(usize, u64)>,
    /// The departing job left the network.
    pub exited: bool,
    /// The job that started service at the node the departure left.
    pub next_here: Option<u64>,
}

/// The state of a node after its server freed up: the oldest waiting job, if any,
/// starts service.
pub open spec fn serve_next(n: NodeState) -> (NodeState, Option<u64>) {
    if n.queue.len() > 0 {
        (NodeState { queue: n.queue.drop_first(), busy: true, ..n }, Some(n.queue[0]))
    } else {
        (n, None)
    }
}

/// Abstract state of the network.
pub struct NetworkState {
    pub nodes: Seq<NodeState>,
    pub jobs_completed: u64,
}

/// The network after `job_id` arrives from outside at `node`, and the job that
/// starts service there.
pub open spec fn network_arrival(s: NetworkState, node: int, job_id: u64) -> (NetworkState, Option<u64>) {
    let (n, start) = arrive_at(s.nodes[node], job_id);
    (NetworkState { nodes: s.nodes.update(node, n), ..s }, start)
}

/// The network after `job_id` finishes service at `node` and moves to `route`
/// (or leaves the network when `route` is `None`). The freed server first takes the
/// oldest job waiting at `node`; only then does the departing job join its next node,
/// so a job routed back to the node it left goes to the back of that line.
pub open spec fn network_departure(s: NetworkState, node: int, job_id: u64, route: Option<usize>) -> (
    NetworkState,
    DepartureOutcome,
) {
    let n0 = s.nodes[node];
    let freed = NodeState { system_size: (n0.system_size - 1) as u64, busy: false, ..n0 };
    let (nh, next_here) = serve_next(freed);
    let nodes1 = s.nodes.update(node, nh);
    let (nodes2, routed_start) = match route {
        Some(j) => {
            let (nj, start) = arrive_at(nodes1[j as int], job_id);
            (
                nodes1.update(j as int, nj),
                match start {
                    Some(x) => Some((j, x)),
                    None => None,
                },
            )
        },
        None => (nodes1, None),
    };
    (
        NetworkState {
            nodes: nodes2,
            jobs_completed: if route is None {
                (s.jobs_completed + 1) as u64
            } else {
                s.jobs_completed
            },
        },
        DepartureOutcome { routed_start, exited: route is None, next_here },
    )
}

/// A node holds exactly its waiting jobs plus the one in service, and never idles
/// while jobs wait.
pub open spec fn node_consistent(n: NodeState) -> bool {
    &&& n.system_size == n.queue.len() + (if n.busy { 1int } else { 0int })
    &&& n.queue.len() > 0 ==> n.busy
}

/// Job bookkeeping of an open Jackson network.
pub struct JacksonNetwork {
    nodes: Vec<Node>,
    pub jobs_completed: u64,
}

impl View for JacksonNetwork {
    type V = NetworkState;

    closed spec fn view(&self) -> NetworkState {
        NetworkState {
            nodes: self.nodes@.map_values(|n: Node| n@),
            jobs_completed: self.jobs_completed,
        }
    }
}

impl JacksonNetwork {
    /// A network of `n` idle, empty nodes.
    pub fn new(n: usize) -> (net: Self)
        ensures
            net@.nodes.len() == n,
            net@.jobs_completed == 0,
            forall|i: int|
                0 <= i < n ==> (#[trigger] net@.nodes[i]).queue == Seq::<u64>::empty()
                    && !net@.nodes[i].busy && net@.nodes[i].system_size == 0,
    {
        let mut nodes: Vec<Node> = Vec::new();
        let mut i: usize = 0;
        while i < n
            invariant
                i <= n,
                nodes@.len() == i,
                forall|k: int|
                    0 <= k < i ==> (#[trigger] nodes@[k])@.queue == Seq::<u64>::empty()
                        && !nodes@[k]@.busy && nodes@[k]@.system_size == 0,
            decreases n - i,
        {
            nodes.push(Node::new());
            i = i + 1;
        }
        JacksonNetwork { nodes, jobs_completed: 0 }
    }

    pub fn num_nodes(&self) -> (n: usize)
        ensures
            n == self@.nodes.len(),
    {
        self.nodes.len()
    }

    /// Jobs at `node`, waiting or in service.
    pub fn system_size(&self, node: usize) -> (n: u64)
        requires
            node < self@.nodes.len(),
        ensures
            n == self@.nodes[node as int].system_size,
    {
        self.nodes[node].system_size
    }

    /// Replaces node `i`, handing back the old one.
    fn take_node(&mut self, i: usize) -> (n: Node)
        requires
            i < old(self)@.nodes.len(),
        ensures
            n@ == old(self)@.nodes[i as int],
            final(self)@.nodes == old(self)@.nodes.update(i as int, final(self)@.nodes[i as int]),
            final(self)@.jobs_completed == old(self)@.jobs_completed,
            final(self).nodes@.len() == old(self).nodes@.len(),
    {
        let mut n = Node::new();
        self.nodes.set_and_swap(i, &mut n);
        proof {
            assert(self@.nodes =~= old(self)@.nodes.update(i as int, self@.nodes[i as int]));
        }
        n
    }

    fn put_node(&mut self, i: usize, n: Node)
        requires
            i < old(self)@.nodes.len(),
        ensures
            final(self)@.nodes == old(self)@.nodes.update(i as int, n@),
            final(self)@.jobs_completed == old(self)@.jobs_completed,
    {
        self.nodes.set(i, n);
        proof {
            assert(self@.nodes =~= old(self)@.nodes.update(i as int, n@));
        }
    }

    fn arrive(&mut self, node: usize, job_id: u64) -> (start: Option<u64>)
        requires
            node < old(self)@.nodes.len(),
            old(self)@.nodes[node as int].system_size < u64::MAX,
        ensures
            (final(self)@, start) == network_arrival(old(self)@, node as int, job_id),
    {
        let mut n = self.take_node(node);
        n.system_size = n.system_size + 1;
        let start = if !n.busy {
            n.busy = true;
            Some(job_id)
        } else {
            n.queue.push_back(job_id);
            None
        };
        self.put_node(node, n);
        proof {
            assert(self@.nodes =~= network_arrival(old(self)@, node as int, job_id).0.nodes);
        }
        start
    }

    /// A job arrives from outside at `node`. Returns the job that starts service there
    /// (the arriving one, when the server was idle).
    pub fn on_arrival(&mut self, node: usize, job_id: u64) -> (start: Option<u64>)
        requires
            node < old(self)@.nodes.len(),
            old(self)@.nodes[node as int].system_size < u64::MAX,
        ensures
            (final(self)@, start) == network_arrival(old(self)@, node as int, job_id),
    {
        self.arrive(node, job_id)
    }

    /// `job_id` finishes service at `node` and moves to node `route`, or leaves the
    /// network when `route` is `None`. The freed server first takes the oldest waiting
    /// job; the departing job then joins its next node.
    pub fn on_departure(&mut self, node: usize, job_id: u64, route: Option<usize>) -> (out: DepartureOutcome)
        requires
            node < old(self)@.nodes.len(),
            old(self)@.nodes[node as int].system_size >= 1,
            route matches Some(j) ==> j < old(self)@.nodes.len() && (if j == node {
                old(self)@.nodes[j as int].system_size <= u64::MAX
            } else {
                old(self)@.nodes[j as int].system_size < u64::MAX
            }),
            route is None ==> old(self)@.jobs_completed < u64::MAX,
        ensures
            (final(self)@, out) == network_departure(old(self)@, node as int, job_id, route),
    {
        let mut n = self.take_node(node);
        n.system_size = n.system_size - 1;
        n.busy = false;
        let next_here = if n.queue.len() > 0 {
            let next = n.queue.pop_front().unwrap();
            n.busy = true;
            Some(next)
        } else {
            None
        };
        self.put_node(node, n);
        proof {
            let n0 = old(self)@.nodes[node as int];
            let freed = NodeState { system_size: (n0.system_size - 1) as u64, busy: false, ..n0 };
            assert(self@.nodes =~= old(self)@.nodes.update(node as int, serve_next(freed).0));
        }
        let routed_start: Option<(usize, u64)> = match route {
            Some(j) => {
                match self.arrive(j, job_id) {
                    Some(x) => Some((j, x)),
                    None => None,
                }
            },
            None => {
                self.jobs_completed = self.jobs_completed + 1;
                None
            },
        };
        let out = DepartureOutcome { routed_start, exited: route.is_none(), next_here };
        proof {
            let expected = network_departure(old(self)@, node as int, job_id, route);
            assert(self@.nodes =~= expected.0.nodes);
        }
        out
    }
}

/// Arrivals keep every node consistent: a node holds its waiting jobs plus the one in
/// service, and never idles while jobs wait.
pub proof fn lemma_arrival_keeps_nodes_consistent(s: NetworkState, node: int, job_id: u64)
    requires
        0 <= node < s.nodes.len(),
        forall|i: int| 0 <= i < s.nodes.len() ==> node_consistent(#[trigger] s.nodes[i]),
        s.nodes[node].system_size < u64::MAX,
    ensures
        forall|i: int|
            0 <= i < s.nodes.len() ==> node_consistent(#[trigger] network_arrival(s, node, job_id).0.nodes[i]),
{
}

/// Departures keep every node consistent: each node keeps serving one job at a time,
/// also when a job is routed back to the node it just left.
pub proof fn lemma_departure_keeps_nodes_consistent(
    s: NetworkState,
    node: int,
    job_id: u64,
    route: Option<usize>,
)
    requires
        0 <= node < s.nodes.len(),
        forall|i: int| 0 <= i < s.nodes.len() ==> node_consistent(#[trigger] s.nodes[i]),
        s.nodes[node].busy,
        route matches Some(j) ==> j < s.nodes.len() && s.nodes[j as int].system_size < u64::MAX,
    ensures
        forall|i: int|
            0 <= i < s.nodes.len() ==> node_consistent(
                #[trigger] network_departure(s, node, job_id, route).0.nodes[i],
            ),
{
    let n0 = s.nodes[node];
    let freed = NodeState { system_size: (n0.system_size - 1) as u64, busy: false, ..n0 };
    assert(freed.system_size == n0.queue.len());
    assert(node_consistent(serve_next(freed).0));
}

/// No node ever idles while jobs wait at it: every departure hands the freed server
/// the oldest waiting job.
pub proof fn lemma_departure_is_work_conserving(s: NetworkState, node: int, job_id: u64, route: Option<usize>)
    requires
        0 <= node < s.nodes.len(),
        route matches Some(j) ==> j < s.nodes.len(),
    ensures
        ({
            let t = network_departure(s, node, job_id, route).0;
            t.nodes[node].queue.len() > 0 ==> t.nodes[node].busy
        }),
        ({
            let t = network_departure(s, node, job_id, route).0;
            !t.nodes[node].busy ==> t.nodes[node].queue.len() == 0
        }),
{
}

/// Jobs held by the nodes, waiting or in service.
pub open spec fn jobs_in_network(nodes: Seq<NodeState>) -> int
    decreases nodes.len(),
{
    if nodes.len() == 0 {
        0
    } else {
        jobs_in_network(nodes.drop_last()) + nodes.last().system_size
    }
}

proof fn lemma_jobs_update(nodes: Seq<NodeState>, i: int, n: NodeState)
    requires
        0 <= i < nodes.len(),
    ensures
        jobs_in_network(nodes.update(i, n)) == jobs_in_network(nodes) - nodes[i].system_size
            + n.system_size,
    decreases nodes.len(),
{
    if i < nodes.len() - 1 {
        assert(nodes.update(i, n).drop_last() =~= nodes.drop_last().update(i, n));
        lemma_jobs_update(nodes.drop_last(), i, n);
    } else {
        assert(nodes.update(i, n).drop_last() =~= nodes.drop_last());
    }
}

/// An external arrival brings exactly one job into the network.
pub proof fn lemma_arrival_adds_one_job(s: NetworkState, node: int, job_id: u64)
    requires
        0 <= node < s.nodes.len(),
        s.nodes[node].system_size < u64::MAX,
    ensures
        jobs_in_network(network_arrival(s, node, job_id).0.nodes) == jobs_in_network(s.nodes) + 1,
        network_arrival(s, node, job_id).0.jobs_completed == s.jobs_completed,
{
    lemma_jobs_update(s.nodes, node, arrive_at(s.nodes[node], job_id).0);
}

/// Departures conserve jobs: a job either stays in the network at its next node or
/// is counted as completed.
pub proof fn lemma_departure_conserves_jobs(s: NetworkState, node: int, job_id: u64, route: Option<usize>)
    requires
        0 <= node < s.nodes.len(),
        s.nodes[node].system_size >= 1,
        route matches Some(j) ==> j < s.nodes.len() && s.nodes[j as int].system_size < u64::MAX,
        route is None ==> s.jobs_completed < u64::MAX,
    ensures
        jobs_in_network(network_departure(s, node, job_id, route).0.nodes) + network_departure(
            s,
            node,
            job_id,
            route,
        ).0.jobs_completed == jobs_in_network(s.nodes) + s.jobs_completed,
{
    let n0 = s.nodes[node];
    let freed = NodeState { system_size: (n0.system_size - 1) as u64, busy: false, ..n0 };
    let (nh, _) = serve_next(freed);
    let nodes1 = s.nodes.update(node, nh);
    lemma_jobs_update(s.nodes, node, nh);
    match route {
        Some(j) => {
            let (nj, _) = arrive_at(nodes1[j as int], job_id);
            lemma_jobs_update(nodes1, j as int, nj);
        },
        None => {},
    }
}

/// A job arriving at a busy node joins the back of its waiting line and does not start;
/// at an idle node it starts service at once and the line is left as it was. Either
/// way the node holds one more job and no other node changes.
pub proof fn lemma_arrival_joins_back_of_line(s: NetworkState, node: int, job_id: u64)
    requires
        0 <= node < s.nodes.len(),
    ensures
        ({
            let (t, start) = network_arrival(s, node, job_id);
            let n = s.nodes[node];
            &&& n.busy ==> t.nodes[node].queue == n.queue.push(job_id) && start is None
            &&& !n.busy ==> t.nodes[node].queue == n.queue && start == Some(job_id)
            &&& t.nodes[node].busy
            &&& t.nodes[node].system_size == n.system_size + 1 || n.system_size == u64::MAX
            &&& t.nodes.len() == s.nodes.len()
            &&& forall|i: int| 0 <= i < s.nodes.len() && i != node ==> #[trigger] t.nodes[i] == s.nodes[i]
            &&& t.jobs_completed == s.jobs_completed
        }),
{
}

/// Nodes serve in arrival order: when a job leaves a node at which others wait, the
/// job that starts there is the first of the line, and the rest keep their order (with
/// the departing job behind them when it is routed back to the same node). With nobody
/// waiting, no job starts there except a job routed back to it.
pub proof fn lemma_departure_serves_first_in_line(
    s: NetworkState,
    node: usize,
    job_id: u64,
    route: Option<usize>,
)
    requires
        node < s.nodes.len(),
        route matches Some(j) ==> j < s.nodes.len(),
    ensures
        ({
            let (t, out) = network_departure(s, node as int, job_id, route);
            let q = s.nodes[node as int].queue;
            &&& q.len() > 0 ==> out.next_here == Some(q[0])
            &&& q.len() > 0 && route != Some(node) ==> t.nodes[node as int].queue == q.drop_first()
            &&& q.len() > 0 && route == Some(node) ==> t.nodes[node as int].queue == q.drop_first().push(job_id)
                && out.routed_start is None
            &&& q.len() == 0 ==> out.next_here is None
            &&& q.len() == 0 && route == Some(node) ==> out.routed_start == Some((node, job_id))
                && t.nodes[node as int].queue == q
        }),
{
}

} // verus!

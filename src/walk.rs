use vstd::prelude::*;

use crate::bencode::{lemma_lex_irreflexive, lemma_lex_total, lemma_lex_transitive, lex_lt};
use crate::compact::{CompactNodeInfo, CompactPeer};
use crate::dht::DHTGetPeersResponse;
use crate::kademlia::{distance_less, get_distance, xor_distance};

verus! {

/// A candidate to ask: its address, and its node id once a `nodes` reply has told it.
#[derive(Debug, Clone, Copy)]
pub struct FrontierEntry {
    pub addr: CompactPeer,
    pub node_id: Option<[u8; 20]>,
}

/// The state of one search, as sequences.
pub struct SearchModel {
    pub target: Seq<u8>,
    pub frontier: Seq<FrontierEntry>,
    pub visited: Seq<CompactPeer>,
    pub peers_found: Seq<CompactPeer>,
}

pub open spec fn same_addr(a: CompactPeer, b: CompactPeer) -> bool {
    a.ip@ == b.ip@ && a.port == b.port
}

pub open spec fn addr_in(s: Seq<CompactPeer>, a: CompactPeer) -> bool {
    exists|i: int| 0 <= i < s.len() && same_addr(#[trigger] s[i], a)
}

pub open spec fn entry_addr_in(s: Seq<FrontierEntry>, a: CompactPeer) -> bool {
    exists|i: int| 0 <= i < s.len() && same_addr((#[trigger] s[i]).addr, a)
}

/// `a` is strictly closer to `target` than `b`; an entry of unknown id (a seed) comes first.
pub open spec fn closer(target: Seq<u8>, a: FrontierEntry, b: FrontierEntry) -> bool {
    match (a.node_id, b.node_id) {
        (None, Some(_)) => true,
        (Some(x), Some(y)) => lex_lt(xor_distance(x@, target), xor_distance(y@, target)),
        _ => false,
    }
}

/// The index of the closest entry; of several equally close, the last inserted.
pub open spec fn min_index(target: Seq<u8>, fr: Seq<FrontierEntry>) -> int
    decreases fr.len(),
{
    if fr.len() <= 1 {
        0
    } else {
        let m = min_index(target, fr.drop_last());
        if closer(target, fr[m], fr.last()) {
            m
        } else {
            fr.len() - 1
        }
    }
}

/// No address twice in the frontier, none both in the frontier and visited, no address
/// visited twice, no peer found twice.
pub open spec fn search_wf(m: SearchModel) -> bool {
    &&& m.target.len() == 20
    &&& forall|i: int, j: int|
        0 <= i < j < m.frontier.len() ==> !same_addr(
            (#[trigger] m.frontier[i]).addr,
            (#[trigger] m.frontier[j]).addr,
        )
    &&& forall|i: int| 0 <= i < m.frontier.len() ==> !addr_in(m.visited, (#[trigger] m.frontier[i]).addr)
    &&& forall|i: int, j: int|
        0 <= i < j < m.visited.len() ==> !same_addr(#[trigger] m.visited[i], #[trigger] m.visited[j])
    &&& forall|i: int, j: int|
        0 <= i < j < m.peers_found.len() ==> !same_addr(
            #[trigger] m.peers_found[i],
            #[trigger] m.peers_found[j],
        )
}

/// The state after asking the closest candidate: it leaves the frontier and is visited.
pub open spec fn pop_model(m: SearchModel) -> SearchModel {
    let k = min_index(m.target, m.frontier);
    SearchModel {
        target: m.target,
        frontier: m.frontier.remove(k),
        visited: m.visited.push(m.frontier[k].addr),
        peers_found: m.peers_found,
    }
}

/// The frontier after learning of `nodes`: each one neither visited nor already queued joins.
pub open spec fn nodes_added(fr: Seq<FrontierEntry>, visited: Seq<CompactPeer>, nodes: Seq<CompactNodeInfo>) -> Seq<FrontierEntry>
    decreases nodes.len(),
{
    if nodes.len() == 0 {
        fr
    } else {
        let f0 = nodes_added(fr, visited, nodes.drop_last());
        let n = nodes.last();
        if addr_in(visited, n.socket_addr) || entry_addr_in(f0, n.socket_addr) {
            f0
        } else {
            f0.push(FrontierEntry { addr: n.socket_addr, node_id: Some(n.node_id) })
        }
    }
}

/// The peers found after a reply lists `peers`: each one not found before is added.
pub open spec fn peers_added(found: Seq<CompactPeer>, peers: Seq<CompactPeer>) -> Seq<CompactPeer>
    decreases peers.len(),
{
    if peers.len() == 0 {
        found
    } else {
        let f0 = peers_added(found, peers.drop_last());
        if addr_in(f0, peers.last()) {
            f0
        } else {
            f0.push(peers.last())
        }
    }
}

proof fn lemma_closer_order(t: Seq<u8>, a: FrontierEntry, b: FrontierEntry, c: FrontierEntry)
    ensures
        !closer(t, a, a),
        closer(t, a, b) ==> !closer(t, b, a),
        closer(t, a, b) && closer(t, b, c) ==> closer(t, a, c),
        !closer(t, a, b) && !closer(t, b, c) ==> !closer(t, a, c),
{
    match (a.node_id, b.node_id, c.node_id) {
        (Some(x), Some(y), Some(z)) => {
            let dx = xor_distance(x@, t);
            let dy = xor_distance(y@, t);
            let dz = xor_distance(z@, t);
            lemma_lex_irreflexive(dx);
            lemma_lex_total(dx, dy);
            lemma_lex_total(dy, dz);
            lemma_lex_total(dx, dz);
            if lex_lt(dx, dy) && lex_lt(dy, dz) {
                lemma_lex_transitive(dx, dy, dz);
            }
            if lex_lt(dz, dy) && lex_lt(dy, dx) {
                lemma_lex_transitive(dz, dy, dx);
            }
            if !lex_lt(dx, dy) && !lex_lt(dy, dz) && lex_lt(dx, dz) {
                if dx != dy && dy != dz {
                    lemma_lex_transitive(dz, dy, dx);
                } else if dx == dy {
                } else {
                }
            }
        },
        (Some(x), Some(y), None) => {
            lemma_lex_irreflexive(xor_distance(x@, t));
            lemma_lex_total(xor_distance(x@, t), xor_distance(y@, t));
        },
        (Some(x), None, _) => {
            lemma_lex_irreflexive(xor_distance(x@, t));
        },
        (None, Some(y), Some(z)) => {
            lemma_lex_irreflexive(xor_distance(y@, t));
        },
        _ => {},
    }
}

/// The closest entry is no farther than any other, and strictly closer than any inserted
/// after it.
proof fn lemma_min_index(t: Seq<u8>, fr: Seq<FrontierEntry>)
    requires
        fr.len() >= 1,
    ensures
        0 <= min_index(t, fr) < fr.len(),
        forall|j: int| 0 <= j < fr.len() ==> !closer(t, #[trigger] fr[j], fr[min_index(t, fr)]),
        forall|j: int| min_index(t, fr) < j < fr.len() ==> closer(t, fr[min_index(t, fr)], #[trigger] fr[j]),
    decreases fr.len(),
{
    if fr.len() > 1 {
        let p = fr.drop_last();
        lemma_min_index(t, p);
        let m = min_index(t, p);
        let last = fr.last();
        assert forall|j: int| 0 <= j < fr.len() implies !closer(t, #[trigger] fr[j], fr[min_index(t, fr)]) by {
            lemma_closer_order(t, fr[j], fr[m], last);
            lemma_closer_order(t, fr[j], last, fr[m]);
            lemma_closer_order(t, last, fr[m], fr[j]);
            if j < fr.len() - 1 {
                assert(fr[j] == p[j]);
            }
        }
        assert forall|j: int| min_index(t, fr) < j < fr.len() implies closer(t, fr[min_index(t, fr)], #[trigger] fr[j]) by {
            if j < fr.len() - 1 {
                assert(fr[j] == p[j]);
            }
        }
    } else {
        lemma_closer_order(t, fr[0], fr[0], fr[0]);
    }
}

/// The frontier that a list of seed addresses starts from: each address once, id unknown.
pub open spec fn seeded(seeds: Seq<CompactPeer>) -> Seq<FrontierEntry>
    decreases seeds.len(),
{
    if seeds.len() == 0 {
        Seq::empty()
    } else {
        let f0 = seeded(seeds.drop_last());
        if entry_addr_in(f0, seeds.last()) {
            f0
        } else {
            f0.push(FrontierEntry { addr: seeds.last(), node_id: None })
        }
    }
}

/// One search for peers of `target`: the frontier of candidates, the addresses already
/// asked, the peers found, and how many queries were made.
#[derive(Debug)]
pub struct PeerSearch {
    target: [u8; 20],
    frontier: Vec<FrontierEntry>,
    visited: Vec<CompactPeer>,
    peers_found: Vec<CompactPeer>,
    steps: u64,
}

fn same_address(a: &CompactPeer, b: &CompactPeer) -> (r: bool)
    ensures
        r == same_addr(*a, *b),
{
    let r = a.ip[0] == b.ip[0] && a.ip[1] == b.ip[1] && a.ip[2] == b.ip[2] && a.ip[3] == b.ip[3]
        && a.port == b.port;
    if r {
        assert(a.ip@ =~= b.ip@);
    }
    r
}

fn contains_addr(s: &Vec<CompactPeer>, a: &CompactPeer) -> (r: bool)
    ensures
        r == addr_in(s@, *a),
{
    let mut i: usize = 0;
    while i < s.len()
        invariant
            i <= s@.len(),
            forall|j: int| 0 <= j < i ==> !same_addr(#[trigger] s@[j], *a),
        decreases s@.len() - i,
    {
        if same_address(&s[i], a) {
            return true;
        }
        i += 1;
    }
    false
}

fn frontier_contains(s: &Vec<FrontierEntry>, a: &CompactPeer) -> (r: bool)
    ensures
        r == entry_addr_in(s@, *a),
{
    let mut i: usize = 0;
    while i < s.len()
        invariant
            i <= s@.len(),
            forall|j: int| 0 <= j < i ==> !same_addr((#[trigger] s@[j]).addr, *a),
        decreases s@.len() - i,
    {
        if same_address(&s[i].addr, a) {
            return true;
        }
        i += 1;
    }
    false
}

proof fn lemma_seeded_wf(seeds: Seq<CompactPeer>)
    ensures
        forall|i: int, j: int|
            0 <= i < j < seeded(seeds).len() ==> !same_addr(
                (#[trigger] seeded(seeds)[i]).addr,
                (#[trigger] seeded(seeds)[j]).addr,
            ),
    decreases seeds.len(),
{
    if seeds.len() > 0 {
        lemma_seeded_wf(seeds.drop_last());
    }
}

proof fn lemma_nodes_added_wf(fr: Seq<FrontierEntry>, visited: Seq<CompactPeer>, nodes: Seq<CompactNodeInfo>)
    requires
        forall|i: int, j: int|
            0 <= i < j < fr.len() ==> !same_addr((#[trigger] fr[i]).addr, (#[trigger] fr[j]).addr),
        forall|i: int| 0 <= i < fr.len() ==> !addr_in(visited, (#[trigger] fr[i]).addr),
    ensures
        ({
            let r = nodes_added(fr, visited, nodes);
            &&& forall|i: int, j: int|
                0 <= i < j < r.len() ==> !same_addr((#[trigger] r[i]).addr, (#[trigger] r[j]).addr)
            &&& forall|i: int| 0 <= i < r.len() ==> !addr_in(visited, (#[trigger] r[i]).addr)
        }),
    decreases nodes.len(),
{
    if nodes.len() > 0 {
        lemma_nodes_added_wf(fr, visited, nodes.drop_last());
    }
}

proof fn lemma_peers_added_wf(found: Seq<CompactPeer>, peers: Seq<CompactPeer>)
    requires
        forall|i: int, j: int| 0 <= i < j < found.len() ==> !same_addr(#[trigger] found[i], #[trigger] found[j]),
    ensures
        forall|i: int, j: int|
            0 <= i < j < peers_added(found, peers).len() ==> !same_addr(
                #[trigger] peers_added(found, peers)[i],
                #[trigger] peers_added(found, peers)[j],
            ),
        peers_added(found, peers).len() >= found.len(),
        peers_added(found, peers).subrange(0, found.len() as int) == found,
    decreases peers.len(),
{
    if peers.len() > 0 {
        lemma_peers_added_wf(found, peers.drop_last());
        let f0 = peers_added(found, peers.drop_last());
        if !addr_in(f0, peers.last()) {
            assert(f0.push(peers.last()).subrange(0, found.len() as int) =~= f0.subrange(0, found.len() as int));
        }
    } else {
        assert(found.subrange(0, found.len() as int) =~= found);
    }
}

/// Asking the next candidate never asks an address twice: the address handed out was not
/// visited before, and afterwards the visited list still holds no address twice.
pub proof fn lemma_visited_once(m: SearchModel)
    requires
        search_wf(m),
        m.frontier.len() > 0,
    ensures
        search_wf(pop_model(m)),
        !addr_in(m.visited, m.frontier[min_index(m.target, m.frontier)].addr),
        forall|i: int, j: int|
            0 <= i < j < pop_model(m).visited.len() ==> !same_addr(
                #[trigger] pop_model(m).visited[i],
                #[trigger] pop_model(m).visited[j],
            ),
{
    lemma_min_index(m.target, m.frontier);
    let k = min_index(m.target, m.frontier);
    let a = m.frontier[k].addr;
    let p = pop_model(m);
    assert(!addr_in(m.visited, a));
    assert forall|i: int| 0 <= i < p.frontier.len() implies !addr_in(p.visited, (#[trigger] p.frontier[i]).addr) by {
        let e = p.frontier[i];
        let orig = if i < k { i } else { i + 1 };
        assert(e == m.frontier[orig]);
        assert(!addr_in(m.visited, e.addr));
        if addr_in(p.visited, e.addr) {
            let w = choose|w: int| 0 <= w < p.visited.len() && same_addr(#[trigger] p.visited[w], e.addr);
            if w < m.visited.len() {
                assert(m.visited[w] == p.visited[w]);
            } else {
                assert(same_addr(a, e.addr));
                if orig < k {
                    assert(!same_addr(m.frontier[orig].addr, m.frontier[k].addr));
                } else {
                    assert(!same_addr(m.frontier[k].addr, m.frontier[orig].addr));
                }
            }
        }
    }
    assert forall|i: int, j: int| 0 <= i < j < p.visited.len() implies !same_addr(#[trigger] p.visited[i], #[trigger] p.visited[j]) by {
        if j == m.visited.len() {
            assert(p.visited[i] == m.visited[i]);
            if same_addr(p.visited[i], a) {
                assert(same_addr(m.visited[i], a));
            }
        }
    }
    assert forall|i: int, j: int| 0 <= i < j < p.frontier.len() implies !same_addr((#[trigger] p.frontier[i]).addr, (#[trigger] p.frontier[j]).addr) by {
        let oi = if i < k { i } else { i + 1 };
        let oj = if j < k { j } else { j + 1 };
        assert(p.frontier[i] == m.frontier[oi]);
        assert(p.frontier[j] == m.frontier[oj]);
    }
}

impl PeerSearch {
    /// The search as sequences.
    pub closed spec fn model(&self) -> SearchModel {
        SearchModel {
            target: self.target@,
            frontier: self.frontier@,
            visited: self.visited@,
            peers_found: self.peers_found@,
        }
    }

    pub open spec fn wf(&self) -> bool {
        search_wf(self.model())
    }

    /// A search for `target` that starts from the bootstrap addresses `seeds`.
    pub fn new(target: [u8; 20], seeds: &Vec<CompactPeer>) -> (r: Self)
        ensures
            r.model() == (SearchModel {
                target: target@,
                frontier: seeded(seeds@),
                visited: Seq::empty(),
                peers_found: Seq::empty(),
            }),
            r.wf(),
    {
        let mut frontier: Vec<FrontierEntry> = Vec::new();
        let mut i: usize = 0;
        assert(seeds@.take(0) =~= Seq::<CompactPeer>::empty());
        while i < seeds.len()
            invariant
                i <= seeds@.len(),
                frontier@ == seeded(seeds@.take(i as int)),
            decreases seeds@.len() - i,
        {
            let s = seeds[i];
            proof {
                assert(seeds@.take(i as int + 1).drop_last() =~= seeds@.take(i as int));
            }
            if !frontier_contains(&frontier, &s) {
                frontier.push(FrontierEntry { addr: s, node_id: None });
            }
            i += 1;
        }
        assert(seeds@.take(i as int) =~= seeds@);
        let r = PeerSearch {
            target,
            frontier,
            visited: Vec::new(),
            peers_found: Vec::new(),
            steps: 0,
        };
        proof {
            lemma_seeded_wf(seeds@);
            assert(r.model().visited =~= Seq::<CompactPeer>::empty());
            assert(r.model().peers_found =~= Seq::<CompactPeer>::empty());
        }
        r
    }

    /// Whether entry `a` is strictly closer to the target than entry `b`.
    fn is_closer(&self, a: &FrontierEntry, b: &FrontierEntry) -> (r: bool)
        ensures
            r == closer(self.target@, *a, *b),
    {
        match (a.node_id, b.node_id) {
            (None, Some(_)) => true,
            (Some(x), Some(y)) => {
                let dx = get_distance(&x, &self.target);
                let dy = get_distance(&y, &self.target);
                distance_less(&dx, &dy)
            },
            _ => false,
        }
    }

    /// The next address to ask: the closest candidate (the latest inserted of equally close
    /// ones), which leaves the frontier and joins the visited set. `None` when the frontier
    /// is empty. An address is never handed out twice.
    pub fn next_query(&mut self) -> (r: Option<CompactPeer>)
        requires
            old(self).wf(),
        ensures
            final(self).wf(),
            old(self).model().frontier.len() == 0 ==> r is None && final(self).model() == old(self).model(),
            old(self).model().frontier.len() > 0 ==> {
                &&& r == Some(old(self).model().frontier[min_index(old(self).model().target, old(self).model().frontier)].addr)
                &&& final(self).model() == pop_model(old(self).model())
                &&& !addr_in(old(self).model().visited, r->Some_0)
            },
    {
        let n = self.frontier.len();
        if n == 0 {
            return None;
        }
        let ghost t = self.target@;
        let ghost fr = self.frontier@;
        let mut m: usize = 0;
        let mut j: usize = 1;
        assert(fr.take(1).len() == 1);
        while j < n
            invariant
                t == self.target@,
                fr == self.frontier@,
                n == fr.len(),
                1 <= j <= n,
                m < j,
                m == min_index(t, fr.take(j as int)),
            decreases n - j,
        {
            proof {
                let q = fr.take(j as int + 1);
                assert(q.drop_last() =~= fr.take(j as int));
                assert(q[m as int] == fr[m as int]);
                assert(q.last() == fr[j as int]);
            }
            if !self.is_closer(&self.frontier[m], &self.frontier[j]) {
                m = j;
            }
            j += 1;
        }
        assert(fr.take(n as int) =~= fr);
        proof {
            lemma_visited_once(self.model());
        }
        let entry = self.frontier.remove(m);
        self.visited.push(entry.addr);
        if self.steps < u64::MAX {
            self.steps = self.steps + 1;
        }
        Some(entry.addr)
    }

    /// Queues each node of a `nodes` reply that is neither visited nor queued yet.
    pub fn add_nodes(&mut self, nodes: &Vec<CompactNodeInfo>)
        requires
            old(self).wf(),
        ensures
            final(self).wf(),
            final(self).model() == (SearchModel {
                frontier: nodes_added(old(self).model().frontier, old(self).model().visited, nodes@),
                ..old(self).model()
            }),
    {
        let ghost fr0 = self.frontier@;
        let mut i: usize = 0;
        assert(nodes@.take(0) =~= Seq::<CompactNodeInfo>::empty());
        while i < nodes.len()
            invariant
                i <= nodes@.len(),
                self.target == old(self).target,
                self.visited == old(self).visited,
                self.peers_found == old(self).peers_found,
                fr0 == old(self).frontier@,
                self.frontier@ == nodes_added(fr0, self.visited@, nodes@.take(i as int)),
            decreases nodes@.len() - i,
        {
            let n = nodes[i];
            proof {
                assert(nodes@.take(i as int + 1).drop_last() =~= nodes@.take(i as int));
            }
            if !contains_addr(&self.visited, &n.socket_addr) && !frontier_contains(&self.frontier, &n.socket_addr) {
                self.frontier.push(FrontierEntry { addr: n.socket_addr, node_id: Some(n.node_id) });
            }
            i += 1;
        }
        assert(nodes@.take(i as int) =~= nodes@);
        proof {
            lemma_nodes_added_wf(fr0, self.visited@, nodes@);
        }
    }

    /// Records the peers of a `values` reply; returns those not found before.
    pub fn add_peers(&mut self, peers: &Vec<CompactPeer>) -> (r: Vec<CompactPeer>)
        requires
            old(self).wf(),
        ensures
            final(self).wf(),
            final(self).model() == (SearchModel {
                peers_found: peers_added(old(self).model().peers_found, peers@),
                ..old(self).model()
            }),
            r@ == final(self).model().peers_found.skip(old(self).model().peers_found.len() as int),
    {
        let ghost found0 = self.peers_found@;
        let mut fresh: Vec<CompactPeer> = Vec::new();
        let mut i: usize = 0;
        assert(peers@.take(0) =~= Seq::<CompactPeer>::empty());
        proof {
            lemma_peers_added_wf(found0, Seq::empty());
        }
        while i < peers.len()
            invariant
                i <= peers@.len(),
                self.target == old(self).target,
                self.visited == old(self).visited,
                self.frontier == old(self).frontier,
                found0 == old(self).peers_found@,
                forall|a: int, b: int| 0 <= a < b < found0.len() ==> !same_addr(#[trigger] found0[a], #[trigger] found0[b]),
                self.peers_found@ == peers_added(found0, peers@.take(i as int)),
                self.peers_found@.len() >= found0.len(),
                self.peers_found@.subrange(0, found0.len() as int) == found0,
                fresh@ == self.peers_found@.skip(found0.len() as int),
            decreases peers@.len() - i,
        {
            let p = peers[i];
            proof {
                assert(peers@.take(i as int + 1).drop_last() =~= peers@.take(i as int));
                lemma_peers_added_wf(found0, peers@.take(i as int + 1));
            }
            if !contains_addr(&self.peers_found, &p) {
                self.peers_found.push(p);
                fresh.push(p);
                assert(fresh@ =~= self.peers_found@.skip(found0.len() as int));
            }
            i += 1;
        }
        assert(peers@.take(i as int) =~= peers@);
        proof {
            lemma_peers_added_wf(found0, peers@);
        }
        fresh
    }

    /// Takes a `get_peers` reply from the node just asked: its peers are recorded, its nodes
    /// queued. Returns the peers not found before.
    pub fn on_reply(&mut self, reply: &DHTGetPeersResponse) -> (r: Vec<CompactPeer>)
        requires
            old(self).wf(),
        ensures
            final(self).wf(),
            final(self).model() == (SearchModel {
                frontier: nodes_added(old(self).model().frontier, old(self).model().visited, reply.nodes@),
                peers_found: peers_added(old(self).model().peers_found, reply.values@),
                ..old(self).model()
            }),
            r@ == final(self).model().peers_found.skip(old(self).model().peers_found.len() as int),
    {
        let fresh = self.add_peers(&reply.values);
        self.add_nodes(&reply.nodes);
        fresh
    }

    /// The search is over: no candidate left, `quota` peers found, or `max_steps` queries made.
    pub fn is_finished(&self, quota: usize, max_steps: u64) -> (r: bool)
        ensures
            r == (self.model().frontier.len() == 0 || self.model().peers_found.len() >= quota
                || self.steps_taken() >= max_steps),
    {
        self.frontier.len() == 0 || self.peers_found.len() >= quota || self.steps >= max_steps
    }

    /// The queries made so far.
    pub closed spec fn steps_taken(&self) -> u64 {
        self.steps
    }

    /// The peers found so far, in the order found.
    pub fn peers_found(&self) -> (r: &Vec<CompactPeer>)
        ensures
            r@ == self.model().peers_found,
    {
        &self.peers_found
    }

    /// The addresses asked so far, in the order asked.
    pub fn visited(&self) -> (r: &Vec<CompactPeer>)
        ensures
            r@ == self.model().visited,
    {
        &self.visited
    }

    /// How many candidates wait in the frontier.
    pub fn frontier_len(&self) -> (r: usize)
        ensures
            r == self.model().frontier.len(),
    {
        self.frontier.len()
    }
}

/// The frontier entry for a node that a reply listed.
pub open spec fn node_entry(n: CompactNodeInfo) -> FrontierEntry {
    FrontierEntry { addr: n.socket_addr, node_id: Some(n.node_id) }
}

proof fn lemma_nodes_added_prefix(fr: Seq<FrontierEntry>, v: Seq<CompactPeer>, ns: Seq<CompactNodeInfo>, k: int)
    requires
        0 <= k <= ns.len(),
    ensures
        nodes_added(fr, v, ns.take(k)).len() <= nodes_added(fr, v, ns).len(),
        forall|i: int|
            0 <= i < nodes_added(fr, v, ns.take(k)).len() ==> #[trigger] nodes_added(fr, v, ns)[i]
                == nodes_added(fr, v, ns.take(k))[i],
    decreases ns.len(),
{
    if k == ns.len() {
        assert(ns.take(k) =~= ns);
    } else {
        let p = ns.drop_last();
        assert(p.take(k) =~= ns.take(k));
        lemma_nodes_added_prefix(fr, v, p, k);
    }
}

/// Monotone progress of the walk: when the node just asked answers with nodes that are all
/// strictly closer to the target than itself and all new to the search, the next node asked
/// is no farther from the target than the one before.
pub proof fn lemma_popped_distances_non_increasing(m: SearchModel, nodes: Seq<CompactNodeInfo>)
    requires
        search_wf(m),
        m.frontier.len() > 0,
        nodes.len() > 0,
        forall|i: int|
            0 <= i < nodes.len() ==> closer(
                m.target,
                node_entry(#[trigger] nodes[i]),
                m.frontier[min_index(m.target, m.frontier)],
            ),
        forall|i: int|
            0 <= i < nodes.len() ==> !addr_in(pop_model(m).visited, (#[trigger] nodes[i]).socket_addr)
                && !entry_addr_in(pop_model(m).frontier, nodes[i].socket_addr),
    ensures
        ({
            let m1 = pop_model(m);
            let fr2 = nodes_added(m1.frontier, m1.visited, nodes);
            &&& fr2.len() > 0
            &&& !closer(
                m.target,
                m.frontier[min_index(m.target, m.frontier)],
                fr2[min_index(m.target, fr2)],
            )
        }),
{
    let t = m.target;
    let asked = m.frontier[min_index(t, m.frontier)];
    let m1 = pop_model(m);
    let fr2 = nodes_added(m1.frontier, m1.visited, nodes);
    let one = nodes.take(1);
    assert(one.drop_last() =~= Seq::<CompactNodeInfo>::empty());
    assert(one.last() == nodes[0]);
    let f1 = nodes_added(m1.frontier, m1.visited, one);
    assert(nodes_added(m1.frontier, m1.visited, one.drop_last()) == m1.frontier) by {
        assert(nodes_added(m1.frontier, m1.visited, Seq::<CompactNodeInfo>::empty()) == m1.frontier);
    }
    let n0 = nodes[0];
    assert(!addr_in(m1.visited, n0.socket_addr) && !entry_addr_in(m1.frontier, n0.socket_addr));
    assert(f1 == m1.frontier.push(node_entry(nodes[0])));
    lemma_nodes_added_prefix(m1.frontier, m1.visited, nodes, 1);
    let e = fr2[m1.frontier.len() as int];
    assert(e == f1[m1.frontier.len() as int]);
    assert(e == node_entry(nodes[0]));
    lemma_min_index(t, fr2);
    let q = fr2[min_index(t, fr2)];
    assert(!closer(t, e, q));
    lemma_closer_order(t, e, asked, q);
}

/// The entry that the next query goes to.
pub open spec fn popped(m: SearchModel) -> FrontierEntry {
    m.frontier[min_index(m.target, m.frontier)]
}

/// One step of a walk (`next_query`, then `on_reply`): ask the closest candidate, record
/// the peers of its reply and queue the nodes.
pub open spec fn walk_step(m: SearchModel, nodes: Seq<CompactNodeInfo>, values: Seq<CompactPeer>) -> SearchModel {
    let m1 = pop_model(m);
    SearchModel {
        frontier: nodes_added(m1.frontier, m1.visited, nodes),
        peers_found: peers_added(m1.peers_found, values),
        ..m1
    }
}

/// `ms` are the states of a walk whose step `i` got a reply with nodes `replies[i]` and
/// peers `values[i]`.
pub open spec fn is_walk(
    ms: Seq<SearchModel>,
    replies: Seq<Seq<CompactNodeInfo>>,
    values: Seq<Seq<CompactPeer>>,
) -> bool {
    &&& ms.len() == replies.len() + 1
    &&& values.len() == replies.len()
    &&& search_wf(ms[0])
    &&& forall|i: int|
        0 <= i < replies.len() ==> (#[trigger] ms[i]).frontier.len() > 0 && ms[i + 1]
            == walk_step(ms[i], replies[i], values[i])
}

proof fn lemma_walk_wf(
    ms: Seq<SearchModel>,
    replies: Seq<Seq<CompactNodeInfo>>,
    values: Seq<Seq<CompactPeer>>,
    j: int,
)
    requires
        is_walk(ms, replies, values),
        0 <= j < ms.len(),
    ensures
        search_wf(ms[j]),
        ms[j].target == ms[0].target,
    decreases j,
{
    if j > 0 {
        lemma_walk_wf(ms, replies, values, j - 1);
        let m = ms[j - 1];
        assert(m.frontier.len() > 0 && ms[j] == walk_step(m, replies[j - 1], values[j - 1]));
        lemma_visited_once(m);
        let m1 = pop_model(m);
        lemma_nodes_added_wf(m1.frontier, m1.visited, replies[j - 1]);
        lemma_peers_added_wf(m1.peers_found, values[j - 1]);
    }
}

proof fn lemma_walk_visited_grows(
    ms: Seq<SearchModel>,
    replies: Seq<Seq<CompactNodeInfo>>,
    values: Seq<Seq<CompactPeer>>,
    i: int,
    j: int,
)
    requires
        is_walk(ms, replies, values),
        0 <= i < j < ms.len(),
    ensures
        addr_in(ms[j].visited, popped(ms[i]).addr),
    decreases j - i,
{
    assert(ms[i].frontier.len() > 0 && ms[i + 1] == walk_step(ms[i], replies[i], values[i]));
    if j == i + 1 {
        let v = ms[j].visited;
        assert(same_addr(v[v.len() - 1], popped(ms[i]).addr));
    } else {
        lemma_walk_visited_grows(ms, replies, values, i, j - 1);
        let k = j - 1;
        assert(ms[k].frontier.len() > 0 && ms[j] == walk_step(ms[k], replies[k], values[k]));
        let w = choose|w: int| 0 <= w < ms[k].visited.len() && same_addr(#[trigger] ms[k].visited[w], popped(ms[i]).addr);
        assert(ms[j].visited[w] == ms[k].visited[w]);
    }
}

/// Visited-once over a whole search: whatever the replies, no address is asked twice.
pub proof fn lemma_walk_asks_each_address_once(
    ms: Seq<SearchModel>,
    replies: Seq<Seq<CompactNodeInfo>>,
    values: Seq<Seq<CompactPeer>>,
)
    requires
        is_walk(ms, replies, values),
    ensures
        forall|i: int, j: int|
            0 <= i < j < replies.len() ==> !same_addr(#[trigger] popped(ms[i]).addr, #[trigger] popped(ms[j]).addr),
{
    assert forall|i: int, j: int| 0 <= i < j < replies.len() implies !same_addr(
        #[trigger] popped(ms[i]).addr,
        #[trigger] popped(ms[j]).addr,
    ) by {
        lemma_walk_wf(ms, replies, values, j);
        assert(ms[j].frontier.len() > 0);
        lemma_visited_once(ms[j]);
        lemma_walk_visited_grows(ms, replies, values, i, j);
        let w = choose|w: int| 0 <= w < ms[j].visited.len() && same_addr(#[trigger] ms[j].visited[w], popped(ms[i]).addr);
        if same_addr(popped(ms[i]).addr, popped(ms[j]).addr) {
            assert(same_addr(ms[j].visited[w], popped(ms[j]).addr));
        }
    }
}

/// Monotone progress over a whole walk: when every reply holds only nodes strictly closer
/// to the target than the node that sent it, all of them new to the search, the nodes
/// asked come no farther from the target, one after another.
pub proof fn lemma_walk_popped_distances_non_increasing(
    ms: Seq<SearchModel>,
    replies: Seq<Seq<CompactNodeInfo>>,
    values: Seq<Seq<CompactPeer>>,
)
    requires
        is_walk(ms, replies, values),
        forall|i: int|
            0 <= i < replies.len() ==> (#[trigger] replies[i]).len() > 0 && forall|n: int|
                0 <= n < replies[i].len() ==> closer(
                    ms[i].target,
                    node_entry(#[trigger] replies[i][n]),
                    popped(ms[i]),
                ) && !addr_in(pop_model(ms[i]).visited, replies[i][n].socket_addr)
                    && !entry_addr_in(pop_model(ms[i]).frontier, replies[i][n].socket_addr),
    ensures
        forall|j: int| 0 < j < ms.len() ==> (#[trigger] ms[j]).frontier.len() > 0,
        forall|i: int, j: int|
            0 <= i < j < ms.len() ==> !closer(ms[0].target, #[trigger] popped(ms[i]), #[trigger] popped(ms[j])),
{
    assert forall|j: int| 0 < j < ms.len() implies (#[trigger] ms[j]).frontier.len() > 0 by {
        lemma_walk_chain(ms, replies, values, 0, j);
    }
    assert forall|i: int, j: int| 0 <= i < j < ms.len() implies !closer(
        ms[0].target,
        #[trigger] popped(ms[i]),
        #[trigger] popped(ms[j]),
    ) by {
        lemma_walk_chain(ms, replies, values, i, j);
    }
}

proof fn lemma_walk_chain(
    ms: Seq<SearchModel>,
    replies: Seq<Seq<CompactNodeInfo>>,
    values: Seq<Seq<CompactPeer>>,
    i: int,
    j: int,
)
    requires
        is_walk(ms, replies, values),
        forall|k: int|
            0 <= k < replies.len() ==> (#[trigger] replies[k]).len() > 0 && forall|n: int|
                0 <= n < replies[k].len() ==> closer(
                    ms[k].target,
                    node_entry(#[trigger] replies[k][n]),
                    popped(ms[k]),
                ) && !addr_in(pop_model(ms[k]).visited, replies[k][n].socket_addr)
                    && !entry_addr_in(pop_model(ms[k]).frontier, replies[k][n].socket_addr),
        0 <= i < j < ms.len(),
    ensures
        ms[j].frontier.len() > 0,
        !closer(ms[0].target, popped(ms[i]), popped(ms[j])),
    decreases j - i,
{
    let k = j - 1;
    assert(ms[k].frontier.len() > 0 && ms[j] == walk_step(ms[k], replies[k], values[k]));
    lemma_walk_wf(ms, replies, values, k);
    assert(replies[k].len() > 0);
    lemma_popped_distances_non_increasing(ms[k], replies[k]);
    if i < k {
        lemma_walk_chain(ms, replies, values, i, k);
        lemma_closer_order(ms[0].target, popped(ms[i]), popped(ms[k]), popped(ms[j]));
    }
}

} // verus!

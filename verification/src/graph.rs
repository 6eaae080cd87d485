//! The graph that the jumps of every indexed path are folded into.

use std::collections::HashMap;
use vstd::prelude::*;
use crate::jump::{Jump, JumpView};
use crate::text::{byte_length, digest, digest_of, holds};

verus! {

broadcast use vstd::std_specs::hash::group_hash_axioms;

/// A weighted transition to another node.
pub struct Edge {
    /// The node that the edge leads to.
    pub path: String,
    /// The cost of taking the edge.
    pub score: usize,
    /// The byte offset that the edge matches in its path.
    pub position: usize,
}

/// The mathematical value of an [`Edge`].
pub ghost struct EdgeView {
    pub path: Seq<char>,
    pub score: nat,
    pub position: usize,
}

impl View for Edge {
    type V = EdgeView;

    open spec fn view(&self) -> EdgeView {
        EdgeView { path: self.path@, score: self.score as nat, position: self.position }
    }
}

/// The values of a sequence of edges.
pub open spec fn edge_views(edges: Seq<Edge>) -> Seq<EdgeView> {
    Seq::new(edges.len(), |i: int| edges[i]@)
}

/// The edge that a jump becomes: it leads to the text before the
/// destination and remembers where the destination stands.
pub open spec fn edge_of(jump: JumpView) -> EdgeView {
    EdgeView {
        path: jump.destination.prefix,
        score: jump.score,
        position: jump.destination.index as usize,
    }
}

/// An edge that leaves the node `key` is aligned when it leads to a text
/// that begins with `key` and matches the byte offset at which that text
/// ends.
pub open spec fn edge_aligned(key: Seq<char>, edge: EdgeView) -> bool {
    key.is_prefix_of(edge.path) && edge.position == byte_length(edge.path)
}

impl From<Jump> for Edge {
    /// The edge that `jump` becomes.
    fn from(jump: Jump) -> (edge: Edge) {
        Edge { path: jump.destination.prefix, score: jump.score, position: jump.destination.index }
    }
}

impl vstd::std_specs::convert::FromSpecImpl<Jump> for Edge {
    open spec fn obeys_from_spec() -> bool {
        true
    }

    /// The value of the result is [`edge_of`] the value of the jump.
    open spec fn from_spec(jump: Jump) -> Edge {
        Edge { path: jump.destination.prefix, score: jump.score, position: jump.destination.index }
    }
}

/// The edges that leave one node on one character.
struct Bucket {
    character: char,
    edges: Vec<Edge>,
}

/// A node and the buckets of edges that leave it.
struct Node {
    key: String,
    buckets: Vec<Bucket>,
}

/// A mapping from node to character to edges. A node is the text consumed so
/// far; edges keep the order in which they were inserted.
pub struct Graph {
    nodes: Vec<Node>,
    /// For every digest of a key, the places of the nodes whose key has it.
    slots: HashMap<u64, Vec<usize>>,
    ceiling: usize,
}

impl Node {
    /// The `b`-th bucket is the one for `c`.
    spec fn bucket_at(&self, b: int, c: char) -> bool {
        0 <= b < self.buckets@.len() && self.buckets@[b].character == c
    }

    /// Some bucket is the one for `c`.
    spec fn has_bucket(&self, c: char) -> bool {
        exists|b: int| self.bucket_at(b, c)
    }

    /// The place of the bucket for `c`.
    spec fn bucket_slot(&self, c: char) -> int {
        choose|b: int| self.bucket_at(b, c)
    }

    /// The edges that leave the node on `c`.
    spec fn edges(&self, c: char) -> Seq<EdgeView> {
        if self.has_bucket(c) {
            edge_views(self.buckets@[self.bucket_slot(c)].edges@)
        } else {
            Seq::empty()
        }
    }

    /// No character has two buckets, no bucket is empty, and no edge costs
    /// more than `ceiling`.
    spec fn wf(&self, ceiling: usize) -> bool {
        &&& forall|a: int, b: int|
            0 <= a < b < self.buckets@.len() ==> self.buckets@[a].character
                != self.buckets@[b].character
        &&& forall|b: int|
            0 <= b < self.buckets@.len() ==> (#[trigger] self.buckets@[b]).edges@.len() > 0
        &&& forall|b: int, k: int|
            0 <= b < self.buckets@.len() && 0 <= k < self.buckets@[b].edges@.len()
                ==> #[trigger] self.buckets@[b].edges@[k].score <= ceiling
    }

    /// In a well-formed node a character has one bucket only.
    proof fn lemma_bucket_slot(&self, ceiling: usize, b: int, c: char)
        requires
            self.wf(ceiling),
            self.bucket_at(b, c),
        ensures
            self.has_bucket(c),
            self.bucket_slot(c) == b,
    {
    }

    /// The position of the bucket for `c`, if there is one.
    fn find_bucket(&self, c: char) -> (found: Option<usize>)
        ensures
            match found {
                Some(b) => self.bucket_at(b as int, c),
                None => !self.has_bucket(c),
            },
    {
        let mut b: usize = 0;
        while b < self.buckets.len()
            invariant
                b <= self.buckets@.len(),
                forall|k: int| 0 <= k < b ==> self.buckets@[k].character != c,
            decreases self.buckets@.len() - b,
        {
            if self.buckets[b].character == c {
                return Some(b);
            }
            b += 1;
        }
        None
    }
}

impl Graph {
    /// The `i`-th node is the one for `key`.
    spec fn node_at(&self, i: int, key: Seq<char>) -> bool {
        0 <= i < self.nodes@.len() && self.nodes@[i].key@ == key
    }

    /// The place of the node for `key`.
    spec fn slot(&self, key: Seq<char>) -> int {
        choose|i: int| self.node_at(i, key)
    }

    /// Whether `key` is a node of the graph.
    pub closed spec fn has_node(&self, key: Seq<char>) -> bool {
        exists|i: int| self.node_at(i, key)
    }

    /// The edges that leave `key` on `c`, in insertion order; none where the
    /// node or the bucket is absent.
    pub closed spec fn edges(&self, key: Seq<char>, c: char) -> Seq<EdgeView> {
        if self.has_node(key) {
            self.nodes@[self.slot(key)].edges(c)
        } else {
            Seq::empty()
        }
    }

    /// An upper bound on the score of every edge.
    pub closed spec fn ceiling(&self) -> nat {
        self.ceiling as nat
    }

    /// Every node is found under the digest of its key, and every place
    /// that is kept under a digest is the place of a node.
    #[verifier::opaque]
    spec fn indexed(&self) -> bool {
        &&& forall|i: int|
            0 <= i < self.nodes@.len() ==> self.slots@.contains_key(
                digest(#[trigger] self.nodes@[i].key@),
            ) && holds(self.slots@[digest(self.nodes@[i].key@)]@, i)
        &&& forall|h: u64, j: int|
            self.slots@.contains_key(h) && 0 <= j < self.slots@[h]@.len()
                ==> #[trigger] self.slots@[h]@[j] < self.nodes@.len()
    }

    /// Nodes stay indexed while their keys and the kept places stay.
    proof fn lemma_indexed_kept(&self, after: &Graph)
        requires
            self.indexed(),
            after.slots == self.slots,
            after.nodes@.len() == self.nodes@.len(),
            forall|i: int| 0 <= i < self.nodes@.len() ==> after.nodes@[i].key@ == self.nodes@[i].key@,
        ensures
            after.indexed(),
    {
        reveal(Graph::indexed);
        assert forall|i: int| 0 <= i < after.nodes@.len() implies after.slots@.contains_key(
            digest(#[trigger] after.nodes@[i].key@),
        ) && holds(after.slots@[digest(after.nodes@[i].key@)]@, i) by {
            assert(after.nodes@[i].key@ == self.nodes@[i].key@);
        }
    }

    /// No node and no bucket occurs twice, no edge costs more than the
    /// ceiling, and every node can be found by its key.
    pub closed spec fn wf(&self) -> bool {
        &&& forall|i: int, j: int|
            0 <= i < j < self.nodes@.len() ==> self.nodes@[i].key@ != self.nodes@[j].key@
        &&& forall|i: int| 0 <= i < self.nodes@.len() ==> (#[trigger] self.nodes@[i]).wf(self.ceiling)
        &&& self.indexed()
    }

    /// Every edge that is taken by typing a character leads to a node. The
    /// edges on `$` mark the end of a path and lead to the path itself.
    pub open spec fn linked(&self) -> bool {
        forall|key: Seq<char>, c: char, k: int|
            c != '$' && 0 <= k < self.edges(key, c).len() ==> self.has_node(
                #[trigger] self.edges(key, c)[k].path,
            )
    }

    /// Every edge is aligned with the node that it leaves.
    pub open spec fn aligned(&self) -> bool {
        forall|key: Seq<char>, c: char, k: int|
            0 <= k < self.edges(key, c).len() ==> edge_aligned(
                key,
                #[trigger] self.edges(key, c)[k],
            )
    }

    /// In a well-formed graph a key has one node only.
    proof fn lemma_slot(&self, i: int, key: Seq<char>)
        requires
            self.wf(),
            self.node_at(i, key),
        ensures
            self.has_node(key),
            self.slot(key) == i,
    {
    }

    /// No edge costs more than the ceiling.
    pub proof fn lemma_ceiling(&self, key: Seq<char>, c: char, k: int)
        requires
            self.wf(),
            0 <= k < self.edges(key, c).len(),
        ensures
            self.edges(key, c)[k].score <= self.ceiling(),
    {
        let node = self.nodes@[self.slot(key)];
        assert(node.wf(self.ceiling));
        let b = node.bucket_slot(c);
        assert(node.buckets@[b].edges@[k].score <= self.ceiling);
    }

    /// A graph without nodes.
    pub fn new() -> (graph: Graph)
        ensures
            graph.wf(),
            graph.ceiling() == 0,
            forall|key: Seq<char>| !graph.has_node(key),
            forall|key: Seq<char>, c: char| graph.edges(key, c) == Seq::<EdgeView>::empty(),
    {
        reveal(Graph::indexed);
        Graph { nodes: Vec::new(), slots: HashMap::new(), ceiling: 0 }
    }

    /// The largest score that any edge may have.
    pub fn max_score(&self) -> (ceiling: usize)
        ensures
            ceiling == self.ceiling(),
    {
        self.ceiling
    }

    /// The position of the node `key`, if there is one: among the places
    /// kept under the digest of `key`.
    fn find_node(&self, key: &String) -> (found: Option<usize>)
        requires
            self.indexed(),
        ensures
            match found {
                Some(i) => self.node_at(i as int, key@),
                None => !self.has_node(key@),
            },
    {
        reveal(Graph::indexed);
        let h = digest_of(key);
        match self.slots.get(&h) {
            Some(places) => {
                let mut j: usize = 0;
                while j < places.len()
                    invariant
                        j <= places@.len(),
                        self.indexed(),
                        h == digest(key@),
                        self.slots@.contains_key(h),
                        self.slots@[h] == *places,
                        forall|k: int| 0 <= k < j ==> !self.node_at(places@[k] as int, key@),
                    decreases places@.len() - j,
                {
                    let i = places[j];
                    proof {
                        reveal(Graph::indexed);
                        assert(self.slots@[h]@[j as int] < self.nodes@.len());
                    }
                    if self.nodes[i].key == *key {
                        return Some(i);
                    }
                    j += 1;
                }
                assert forall|i: int| !self.node_at(i, key@) by {
                    if self.node_at(i, key@) {
                        assert(digest(self.nodes@[i].key@) == h);
                        assert(holds(self.slots@[h]@, i));
                        let k = choose|k: int|
                            0 <= k < places@.len() && #[trigger] places@[k] == i;
                        assert(!self.node_at(places@[k] as int, key@));
                    }
                }
                None
            },
            None => {
                assert forall|i: int| !self.node_at(i, key@) by {
                    if self.node_at(i, key@) {
                        assert(self.slots@.contains_key(digest(self.nodes@[i].key@)));
                    }
                }
                None
            },
        }
    }

    /// Adds a node for `key` at the end, without buckets, and keeps its
    /// place under the digest of `key`.
    fn add_node(&mut self, key: &String) -> (i: usize)
        requires
            old(self).indexed(),
        ensures
            final(self).indexed(),
            final(self).ceiling == old(self).ceiling,
            i == old(self).nodes@.len(),
            final(self).nodes@.len() == i + 1,
            forall|k: int| 0 <= k < i ==> final(self).nodes@[k] == old(self).nodes@[k],
            final(self).nodes@[i as int].key@ == key@,
            final(self).nodes@[i as int].buckets@.len() == 0,
    {
        reveal(Graph::indexed);
        let ghost before = *self;
        let i = self.nodes.len();
        self.nodes.push(Node { key: key.clone(), buckets: Vec::new() });
        let h = digest_of(key);
        let mut places = match self.slots.remove(&h) {
            Some(places) => places,
            None => Vec::new(),
        };
        let ghost known = places@;
        places.push(i);
        self.slots.insert(h, places);
        proof {
            let grown = *self;
            assert(before.slots@.contains_key(h) ==> known == before.slots@[h]@);
            assert forall|n: int| 0 <= n < grown.nodes@.len() implies grown.slots@.contains_key(
                digest(#[trigger] grown.nodes@[n].key@),
            ) && holds(grown.slots@[digest(grown.nodes@[n].key@)]@, n) by {
                let d = digest(grown.nodes@[n].key@);
                if n < i {
                    assert(grown.nodes@[n] == before.nodes@[n]);
                    assert(before.slots@.contains_key(digest(before.nodes@[n].key@)));
                    assert(holds(before.slots@[d]@, n));
                    if d == h {
                        let k = choose|k: int| 0 <= k < known.len() && #[trigger] known[k] == n;
                        assert(grown.slots@[d]@[k] == n);
                    }
                } else {
                    assert(grown.slots@[d]@[known.len() as int] == n);
                }
            }
            assert forall|d: u64, j: int|
                grown.slots@.contains_key(d) && 0 <= j < grown.slots@[d]@.len() implies #[trigger] grown.slots@[d]@[j]
                < grown.nodes@.len() by {
                if d == h {
                    if j < known.len() {
                        assert(before.slots@[d]@[j] < before.nodes@.len());
                    }
                } else {
                    assert(before.slots@.contains_key(d));
                    assert(before.slots@[d]@[j] < before.nodes@.len());
                }
            }
        }
        i
    }

    /// Whether `key` is a node of the graph.
    pub fn contains(&self, key: &String) -> (found: bool)
        requires
            self.wf(),
        ensures
            found == self.has_node(key@),
    {
        self.find_node(key).is_some()
    }

    /// The edges that leave the node `key` on `c`, if there are any.
    pub fn bucket(&self, key: &String, c: char) -> (found: Option<&Vec<Edge>>)
        requires
            self.wf(),
            self.has_node(key@),
        ensures
            found is Some == (self.edges(key@, c).len() > 0),
            match found {
                Some(edges) => edge_views(edges@) == self.edges(key@, c),
                None => self.edges(key@, c) == Seq::<EdgeView>::empty(),
            },
    {
        match self.find_node(key) {
            Some(i) => {
                proof {
                    self.lemma_slot(i as int, key@);
                }
                let node = &self.nodes[i];
                match node.find_bucket(c) {
                    Some(b) => {
                        proof {
                            node.lemma_bucket_slot(self.ceiling, b as int, c);
                        }
                        Some(&node.buckets[b].edges)
                    },
                    None => None,
                }
            },
            None => None,
        }
    }

    /// Appends `edge` to the edges that leave `key` on `c`. The node and the
    /// bucket are created where they are missing.
    pub fn insert(&mut self, key: &String, c: char, edge: Edge)
        requires
            old(self).wf(),
        ensures
            final(self).wf(),
            final(self).ceiling() == if edge.score > old(self).ceiling() {
                edge.score as nat
            } else {
                old(self).ceiling()
            },
            forall|n: Seq<char>| #[trigger]
                final(self).has_node(n) == (old(self).has_node(n) || n == key@),
            forall|n: Seq<char>, ch: char| #[trigger]
                final(self).edges(n, ch) == if n == key@ && ch == c {
                    old(self).edges(n, ch).push(edge@)
                } else {
                    old(self).edges(n, ch)
                },
    {
        let ghost before = *self;
        let ghost added = edge@;
        if edge.score > self.ceiling {
            self.ceiling = edge.score;
        }
        let ghost tweaked = *self;
        proof {
            before.lemma_indexed_kept(&tweaked);
        }
        let i = match self.find_node(key) {
            Some(i) => i,
            None => self.add_node(key),
        };
        let ghost middle = *self;
        proof {
            assert(middle.nodes@.len() >= before.nodes@.len());
            assert(forall|k: int|
                0 <= k < before.nodes@.len() ==> middle.nodes@[k] == before.nodes@[k]);
            assert(middle.node_at(i as int, key@));
            assert(i >= before.nodes@.len() ==> middle.nodes@[i as int].buckets@.len() == 0);
            assert(i < before.nodes@.len() ==> before.nodes@[i as int].wf(before.ceiling));
            assert(middle.nodes@[i as int].wf(self.ceiling));
            assert(edge.score <= self.ceiling);
            assert(!middle.nodes@[i as int].has_bucket(c) ==> before.edges(key@, c)
                == Seq::<EdgeView>::empty()) by {
                if before.has_node(key@) {
                    assert(tweaked.node_at(before.slot(key@), key@));
                    before.lemma_slot(i as int, key@);
                }
            }
            assert forall|a: int, b: int| 0 <= a < b < middle.nodes@.len() implies middle.nodes@[a].key@
                != middle.nodes@[b].key@ by {
                if b >= before.nodes@.len() {
                    assert(!tweaked.node_at(a, key@));
                }
            }
        }
        match self.nodes[i].find_bucket(c) {
            Some(b) => {
                proof {
                    assert(i < before.nodes@.len());
                    assert(before.node_at(i as int, key@));
                    before.lemma_slot(i as int, key@);
                    before.nodes@[i as int].lemma_bucket_slot(before.ceiling, b as int, c);
                }
                self.nodes[i].buckets[b].edges.push(edge);
                proof {
                    let fresh = self.nodes@[i as int];
                    let stale = middle.nodes@[i as int];
                    assert(fresh.buckets@.len() == stale.buckets@.len());
                    assert(forall|x: int|
                        0 <= x < stale.buckets@.len() ==> fresh.buckets@[x].character
                            == stale.buckets@[x].character);
                    assert(forall|x: int|
                        0 <= x < stale.buckets@.len() && x != b ==> fresh.buckets@[x]
                            == stale.buckets@[x]);
                    assert(fresh.buckets@[b as int].edges@ == stale.buckets@[b as int].edges@.push(
                        edge,
                    ));
                    assert(stale.wf(self.ceiling));
                    assert forall|x: int, k: int|
                        0 <= x < fresh.buckets@.len() && 0 <= k < fresh.buckets@[x].edges@.len() implies #[trigger] fresh.buckets@[x].edges@[k].score
                        <= self.ceiling by {
                        if x == b && k == stale.buckets@[x].edges@.len() {
                        } else {
                            assert(stale.buckets@[x].edges@[k].score <= self.ceiling);
                        }
                    }
                    assert(fresh.wf(self.ceiling));
                    assert(edge_views(fresh.buckets@[b as int].edges@) =~= edge_views(
                        stale.buckets@[b as int].edges@,
                    ).push(added));
                    assert forall|ch: char| #[trigger]
                        fresh.edges(ch) == if ch == c {
                            stale.edges(ch).push(added)
                        } else {
                            stale.edges(ch)
                        } by {
                        if stale.has_bucket(ch) {
                            let x = stale.bucket_slot(ch);
                            assert(fresh.bucket_at(x, ch));
                            fresh.lemma_bucket_slot(self.ceiling, x, ch);
                        } else {
                            if fresh.has_bucket(ch) {
                                let x = fresh.bucket_slot(ch);
                                assert(stale.bucket_at(x, ch));
                            }
                        }
                    }
                }
            },
            None => {
                let mut edges: Vec<Edge> = Vec::new();
                edges.push(edge);
                self.nodes[i].buckets.push(Bucket { character: c, edges });
                proof {
                    let fresh = self.nodes@[i as int];
                    let stale = middle.nodes@[i as int];
                    let last = stale.buckets@.len() as int;
                    assert(fresh.buckets@ == stale.buckets@.push(fresh.buckets@[last]));
                    assert(forall|x: int|
                        0 <= x < last ==> fresh.buckets@[x] == stale.buckets@[x]);
                    assert(forall|x: int| 0 <= x < last ==> !stale.bucket_at(x, c));
                    assert(stale.wf(self.ceiling));
                    assert forall|x: int, y: int| 0 <= x < y < fresh.buckets@.len() implies fresh.buckets@[x].character
                        != fresh.buckets@[y].character by {
                        if y == last {
                            assert(!stale.bucket_at(x, c));
                        }
                    }
                    assert forall|x: int, k: int|
                        0 <= x < fresh.buckets@.len() && 0 <= k < fresh.buckets@[x].edges@.len() implies #[trigger] fresh.buckets@[x].edges@[k].score
                        <= self.ceiling by {
                        if x < last {
                            assert(stale.buckets@[x].edges@[k].score <= self.ceiling);
                        }
                    }
                    assert(fresh.wf(self.ceiling));
                    assert(fresh.bucket_at(last, c));
                    fresh.lemma_bucket_slot(self.ceiling, last, c);
                    assert(edge_views(fresh.buckets@[last].edges@) =~= Seq::<EdgeView>::empty().push(
                        added,
                    ));
                    assert forall|ch: char| #[trigger]
                        fresh.edges(ch) == if ch == c {
                            stale.edges(ch).push(added)
                        } else {
                            stale.edges(ch)
                        } by {
                        if stale.has_bucket(ch) {
                            let x = stale.bucket_slot(ch);
                            assert(fresh.bucket_at(x, ch));
                            fresh.lemma_bucket_slot(self.ceiling, x, ch);
                        } else {
                            if fresh.has_bucket(ch) && ch != c {
                                let x = fresh.bucket_slot(ch);
                                assert(stale.bucket_at(x, ch));
                            }
                        }
                    }
                }
            },
        }
        proof {
            let after = *self;
            assert(after.nodes@.len() == middle.nodes@.len());
            assert(forall|k: int|
                0 <= k < after.nodes@.len() ==> after.nodes@[k].key@ == middle.nodes@[k].key@);
            assert(forall|k: int|
                0 <= k < after.nodes@.len() && k != i ==> after.nodes@[k] == middle.nodes@[k]);
            middle.lemma_indexed_kept(&after);
            assert(after.wf()) by {
                assert forall|a: int, b: int| 0 <= a < b < after.nodes@.len() implies after.nodes@[a].key@
                    != after.nodes@[b].key@ by {
                    assert(middle.nodes@[a].key@ != middle.nodes@[b].key@);
                }
                assert forall|k: int| 0 <= k < after.nodes@.len() implies (
                #[trigger] after.nodes@[k]).wf(after.ceiling) by {
                    if k != i {
                        assert(before.nodes@[k].wf(before.ceiling));
                        let node = before.nodes@[k];
                        assert forall|x: int, e: int|
                            0 <= x < node.buckets@.len() && 0 <= e < node.buckets@[x].edges@.len() implies #[trigger] node.buckets@[x].edges@[e].score
                            <= after.ceiling by {
                            assert(node.buckets@[x].edges@[e].score <= before.ceiling);
                        }
                    }
                }
            }
            assert forall|n: Seq<char>| #[trigger]
                after.has_node(n) == (before.has_node(n) || n == key@) by {
                if before.has_node(n) {
                    assert(after.node_at(before.slot(n), n));
                }
                if n == key@ {
                    assert(after.node_at(i as int, n));
                }
                if after.has_node(n) && n != key@ {
                    assert(before.node_at(after.slot(n), n));
                }
            }
            assert forall|n: Seq<char>, ch: char| #[trigger]
                after.edges(n, ch) == if n == key@ && ch == c {
                    before.edges(n, ch).push(added)
                } else {
                    before.edges(n, ch)
                } by {
                if n == key@ {
                    after.lemma_slot(i as int, n);
                    let fresh = after.nodes@[i as int];
                    let stale = middle.nodes@[i as int];
                    assert(fresh.edges(ch) == if ch == c {
                        stale.edges(ch).push(added)
                    } else {
                        stale.edges(ch)
                    });
                    if before.has_node(n) {
                        assert(tweaked.node_at(before.slot(n), n));
                        before.lemma_slot(i as int, n);
                    } else {
                        assert(i >= before.nodes@.len()) by {
                            if i < before.nodes@.len() {
                                assert(before.node_at(i as int, n));
                            }
                        }
                        assert(!stale.has_bucket(ch)) by {
                            if stale.has_bucket(ch) {
                                assert(stale.bucket_at(stale.bucket_slot(ch), ch));
                            }
                        }
                    }
                } else if before.has_node(n) {
                    let k = before.slot(n);
                    assert(after.node_at(k, n));
                    after.lemma_slot(k, n);
                }
            }
        }
    }
}

} // verus!

//! The index: every pushed path, folded into one graph.

use vstd::prelude::*;
pub use crate::graph::{Edge, Graph};
use crate::graph::{edge_aligned, edge_of, EdgeView};
use crate::jump::{
    alternates, jump_views, jumps_before, jumps_of, pair_jumps, row_jumps, JumpView, Jumps,
};
use crate::location::{locations_of, LocationLabel, LocationView};
use crate::query::{first_step, Query};
use crate::text::{byte_length, lemma_byte_length_prefix, path_fits};

verus! {

/// Whether `jump` adds an edge to the node `node` under the character `c`.
pub open spec fn feeds(jump: JumpView, node: Seq<char>, c: char) -> bool {
    jump.source.prefix == node && jump.destination.character == c
}

/// The edges that `jumps` add to the node `node` under the character `c`,
/// in the order of the jumps.
pub open spec fn edges_from(jumps: Seq<JumpView>, node: Seq<char>, c: char) -> Seq<EdgeView>
    decreases jumps.len(),
{
    if jumps.len() == 0 {
        Seq::empty()
    } else if feeds(jumps.last(), node, c) {
        edges_from(jumps.drop_last(), node, c).push(edge_of(jumps.last()))
    } else {
        edges_from(jumps.drop_last(), node, c)
    }
}

/// Whether some jump of `jumps` starts at the node `node`.
pub open spec fn is_source(jumps: Seq<JumpView>, node: Seq<char>) -> bool {
    exists|t: int| 0 <= t < jumps.len() && (#[trigger] jumps[t]).source.prefix == node
}

/// The edges that the paths `paths`, pushed in turn, add to the node `node`
/// under the character `c`.
pub open spec fn edges_of_paths(paths: Seq<Seq<char>>, node: Seq<char>, c: char) -> Seq<EdgeView>
    decreases paths.len(),
{
    if paths.len() == 0 {
        Seq::empty()
    } else {
        edges_of_paths(paths.drop_last(), node, c) + edges_from(jumps_of(paths.last()), node, c)
    }
}

/// The highest score among `jumps`, and at least `floor`.
pub open spec fn top_score(jumps: Seq<JumpView>, floor: nat) -> nat
    decreases jumps.len(),
{
    if jumps.len() == 0 {
        floor
    } else if jumps.last().score > top_score(jumps.drop_last(), floor) {
        jumps.last().score
    } else {
        top_score(jumps.drop_last(), floor)
    }
}

/// The highest score among the jumps of `paths`.
pub open spec fn top_score_of_paths(paths: Seq<Seq<char>>) -> nat
    decreases paths.len(),
{
    if paths.len() == 0 {
        0
    } else {
        top_score(jumps_of(paths.last()), top_score_of_paths(paths.drop_last()))
    }
}

/// Whether some path of `paths` has a jump that starts at the node `node`.
pub open spec fn is_source_of_paths(paths: Seq<Seq<char>>, node: Seq<char>) -> bool {
    exists|i: int| 0 <= i < paths.len() && is_source(jumps_of(#[trigger] paths[i]), node)
}

/// The texts of a sequence of lines.
pub open spec fn line_views(lines: Seq<String>) -> Seq<Seq<char>> {
    Seq::new(lines.len(), |i: int| lines[i]@)
}

/// `jump` goes from `source` to `destination`, by its character or by a
/// lowercase form of it.
pub open spec fn joins(jump: JumpView, source: LocationView, destination: LocationView) -> bool {
    &&& jump.source == source
    &&& jump.destination.prefix == destination.prefix
    &&& jump.destination.index == destination.index
    &&& (jump.destination.character == destination.character || destination.label
        != LocationLabel::PathEnd)
}

/// Every jump of a row starts at the row's location and ends at a later one.
proof fn lemma_row_shape(locations: Seq<LocationView>, i: int, j: int, t: int)
    requires
        0 <= i < j <= locations.len(),
        0 <= t < row_jumps(locations, i, j).len(),
    ensures
        exists|b: int| i < b < j && joins(row_jumps(locations, i, j)[t], locations[i], locations[b]),
    decreases j - i,
{
    if j > i + 1 {
        let head = row_jumps(locations, i, j - 1);
        if t < head.len() {
            lemma_row_shape(locations, i, j - 1, t);
            let b = choose|b: int| i < b < j - 1 && joins(head[t], locations[i], locations[b]);
            assert(i < b < j && joins(row_jumps(locations, i, j)[t], locations[i], locations[b]));
        } else {
            let jump = row_jumps(locations, i, j)[t];
            assert(jump == pair_jumps(locations[i], locations[j - 1])[t - head.len()]);
            if t - head.len() > 0 {
                assert(jump == alternates(locations[i], locations[j - 1])[t - head.len() - 1]);
            }
            assert(joins(jump, locations[i], locations[j - 1]));
        }
    }
}

/// A location with a later one has a jump in its row.
proof fn lemma_row_filled(locations: Seq<LocationView>, i: int, j: int)
    requires
        0 <= i,
        i + 1 < j <= locations.len(),
    ensures
        row_jumps(locations, i, j).len() > 0,
{
}

/// Every jump goes from one location to a later one.
proof fn lemma_jump_shape(locations: Seq<LocationView>, i: int, t: int)
    requires
        0 <= i <= locations.len(),
        0 <= t < jumps_before(locations, i).len(),
    ensures
        exists|a: int, b: int|
            0 <= a < b < locations.len() && a < i && joins(
                jumps_before(locations, i)[t],
                locations[a],
                locations[b],
            ),
    decreases i,
{
    if i > 0 {
        let head = jumps_before(locations, i - 1);
        let len = locations.len() as int;
        if t < head.len() {
            lemma_jump_shape(locations, i - 1, t);
            let (a, b) = choose|a: int, b: int|
                0 <= a < b < locations.len() && a < i - 1 && joins(
                    head[t],
                    locations[a],
                    locations[b],
                );
            assert(0 <= a < b < locations.len() && a < i && joins(
                jumps_before(locations, i)[t],
                locations[a],
                locations[b],
            ));
        } else {
            let jump = jumps_before(locations, i)[t];
            let a = i - 1;
            assert(jump == row_jumps(locations, a, len)[t - head.len()]);
            lemma_row_shape(locations, a, len, t - head.len());
            let b = choose|b: int| a < b < len && joins(jump, locations[a], locations[b]);
            assert(0 <= a < b < locations.len() && a < i && joins(jump, locations[a], locations[b]));
        }
    }
}

/// Every location but the last is the source of a jump.
proof fn lemma_jump_sources(locations: Seq<LocationView>, i: int, a: int)
    requires
        0 <= a < i <= locations.len(),
        a + 1 < locations.len(),
    ensures
        exists|t: int|
            0 <= t < jumps_before(locations, i).len() && (#[trigger] jumps_before(
                locations,
                i,
            )[t]).source == locations[a],
    decreases i,
{
    let head = jumps_before(locations, i - 1);
    let len = locations.len() as int;
    if a < i - 1 {
        lemma_jump_sources(locations, i - 1, a);
        let t = choose|t: int| 0 <= t < head.len() && (#[trigger] head[t]).source == locations[a];
        assert(jumps_before(locations, i)[t] == head[t]);
    } else {
        lemma_row_filled(locations, a, len);
        lemma_row_shape(locations, a, len, 0);
        assert(jumps_before(locations, i)[head.len() as int] == row_jumps(locations, a, len)[0]);
    }
}

/// Where a jump of a path is taken by anything but the end marker, it leads
/// to a node that the path itself provides.
pub proof fn lemma_jumps_linked(s: Seq<char>, t: int)
    requires
        0 <= t < jumps_of(s).len(),
        jumps_of(s)[t].destination.character != '$',
    ensures
        is_source(jumps_of(s), jumps_of(s)[t].destination.prefix),
{
    let locations = locations_of(s);
    let len = locations.len() as int;
    lemma_jump_shape(locations, len, t);
    let (a, b) = choose|a: int, b: int|
        0 <= a < b < locations.len() && a < len && joins(
            jumps_of(s)[t],
            locations[a],
            locations[b],
        );
    assert(b < len - 1) by {
        if b == len - 1 {
            assert(locations[b].label == LocationLabel::PathEnd);
            assert(locations[b].character == '$');
        }
    }
    lemma_jump_sources(locations, len, b);
}

/// The edge of a jump is aligned with the node that it leaves: it leads to a
/// longer text of the same path, and matches the byte at which that text
/// ends.
pub proof fn lemma_jumps_aligned(s: Seq<char>, t: int)
    requires
        path_fits(s),
        0 <= t < jumps_of(s).len(),
    ensures
        edge_aligned(jumps_of(s)[t].source.prefix, edge_of(jumps_of(s)[t])),
{
    let locations = locations_of(s);
    let len = locations.len() as int;
    lemma_jump_shape(locations, len, t);
    let (a, b) = choose|a: int, b: int|
        0 <= a < b < locations.len() && a < len && joins(
            jumps_of(s)[t],
            locations[a],
            locations[b],
        );
    let from = locations[a].prefix;
    let to = locations[b].prefix;
    let cut = if a == 0 {
        0
    } else {
        a - 1
    };
    let end = if b == len - 1 {
        s.len() as int
    } else {
        b - 1
    };
    assert(from =~= s.take(cut));
    assert(to =~= s.take(end));
    assert(s.take(end).subrange(0, cut) =~= s.take(cut));
    assert(from.is_prefix_of(to));
    lemma_byte_length_prefix(s, end);
    assert(s.take(s.len() as int) =~= s);
    assert(locations[b].index == byte_length(to));
}

/// Every edge that jumps add comes from one of them.
proof fn lemma_edges_from(jumps: Seq<JumpView>, node: Seq<char>, c: char, k: int)
    requires
        0 <= k < edges_from(jumps, node, c).len(),
    ensures
        exists|t: int|
            0 <= t < jumps.len() && feeds(jumps[t], node, c) && edges_from(jumps, node, c)[k]
                == edge_of(jumps[t]),
    decreases jumps.len(),
{
    let rest = edges_from(jumps.drop_last(), node, c);
    if k < rest.len() {
        lemma_edges_from(jumps.drop_last(), node, c, k);
        let t = choose|t: int|
            0 <= t < jumps.len() - 1 && feeds(jumps.drop_last()[t], node, c) && rest[k] == edge_of(
                jumps.drop_last()[t],
            );
        assert(feeds(jumps[t], node, c) && edges_from(jumps, node, c)[k] == edge_of(jumps[t]));
    } else {
        let t = jumps.len() - 1;
        assert(feeds(jumps[t], node, c) && edges_from(jumps, node, c)[k] == edge_of(jumps[t]));
    }
}

/// The index of all pushed paths.
pub struct Index {
    graph: Graph,
}

impl Index {
    /// The graph of the index.
    pub closed spec fn graph(&self) -> &Graph {
        &self.graph
    }

    /// The graph is well formed, every edge that a typed character can take
    /// leads to a node, and every edge is aligned with the node it leaves.
    pub open spec fn wf(&self) -> bool {
        self.graph().wf() && self.graph().linked() && self.graph().aligned()
    }

    /// An index without paths.
    pub fn new() -> (index: Index)
        ensures
            index.wf(),
            index.graph().ceiling() == 0,
            forall|node: Seq<char>| !index.graph().has_node(node),
            forall|node: Seq<char>, c: char|
                index.graph().edges(node, c) == Seq::<EdgeView>::empty(),
    {
        Index { graph: Graph::new() }
    }

    /// Adds one path: every jump of `s` becomes an edge from the text before
    /// its source, under the character of its destination. Pushing a path
    /// again adds its edges again.
    pub fn push(&mut self, s: &str)
        requires
            old(self).wf(),
            path_fits(s@),
        ensures
            final(self).wf(),
            final(self).graph().ceiling() == top_score(jumps_of(s@), old(self).graph().ceiling()),
            forall|node: Seq<char>| #[trigger]
                final(self).graph().has_node(node) == (old(self).graph().has_node(node)
                    || is_source(jumps_of(s@), node)),
            forall|node: Seq<char>, c: char| #[trigger]
                final(self).graph().edges(node, c) == old(self).graph().edges(node, c)
                    + edges_from(jumps_of(s@), node, c),
    {
        let jumps = Jumps::new(s).collect();
        let ghost before = self.graph;
        let ghost all = jump_views(jumps@);
        let ghost items = jumps@;
        assert forall|node: Seq<char>, c: char| #[trigger]
            self.graph.edges(node, c) == before.edges(node, c) + edges_from(
                all.take(0),
                node,
                c,
            ) by {
            assert(before.edges(node, c) + Seq::<EdgeView>::empty() =~= before.edges(node, c));
        }
        for jump in it: jumps
            invariant
                it.seq() == items,
                all == jump_views(items),
                self.graph.wf(),
                self.graph.ceiling() == top_score(all.take(it.index()), before.ceiling()),
                forall|node: Seq<char>| #[trigger]
                    self.graph.has_node(node) == (before.has_node(node) || is_source(
                        all.take(it.index()),
                        node,
                    )),
                forall|node: Seq<char>, c: char| #[trigger]
                    self.graph.edges(node, c) == before.edges(node, c) + edges_from(
                        all.take(it.index()),
                        node,
                        c,
                    ),
        {
            let ghost k = it.index();
            let ghost previous = self.graph;
            let ghost value = jump@;
            assert(value == all[k]);
            let key = jump.source.prefix.clone();
            let character = jump.destination.character;
            self.graph.insert(&key, character, Edge::from(jump));
            proof {
                let shorter = all.take(k);
                let longer = all.take(k + 1);
                assert(longer.drop_last() =~= shorter);
                assert(longer.last() == value);
                assert forall|node: Seq<char>| #[trigger]
                    self.graph.has_node(node) == (before.has_node(node) || is_source(
                        longer,
                        node,
                    )) by {
                    if is_source(shorter, node) {
                        let t = choose|t: int|
                            0 <= t < shorter.len() && (#[trigger] shorter[t]).source.prefix == node;
                        assert(longer[t].source.prefix == node);
                    }
                    if node == key@ {
                        assert(longer[k].source.prefix == node);
                    }
                    if is_source(longer, node) && node != key@ {
                        let t = choose|t: int|
                            0 <= t < longer.len() && (#[trigger] longer[t]).source.prefix == node;
                        assert(shorter[t].source.prefix == node);
                    }
                }
                assert forall|node: Seq<char>, c: char| #[trigger]
                    self.graph.edges(node, c) == before.edges(node, c) + edges_from(
                        longer,
                        node,
                        c,
                    ) by {
                    let old_edges = before.edges(node, c);
                    let added = edges_from(shorter, node, c);
                    assert(previous.edges(node, c) == old_edges + added);
                    if feeds(value, node, c) {
                        assert((old_edges + added).push(edge_of(value)) =~= old_edges + added.push(
                            edge_of(value),
                        ));
                    }
                }
            }
        }
        proof {
            assert(all.take(items.len() as int) =~= all);
            assert(all == jumps_of(s@));
            let after = self.graph;
            assert forall|key: Seq<char>, c: char, k: int|
                c != '$' && 0 <= k < after.edges(key, c).len() implies after.has_node(
                #[trigger] after.edges(key, c)[k].path,
            ) by {
                let kept = before.edges(key, c);
                if k < kept.len() {
                    assert(before.has_node(kept[k].path));
                } else {
                    lemma_edges_from(all, key, c, k - kept.len());
                    let t = choose|t: int|
                        0 <= t < all.len() && feeds(all[t], key, c) && edges_from(all, key, c)[k
                            - kept.len()] == edge_of(all[t]);
                    lemma_jumps_linked(s@, t);
                }
            }
            assert forall|key: Seq<char>, c: char, k: int|
                0 <= k < after.edges(key, c).len() implies edge_aligned(
                key,
                #[trigger] after.edges(key, c)[k],
            ) by {
                let kept = before.edges(key, c);
                if k < kept.len() {
                    assert(edge_aligned(key, kept[k]));
                } else {
                    lemma_edges_from(all, key, c, k - kept.len());
                    let t = choose|t: int|
                        0 <= t < all.len() && feeds(all[t], key, c) && edges_from(all, key, c)[k
                            - kept.len()] == edge_of(all[t]);
                    lemma_jumps_aligned(s@, t);
                }
            }
        }
    }

    /// A query over the index with nothing typed. It is live as soon as one
    /// path was pushed.
    pub fn query(&self) -> (query: Query<'_>)
        requires
            self.wf(),
        ensures
            query.wf(),
            query.graph() == self.graph(),
            query@ == seq![first_step()],
            query.live() == self.graph().has_node(Seq::empty()),
            query.aligned(),
    {
        Query::new(&self.graph)
    }
}

/// The index of the given lines, pushed in their order.
pub fn from_buf_reader(lines: &Vec<String>) -> (index: Index)
    requires
        forall|i: int| 0 <= i < lines@.len() ==> path_fits(#[trigger] lines@[i]@),
    ensures
        index.wf(),
        index.graph().ceiling() == top_score_of_paths(line_views(lines@)),
        forall|node: Seq<char>| #[trigger]
            index.graph().has_node(node) == is_source_of_paths(line_views(lines@), node),
        forall|node: Seq<char>, c: char| #[trigger]
            index.graph().edges(node, c) == edges_of_paths(line_views(lines@), node, c),
{
    let mut index = Index::new();
    let ghost paths = line_views(lines@);
    let mut i: usize = 0;
    while i < lines.len()
        invariant
            i <= lines@.len(),
            paths == line_views(lines@),
            index.wf(),
            index.graph().ceiling() == top_score_of_paths(paths.take(i as int)),
            forall|k: int| 0 <= k < lines@.len() ==> path_fits(#[trigger] lines@[k]@),
            forall|node: Seq<char>| #[trigger]
                index.graph().has_node(node) == is_source_of_paths(paths.take(i as int), node),
            forall|node: Seq<char>, c: char| #[trigger]
                index.graph().edges(node, c) == edges_of_paths(paths.take(i as int), node, c),
        decreases lines@.len() - i,
    {
        let ghost previous = index;
        index.push(lines[i].as_str());
        proof {
            let shorter = paths.take(i as int);
            let longer = paths.take(i + 1);
            assert(longer.drop_last() =~= shorter);
            assert(longer.last() == lines@[i as int]@);
            assert forall|node: Seq<char>| #[trigger]
                index.graph().has_node(node) == is_source_of_paths(longer, node) by {
                if is_source_of_paths(shorter, node) {
                    let k = choose|k: int|
                        0 <= k < shorter.len() && is_source(jumps_of(#[trigger] shorter[k]), node);
                    assert(is_source(jumps_of(longer[k]), node));
                }
                if is_source(jumps_of(lines@[i as int]@), node) {
                    assert(is_source(jumps_of(longer[i as int]), node));
                }
                if is_source_of_paths(longer, node) {
                    let k = choose|k: int|
                        0 <= k < longer.len() && is_source(jumps_of(#[trigger] longer[k]), node);
                    if k < i {
                        assert(is_source(jumps_of(shorter[k]), node));
                    }
                }
            }
        }
        i += 1;
    }
    assert(paths.take(lines@.len() as int) =~= paths);
    index
}

} // verus!

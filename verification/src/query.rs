//! The query engine: an undoable walk over the graph, one typed character
//! at a time.

use vstd::prelude::*;
use crate::graph::{edge_aligned, edge_views, Edge, EdgeView, Graph};
use crate::min_set::{distinct_keys, entries, min_fold, min_insert, Entry, MinSet, Ranked};
use crate::query_result::{
    distinct_paths, lemma_ranked, ranked, result_of, QueryResult, QueryResults, ResultView,
};
use crate::text::{byte_length, digest_of, push_char};

verus! {

/// A traversal in progress: the node reached, the cost so far, and the byte
/// offsets matched on the way.
pub struct Cursor {
    pub node: String,
    pub score: usize,
    pub positions: Vec<usize>,
}

impl Ranked for Cursor {
    open spec fn entry(&self) -> Entry {
        Entry { key: self.node@, score: self.score as nat, positions: self.positions@ }
    }

    fn same_key(&self, other: &Self) -> (same: bool) {
        self.node == other.node
    }

    fn costs_more(&self, other: &Self) -> (more: bool) {
        self.score > other.score
    }

    fn key_digest(&self) -> (h: u64) {
        digest_of(&self.node)
    }
}

/// A traversal that has reached the end of a path.
pub struct Match {
    pub path: String,
    pub score: usize,
    pub positions: Vec<usize>,
}

impl Ranked for Match {
    open spec fn entry(&self) -> Entry {
        Entry { key: self.path@, score: self.score as nat, positions: self.positions@ }
    }

    fn same_key(&self, other: &Self) -> (same: bool) {
        self.path == other.path
    }

    fn costs_more(&self, other: &Self) -> (more: bool) {
        self.score > other.score
    }

    fn key_digest(&self) -> (h: u64) {
        digest_of(&self.path)
    }
}

impl From<Cursor> for Match {
    /// The match that a cursor becomes at the end of a path.
    fn from(cursor: Cursor) -> (m: Match) {
        Match { path: cursor.node, score: cursor.score, positions: cursor.positions }
    }
}

impl vstd::std_specs::convert::FromSpecImpl<Cursor> for Match {
    open spec fn obeys_from_spec() -> bool {
        true
    }

    /// The match has the entry of the cursor.
    open spec fn from_spec(cursor: Cursor) -> Match {
        Match { path: cursor.node, score: cursor.score, positions: cursor.positions }
    }
}

/// The traversal `cursor` after it took `edge`.
pub open spec fn extend_entry(cursor: Entry, edge: EdgeView) -> Entry {
    Entry {
        key: edge.path,
        score: cursor.score + edge.score,
        positions: cursor.positions.push(edge.position),
    }
}

/// `cursor` extended by each of `edges`, in their order.
pub open spec fn extensions(cursor: Entry, edges: Seq<EdgeView>) -> Seq<Entry> {
    Seq::new(edges.len(), |i: int| extend_entry(cursor, edges[i]))
}

/// Every traversal that one more character `c` opens: each cursor in turn,
/// extended by each edge that leaves its node on `c`.
pub open spec fn candidates(graph: &Graph, cursors: Seq<Entry>, c: char) -> Seq<Entry>
    decreases cursors.len(),
{
    if cursors.len() == 0 {
        Seq::empty()
    } else {
        candidates(graph, cursors.drop_last(), c) + extensions(
            cursors.last(),
            graph.edges(cursors.last().key, c),
        )
    }
}

/// The cursors after one more character `c`: the candidates, the cheapest
/// kept for each node.
pub open spec fn reached(graph: &Graph, cursors: Seq<Entry>, c: char) -> Seq<Entry> {
    min_fold(Seq::empty(), candidates(graph, cursors, c))
}

/// Every cursor stands at a node of the graph.
pub open spec fn rooted(graph: &Graph, cursors: Seq<Entry>) -> bool {
    forall|i: int| 0 <= i < cursors.len() ==> graph.has_node(#[trigger] cursors[i].key)
}

/// `position` is the byte offset at which some character of `path` begins,
/// or at which `path` ends.
pub open spec fn is_boundary(path: Seq<char>, position: usize) -> bool {
    exists|k: int| 0 <= k <= path.len() && position == byte_length(#[trigger] path.take(k))
}

/// Every matched position is a boundary of the text reached.
pub open spec fn entry_aligned(e: Entry) -> bool {
    forall|i: int| 0 <= i < e.positions.len() ==> is_boundary(e.key, #[trigger] e.positions[i])
}

/// Every cursor is aligned.
pub open spec fn aligned(cursors: Seq<Entry>) -> bool {
    forall|i: int| 0 <= i < cursors.len() ==> entry_aligned(#[trigger] cursors[i])
}

/// Every position of every result is a boundary of its path.
pub open spec fn results_aligned(results: Seq<ResultView>) -> bool {
    forall|i: int, p: usize|
        0 <= i < results.len() && #[trigger] results[i].positions.contains(p) ==> is_boundary(
            results[i].path,
            p,
        )
}

/// Taking an aligned edge keeps a cursor aligned.
pub proof fn lemma_extend_aligned(cursor: Entry, edge: EdgeView)
    requires
        entry_aligned(cursor),
        edge_aligned(cursor.key, edge),
    ensures
        entry_aligned(extend_entry(cursor, edge)),
{
    let next = extend_entry(cursor, edge);
    assert forall|i: int| 0 <= i < next.positions.len() implies is_boundary(
        next.key,
        #[trigger] next.positions[i],
    ) by {
        if i < cursor.positions.len() {
            assert(is_boundary(cursor.key, cursor.positions[i]));
            let k = choose|k: int|
                0 <= k <= cursor.key.len() && cursor.positions[i] == byte_length(
                    #[trigger] cursor.key.take(k),
                );
            assert(edge.path.take(k) =~= cursor.key.take(k));
        } else {
            assert(edge.path.take(edge.path.len() as int) =~= edge.path);
        }
    }
}

/// No cursor has cost more than `bound`.
pub open spec fn capped(cursors: Seq<Entry>, bound: int) -> bool {
    forall|i: int| 0 <= i < cursors.len() ==> (#[trigger] cursors[i]).score <= bound
}

impl Cursor {
    /// The cursor after it took `edge`.
    pub fn extend(&self, edge: &Edge) -> (next: Cursor)
        requires
            self.score + edge.score <= usize::MAX,
        ensures
            next.entry() == extend_entry(self.entry(), edge@),
    {
        let mut positions = self.positions.clone();
        assert(positions@ =~= self.positions@);
        positions.push(edge.position);
        Cursor { node: edge.path.clone(), score: self.score + edge.score, positions }
    }
}

/// The cursors that are reachable by the characters typed so far.
pub struct Step {
    character: char,
    cursors: MinSet<Cursor>,
}

/// The mathematical value of a [`Step`].
pub ghost struct StepView {
    /// The character that led to the step, `^` for the first.
    pub character: char,
    pub cursors: Seq<Entry>,
}

impl View for Step {
    type V = StepView;

    closed spec fn view(&self) -> StepView {
        StepView { character: self.character, cursors: self.cursors@ }
    }
}

/// The values of a sequence of steps.
pub open spec fn step_views(steps: Seq<Step>) -> Seq<StepView> {
    Seq::new(steps.len(), |i: int| steps[i]@)
}

/// The step before anything is typed: one cursor at the empty node, for free.
pub open spec fn first_step() -> StepView {
    StepView {
        character: '^',
        cursors: seq![Entry { key: Seq::empty(), score: 0, positions: Seq::empty() }],
    }
}

/// The step that typing `c` leads to from `top`.
pub open spec fn next_step(graph: &Graph, top: StepView, c: char) -> StepView {
    StepView { character: c, cursors: reached(graph, top.cursors, c) }
}

/// The steps after `c` was typed.
pub open spec fn advanced(graph: &Graph, steps: Seq<StepView>, c: char) -> Seq<StepView> {
    steps.push(next_step(graph, steps.last(), c))
}

/// The steps after the last typed character was taken back. The first step
/// is never taken away.
pub open spec fn backed(steps: Seq<StepView>) -> Seq<StepView> {
    if steps.len() > 1 {
        steps.drop_last()
    } else {
        steps
    }
}

/// The characters typed so far.
pub open spec fn typed(steps: Seq<StepView>) -> Seq<char> {
    Seq::new((steps.len() - 1) as nat, |i: int| steps[i + 1].character)
}

/// Taking back a character undoes typing it: the steps are exactly those
/// that stood before, with the same cursors and the same scores.
pub proof fn lemma_back_undoes_advance(graph: &Graph, steps: Seq<StepView>, c: char)
    requires
        steps.len() >= 1,
    ensures
        backed(advanced(graph, steps, c)) == steps,
{
    assert(advanced(graph, steps, c).drop_last() =~= steps);
}

/// Typing a character appends it to what was typed, and taking one back
/// removes the last.
pub proof fn lemma_typed(graph: &Graph, steps: Seq<StepView>, c: char)
    requires
        steps.len() >= 1,
    ensures
        typed(advanced(graph, steps, c)) == typed(steps).push(c),
        steps.len() > 1 ==> typed(backed(steps)) == typed(steps).drop_last(),
{
    assert(typed(advanced(graph, steps, c)) =~= typed(steps).push(c));
    if steps.len() > 1 {
        assert(typed(backed(steps)) =~= typed(steps).drop_last());
    }
}

/// Every candidate stands where an edge of the graph leads.
proof fn lemma_candidates(graph: &Graph, cursors: Seq<Entry>, c: char, bound: int)
    requires
        graph.wf(),
        capped(cursors, bound),
    ensures
        capped(candidates(graph, cursors, c), bound + graph.ceiling()),
        graph.linked() && c != '$' && rooted(graph, cursors) ==> rooted(
            graph,
            candidates(graph, cursors, c),
        ),
        graph.aligned() && aligned(cursors) ==> aligned(candidates(graph, cursors, c)),
    decreases cursors.len(),
{
    if cursors.len() > 0 {
        let head = cursors.drop_last();
        let last = cursors.last();
        lemma_candidates(graph, head, c, bound);
        if graph.aligned() && aligned(cursors) {
            let edges = graph.edges(last.key, c);
            let all = candidates(graph, cursors, c);
            let first = candidates(graph, head, c);
            assert(aligned(head)) by {
                assert forall|i: int| 0 <= i < head.len() implies entry_aligned(
                    #[trigger] head[i],
                ) by {
                    assert(head[i] == cursors[i]);
                }
            }
            assert forall|i: int| 0 <= i < all.len() implies entry_aligned(#[trigger] all[i]) by {
                if i >= first.len() {
                    assert(entry_aligned(cursors[cursors.len() - 1]));
                    assert(edge_aligned(last.key, edges[i - first.len()]));
                    lemma_extend_aligned(last, edges[i - first.len()]);
                    assert(all[i] == extend_entry(last, edges[i - first.len()]));
                } else {
                    assert(all[i] == first[i]);
                }
            }
        }
        let edges = graph.edges(last.key, c);
        let all = candidates(graph, cursors, c);
        let first = candidates(graph, head, c);
        assert forall|i: int| 0 <= i < all.len() implies (#[trigger] all[i]).score <= bound
            + graph.ceiling() by {
            if i >= first.len() {
                graph.lemma_ceiling(last.key, c, i - first.len());
                assert(all[i] == extend_entry(last, edges[i - first.len()]));
            } else {
                assert(all[i] == first[i]);
            }
        }
        if graph.linked() && c != '$' && rooted(graph, cursors) {
            assert(rooted(graph, head)) by {
                assert forall|i: int| 0 <= i < head.len() implies graph.has_node(
                    #[trigger] head[i].key,
                ) by {
                    assert(head[i] == cursors[i]);
                }
            }
            assert forall|i: int| 0 <= i < all.len() implies graph.has_node(
                #[trigger] all[i].key,
            ) by {
                if i >= first.len() {
                    assert(graph.has_node(last.key));
                    assert(all[i] == extend_entry(last, edges[i - first.len()]));
                    assert(graph.has_node(edges[i - first.len()].path));
                } else {
                    assert(all[i] == first[i]);
                }
            }
        }
    }
}

/// What holds of every offered entry and of the set holds of the set after
/// the offers.
proof fn lemma_min_fold_keeps(graph: &Graph, items: Seq<Entry>, more: Seq<Entry>, bound: int)
    requires
        capped(items, bound),
        capped(more, bound),
    ensures
        capped(min_fold(items, more), bound),
        rooted(graph, items) && rooted(graph, more) ==> rooted(graph, min_fold(items, more)),
        aligned(items) && aligned(more) ==> aligned(min_fold(items, more)),
    decreases more.len(),
{
    if more.len() > 0 {
        let head = more.drop_last();
        if aligned(items) && aligned(more) {
            assert(aligned(head)) by {
                assert forall|i: int| 0 <= i < head.len() implies entry_aligned(
                    #[trigger] head[i],
                ) by {
                    assert(head[i] == more[i]);
                }
            }
        }
        assert(capped(head, bound)) by {
            assert forall|i: int| 0 <= i < head.len() implies (#[trigger] head[i]).score
                <= bound by {
                assert(head[i] == more[i]);
            }
        }
        lemma_min_fold_keeps(graph, items, head, bound);
        let folded = min_fold(items, head);
        let e = more.last();
        let after = min_insert(folded, e);
        assert(capped(after, bound)) by {
            assert forall|i: int| 0 <= i < after.len() implies (#[trigger] after[i]).score
                <= bound by {
                if after[i] != e {
                    assert(after[i] == folded[i]);
                }
            }
        }
        if aligned(items) && aligned(more) {
            assert forall|i: int| 0 <= i < after.len() implies entry_aligned(
                #[trigger] after[i],
            ) by {
                if after[i] != e {
                    assert(after[i] == folded[i]);
                } else {
                    assert(e == more[more.len() - 1]);
                }
            }
        }
        if rooted(graph, items) && rooted(graph, more) {
            assert(rooted(graph, head)) by {
                assert forall|i: int| 0 <= i < head.len() implies graph.has_node(
                    #[trigger] head[i].key,
                ) by {
                    assert(head[i] == more[i]);
                }
            }
            assert forall|i: int| 0 <= i < after.len() implies graph.has_node(
                #[trigger] after[i].key,
            ) by {
                if after[i] != e {
                    assert(after[i] == folded[i]);
                }
            }
        }
    }
}

impl Step {
    /// The cursors can be offered more: no node occurs twice among them.
    pub closed spec fn wf(&self) -> bool {
        self.cursors.wf()
    }

    /// The step before anything is typed.
    pub fn first() -> (step: Step)
        ensures
            step@ == first_step(),
            step.wf(),
    {
        let cursor = Cursor { node: String::new(), score: 0, positions: Vec::new() };
        let mut cursors = MinSet::new();
        cursors.insert(cursor);
        assert(cursors@ =~= first_step().cursors);
        Step { character: '^', cursors }
    }

    /// A step without cursors, reached by `character`.
    pub fn new(character: char) -> (step: Step)
        ensures
            step@ == (StepView { character, cursors: Seq::empty() }),
            step.wf(),
    {
        Step { character, cursors: MinSet::new() }
    }

    /// Offers `cursor` to the step: the cheapest cursor per node stays.
    pub fn push(&mut self, cursor: Cursor)
        requires
            old(self).wf(),
        ensures
            final(self).wf(),
            distinct_keys(final(self)@.cursors),
            final(self)@ == (StepView {
                character: old(self)@.character,
                cursors: min_insert(old(self)@.cursors, cursor.entry()),
            }),
    {
        self.cursors.insert(cursor);
    }

    /// The character that led to the step.
    pub fn character(&self) -> (c: char)
        ensures
            c == self@.character,
    {
        self.character
    }
}

/// A query in progress over one graph.
pub struct Query<'a> {
    graph: &'a Graph,
    steps: Vec<Step>,
}

impl<'a> View for Query<'a> {
    type V = Seq<StepView>;

    closed spec fn view(&self) -> Seq<StepView> {
        step_views(self.steps@)
    }
}

impl<'a> Query<'a> {
    /// The graph that the query walks.
    pub closed spec fn graph(&self) -> &Graph {
        self.graph
    }

    /// There is always a first step; no step holds two cursors at one node;
    /// a cursor of the `k`-th step has taken `k` edges and cost no more than
    /// that many times the ceiling; and every step that was advanced from
    /// stands on nodes of the graph.
    pub open spec fn wf(&self) -> bool {
        &&& self@.len() >= 1
        &&& self.graph().wf()
        &&& forall|k: int| 0 <= k < self@.len() ==> distinct_keys((#[trigger] self@[k]).cursors)
        &&& forall|k: int|
            0 <= k < self@.len() ==> capped(
                (#[trigger] self@[k]).cursors,
                k * self.graph().ceiling(),
            )
        &&& forall|k: int|
            0 <= k < self@.len() - 1 ==> rooted(self.graph(), (#[trigger] self@[k]).cursors)
    }

    /// Every position that a cursor has matched is a boundary of the text
    /// that the cursor has reached.
    pub open spec fn aligned(&self) -> bool {
        forall|k: int| 0 <= k < self@.len() ==> aligned((#[trigger] self@[k]).cursors)
    }

    /// Every cursor of the current step stands at a node of the graph.
    pub open spec fn live(&self) -> bool {
        rooted(self.graph(), self@.last().cursors)
    }

    /// No score that one more edge leads to can outgrow a machine word.
    pub open spec fn has_room(&self) -> bool {
        self@.len() * self.graph().ceiling() <= usize::MAX
    }

    /// The query can take one more edge: it is live and has room.
    pub open spec fn ready(&self) -> bool {
        self.live() && self.has_room()
    }

    /// A query over `graph` with nothing typed.
    pub fn new(graph: &'a Graph) -> (query: Query<'a>)
        requires
            graph.wf(),
        ensures
            query.wf(),
            query.graph() == graph,
            query@ == seq![first_step()],
            query.live() == graph.has_node(Seq::empty()),
            query.aligned(),
    {
        let mut steps: Vec<Step> = Vec::new();
        steps.push(Step::first());
        let query = Query { graph, steps };
        assert(query@ =~= seq![first_step()]);
        assert(query@[0].cursors[0].score == 0);
        assert(query@.last().cursors[0].key == Seq::<char>::empty());
        query
    }

    fn current_step(&self) -> (step: &Step)
        requires
            self@.len() >= 1,
        ensures
            step@ == self@.last(),
    {
        &self.steps[self.steps.len() - 1]
    }

    /// Whether no score that one more edge leads to can outgrow a machine
    /// word.
    pub fn check_room(&self) -> (room: bool)
        ensures
            room == self.has_room(),
    {
        let ceiling = self.graph.max_score();
        let depth = self.steps.len();
        if ceiling != 0 && depth > usize::MAX / ceiling {
            assert(depth * ceiling > usize::MAX) by (nonlinear_arith)
                requires
                    ceiling > 0,
                    depth > usize::MAX / ceiling,
            ;
            false
        } else {
            assert(depth * ceiling <= usize::MAX) by (nonlinear_arith)
                requires
                    ceiling == 0 || depth <= usize::MAX / ceiling,
            ;
            true
        }
    }

    /// Whether the query can take one more edge.
    pub fn is_ready(&self) -> (ready: bool)
        requires
            self.wf(),
        ensures
            ready == self.ready(),
    {
        if !self.check_room() {
            return false;
        }
        let step = self.current_step();
        let mut i: usize = 0;
        while i < step.cursors.len()
            invariant
                i <= step.cursors@.len(),
                self@.len() >= 1,
                self.graph().wf(),
                step@ == self@.last(),
                self.has_room(),
                forall|k: int| 0 <= k < i ==> self.graph().has_node(#[trigger] step@.cursors[k].key),
            decreases step.cursors@.len() - i,
        {
            if !self.graph.contains(&step.cursors.get(i).node) {
                assert(!self.graph().has_node(self@.last().cursors[i as int].key));
                return false;
            }
            i += 1;
        }
        true
    }

    /// Every cursor that typing `character` opens, before the cheapest per
    /// node is chosen.
    fn candidates(&self, character: char) -> (found: Vec<Cursor>)
        requires
            self.wf(),
            self.ready(),
        ensures
            entries(found@) == candidates(self.graph(), self@.last().cursors, character),
    {
        let step = self.current_step();
        let ghost graph = self.graph();
        let ghost cursors = step@.cursors;
        let ghost depth = self@.len() as int;
        let ghost ceiling = graph.ceiling() as int;
        assert(capped(cursors, (depth - 1) * ceiling));
        assert(depth * ceiling == (depth - 1) * ceiling + ceiling) by (nonlinear_arith);
        let mut found: Vec<Cursor> = Vec::new();
        let count = step.cursors.len();
        let mut i: usize = 0;
        assert(entries(found@) =~= candidates(graph, cursors.take(0), character));
        while i < count
            invariant
                i <= count,
                count == cursors.len(),
                cursors == step@.cursors,
                graph == self.graph(),
                ceiling == graph.ceiling(),
                graph.wf(),
                rooted(graph, cursors),
                capped(cursors, (depth - 1) * ceiling),
                (depth - 1) * ceiling + ceiling <= usize::MAX,
                entries(found@) == candidates(graph, cursors.take(i as int), character),
            decreases count - i,
        {
            let cursor = step.cursors.get(i);
            let ghost done = entries(found@);
            let ghost from = cursor.entry();
            assert(from == cursors[i as int]);
            assert(graph.has_node(cursors[i as int].key));
            let ghost leaving = graph.edges(from.key, character);
            match self.graph.bucket(&cursor.node, character) {
                Some(edges) => {
                    let mut k: usize = 0;
                    assert(entries(found@) =~= done + extensions(from, leaving).take(0));
                    while k < edges.len()
                        invariant
                            k <= edges@.len(),
                            graph.wf(),
                            ceiling == graph.ceiling(),
                            from == cursor.entry(),
                            from.score <= (depth - 1) * ceiling,
                            (depth - 1) * ceiling + ceiling <= usize::MAX,
                            leaving == graph.edges(from.key, character),
                            edge_views(edges@) == leaving,
                            entries(found@) == done + extensions(from, leaving).take(k as int),
                        decreases edges@.len() - k,
                    {
                        proof {
                            graph.lemma_ceiling(from.key, character, k as int);
                            assert(leaving[k as int] == edges@[k as int]@);
                        }
                        let next = cursor.extend(&edges[k]);
                        let ghost before = found@;
                        found.push(next);
                        proof {
                            assert(entries(found@) =~= entries(before).push(next.entry()));
                            assert(extensions(from, leaving).take(k + 1) =~= extensions(
                                from,
                                leaving,
                            ).take(k as int).push(next.entry()));
                            assert(entries(found@) =~= done + extensions(from, leaving).take(
                                k + 1,
                            ));
                        }
                        k += 1;
                    }
                    assert(extensions(from, leaving).take(edges@.len() as int) =~= extensions(
                        from,
                        leaving,
                    ));
                },
                None => {
                    assert(extensions(from, leaving) =~= Seq::<Entry>::empty());
                    assert(done + extensions(from, leaving) =~= done);
                },
            }
            proof {
                assert(cursors.take(i + 1).drop_last() =~= cursors.take(i as int));
                assert(cursors.take(i + 1).last() == from);
            }
            i += 1;
        }
        assert(cursors.take(count as int) =~= cursors);
        found
    }

    /// Types one more character: the next step holds, for each node that an
    /// edge on `character` leads to from a current cursor, the cheapest
    /// cursor that reaches it. Where no edge matches, the step is empty.
    pub fn advance(&mut self, character: char)
        requires
            old(self).wf(),
            old(self).ready(),
        ensures
            final(self).wf(),
            final(self).graph() == old(self).graph(),
            final(self)@ == advanced(old(self).graph(), old(self)@, character),
            old(self).graph().linked() && character != '$' ==> final(self).live(),
            old(self).graph().aligned() && old(self).aligned() ==> final(self).aligned(),
    {
        let found = self.candidates(character);
        let ghost graph = self.graph();
        let ghost before = self@;
        let ghost offered = entries(found@);
        let ghost depth = before.len() as int;
        let ghost ceiling = graph.ceiling() as int;
        proof {
            assert(capped(before.last().cursors, (depth - 1) * ceiling));
            assert(depth * ceiling == (depth - 1) * ceiling + ceiling) by (nonlinear_arith);
            lemma_candidates(graph, before.last().cursors, character, (depth - 1) * ceiling);
            lemma_min_fold_keeps(graph, Seq::empty(), offered, depth * ceiling);
            assert(old(self).aligned() ==> aligned(before.last().cursors));
        }
        let mut next_step = Step::new(character);
        assert(next_step@.cursors =~= min_fold(Seq::empty(), offered.take(0)));
        let ghost items = found@;
        for cursor in it: found
            invariant
                it.seq() == items,
                offered == entries(items),
                next_step@.character == character,
                next_step@.cursors == min_fold(Seq::empty(), offered.take(it.index())),
                next_step.wf(),
                distinct_keys(next_step@.cursors),
        {
            proof {
                assert(offered.take(it.index() + 1).drop_last() =~= offered.take(it.index()));
                assert(offered.take(it.index() + 1).last() == cursor.entry());
            }
            next_step.push(cursor);
        }
        assert(offered.take(items.len() as int) =~= offered);
        let ghost last = next_step@;
        self.steps.push(next_step);
        proof {
            assert(self@ =~= before.push(last));
            assert forall|k: int| 0 <= k < self@.len() implies distinct_keys(
                (#[trigger] self@[k]).cursors,
            ) by {
                if k < before.len() {
                    assert(self@[k] == before[k]);
                }
            }
            assert forall|k: int| 0 <= k < self@.len() implies capped(
                (#[trigger] self@[k]).cursors,
                k * self.graph().ceiling(),
            ) by {
                if k < before.len() {
                    assert(self@[k] == before[k]);
                }
            }
            assert forall|k: int| 0 <= k < self@.len() - 1 implies rooted(
                self.graph(),
                (#[trigger] self@[k]).cursors,
            ) by {
                assert(self@[k] == before[k]);
            }
            if old(self).graph().aligned() && old(self).aligned() {
                assert forall|k: int| 0 <= k < self@.len() implies aligned(
                    (#[trigger] self@[k]).cursors,
                ) by {
                    if k < before.len() {
                        assert(self@[k] == before[k]);
                    }
                }
            }
        }
    }

    /// Takes back the last typed character. With nothing typed, nothing
    /// changes: the first step always stays.
    pub fn back(&mut self)
        requires
            old(self).wf(),
        ensures
            final(self).wf(),
            final(self).graph() == old(self).graph(),
            final(self)@ == backed(old(self)@),
            old(self)@.len() > 1 ==> final(self).live(),
            old(self).aligned() ==> final(self).aligned(),
    {
        let ghost before = self@;
        if self.steps.len() > 1 {
            self.steps.pop();
            proof {
                assert(self@ =~= before.drop_last());
                assert forall|k: int| 0 <= k < self@.len() implies self@[k] == before[k] by {}
                assert(self@.last() == before[self@.len() - 1]);
            }
        }
    }

    /// The paths that the typed characters match, best first: every current
    /// cursor is extended by the edges that end a path, the cheapest match
    /// is kept for each path, and the matches are ranked by score.
    pub fn results(&self) -> (results: QueryResults)
        requires
            self.wf(),
            self.ready(),
        ensures
            results@ == ranked(reached(self.graph(), self@.last().cursors, '$')),
            results.wf(),
            distinct_paths(results@),
            results@.len() == reached(self.graph(), self@.last().cursors, '$').len(),
            self.graph().aligned() && self.aligned() ==> results_aligned(results@),
    {
        let found = self.candidates('$');
        let ghost offered = entries(found@);
        proof {
            let depth = self@.len() as int;
            let ceiling = self.graph().ceiling() as int;
            assert(capped(self@.last().cursors, (depth - 1) * ceiling));
            lemma_candidates(self.graph(), self@.last().cursors, '$', (depth - 1) * ceiling);
            lemma_min_fold_keeps(
                self.graph(),
                Seq::empty(),
                offered,
                (depth - 1) * ceiling + ceiling,
            );
            assert(self.aligned() ==> aligned(self@.last().cursors));
        }
        let ghost items = found@;
        let mut match_set: MinSet<Match> = MinSet::new();
        assert(match_set@ =~= min_fold(Seq::empty(), offered.take(0)));
        for cursor in it: found
            invariant
                it.seq() == items,
                offered == entries(items),
                match_set@ == min_fold(Seq::empty(), offered.take(it.index())),
                match_set.wf(),
                distinct_keys(match_set@),
        {
            proof {
                assert(offered.take(it.index() + 1).drop_last() =~= offered.take(it.index()));
                assert(offered.take(it.index() + 1).last() == cursor.entry());
            }
            match_set.insert(Match::from(cursor));
        }
        assert(offered.take(items.len() as int) =~= offered);
        let matches = match_set.into_vec();
        let ghost kept = entries(matches@);
        let ghost list = matches@;
        let mut results = QueryResults::new();
        assert(results@ =~= ranked(kept.take(0)));
        for m in it: matches
            invariant
                it.seq() == list,
                kept == entries(list),
                results@ == ranked(kept.take(it.index())),
                results.wf(),
        {
            proof {
                assert(kept.take(it.index() + 1).drop_last() =~= kept.take(it.index()));
                assert(kept.take(it.index() + 1).last() == m.entry());
            }
            results.insert(QueryResult::from(m));
        }
        proof {
            assert(kept.take(list.len() as int) =~= kept);
            lemma_ranked(kept);
            if self.graph().aligned() && self.aligned() {
                assert forall|i: int, p: usize|
                    0 <= i < results@.len() && #[trigger] results@[i].positions.contains(
                        p,
                    ) implies is_boundary(results@[i].path, p) by {
                    let k = choose|k: int|
                        0 <= k < kept.len() && result_of(kept[k]) == results@[i];
                    assert(entry_aligned(kept[k]));
                    let at = choose|at: int|
                        0 <= at < kept[k].positions.len() && kept[k].positions[at] == p;
                    assert(is_boundary(kept[k].key, kept[k].positions[at]));
                }
            }
        }
        results
    }

    /// The characters typed so far.
    pub fn query_string(&self) -> (text: String)
        requires
            self@.len() >= 1,
        ensures
            text@ == typed(self@),
    {
        let mut text = String::new();
        let mut i: usize = 1;
        while i < self.steps.len()
            invariant
                1 <= i <= self.steps@.len(),
                text@ == typed(self@).take(i - 1),
            decreases self.steps@.len() - i,
        {
            push_char(&mut text, self.steps[i].character);
            assert(typed(self@).take(i as int) =~= typed(self@).take(i - 1).push(
                self@[i as int].character,
            ));
            i += 1;
        }
        assert(typed(self@).take(self@.len() - 1) =~= typed(self@));
        text
    }
}

} // verus!

//! Ranked results of a query.

use std::collections::{HashSet, VecDeque};
use vstd::prelude::*;
use crate::min_set::{distinct_keys, Entry, Ranked};
use crate::query::Match;
use crate::terminal::{bold, bold_sequence, reset, reset_sequence};
use crate::text::{
    byte_length, lemma_byte_length_prefix, lemma_byte_length_push, push_char, width,
};
use vstd::string::StringExecFns;

verus! {

broadcast use vstd::std_specs::hash::group_hash_axioms;

/// A path that the query matches.
pub struct QueryResult {
    pub path: String,
    /// The cost of the match: lower is better.
    pub score: usize,
    /// The byte offsets in `path` that the query matched.
    pub positions: HashSet<usize>,
}

/// The mathematical value of a [`QueryResult`].
pub ghost struct ResultView {
    pub path: Seq<char>,
    pub score: nat,
    pub positions: Set<usize>,
}

impl View for QueryResult {
    type V = ResultView;

    open spec fn view(&self) -> ResultView {
        ResultView { path: self.path@, score: self.score as nat, positions: self.positions@ }
    }
}

/// The values of a sequence of results.
pub open spec fn result_views(items: Seq<QueryResult>) -> Seq<ResultView> {
    Seq::new(items.len(), |i: int| items[i]@)
}

/// The result that a completed traversal becomes.
pub open spec fn result_of(e: Entry) -> ResultView {
    ResultView { path: e.key, score: e.score, positions: e.positions.to_set() }
}

/// Whether the byte offset of the `k`-th character of `path` is among
/// `positions`.
pub open spec fn is_marked(path: Seq<char>, positions: Set<usize>, k: int) -> bool {
    byte_length(path.take(k)) <= usize::MAX && positions.contains(
        byte_length(path.take(k)) as usize,
    )
}

/// The first `k` characters of `path`, each one whose byte offset is among
/// `positions` set between `before` and `after`.
pub open spec fn highlighted(
    path: Seq<char>,
    positions: Set<usize>,
    before: Seq<char>,
    after: Seq<char>,
    k: int,
) -> Seq<char>
    decreases k,
{
    if k <= 0 {
        Seq::empty()
    } else if is_marked(path, positions, k - 1) {
        highlighted(path, positions, before, after, k - 1) + before + seq![path[k - 1]] + after
    } else {
        highlighted(path, positions, before, after, k - 1).push(path[k - 1])
    }
}

/// The characters of `path`, each one whose byte offset is among
/// `positions` set between `before` and `after`.
pub open spec fn marked(
    path: Seq<char>,
    positions: Set<usize>,
    before: Seq<char>,
    after: Seq<char>,
) -> Seq<char> {
    highlighted(path, positions, before, after, path.len() as int)
}

/// The scores never decrease.
pub open spec fn ascending(items: Seq<ResultView>) -> bool {
    forall|i: int, j: int| 0 <= i <= j < items.len() ==> items[i].score <= items[j].score
}

/// No path occurs twice.
pub open spec fn distinct_paths(items: Seq<ResultView>) -> bool {
    forall|i: int, j: int| 0 <= i < j < items.len() ==> items[i].path != items[j].path
}

/// Where a result with `score` goes: before the first result that costs
/// strictly more.
pub open spec fn insertion_point(items: Seq<ResultView>, score: nat) -> int
    decreases items.len(),
{
    if items.len() == 0 || items[0].score > score {
        0
    } else {
        1 + insertion_point(items.drop_first(), score)
    }
}

/// `items` with `r` put in its place.
pub open spec fn ranked_insert(items: Seq<ResultView>, r: ResultView) -> Seq<ResultView> {
    items.insert(insertion_point(items, r.score), r)
}

/// The results of the given traversals, each put in its place in turn.
pub open spec fn ranked(found: Seq<Entry>) -> Seq<ResultView>
    decreases found.len(),
{
    if found.len() == 0 {
        Seq::empty()
    } else {
        ranked_insert(ranked(found.drop_last()), result_of(found.last()))
    }
}

/// The insertion point lies after every result that costs no more than
/// `score`, as far as the first that costs more.
pub proof fn lemma_insertion_point(items: Seq<ResultView>, score: nat)
    ensures
        0 <= insertion_point(items, score) <= items.len(),
        forall|j: int| 0 <= j < insertion_point(items, score) ==> items[j].score <= score,
        insertion_point(items, score) < items.len() ==> items[insertion_point(items, score)].score
            > score,
    decreases items.len(),
{
    if items.len() == 0 || items[0].score > score {
    } else {
        let rest = items.drop_first();
        lemma_insertion_point(rest, score);
        let p = insertion_point(rest, score);
        assert forall|j: int| 0 <= j < p + 1 implies items[j].score <= score by {
            if j > 0 {
                assert(rest[j - 1].score <= score);
            }
        }
        if p + 1 < items.len() {
            assert(rest[p] == items[p + 1]);
        }
    }
}

/// The first position whose result costs more than `score` is the
/// insertion point.
proof fn lemma_insertion_point_found(items: Seq<ResultView>, score: nat, k: int)
    requires
        0 <= k <= items.len(),
        forall|j: int| 0 <= j < k ==> items[j].score <= score,
        k < items.len() ==> items[k].score > score,
    ensures
        insertion_point(items, score) == k,
{
    lemma_insertion_point(items, score);
    let p = insertion_point(items, score);
    if p < k {
        assert(items[p].score <= score);
    } else if p > k {
        assert(items[k].score <= score);
    }
}

/// Putting a result in its place keeps the scores ascending.
pub proof fn lemma_ranked_insert_ascending(items: Seq<ResultView>, r: ResultView)
    requires
        ascending(items),
    ensures
        ascending(ranked_insert(items, r)),
{
    lemma_insertion_point(items, r.score);
    let p = insertion_point(items, r.score);
    let after = ranked_insert(items, r);
    assert forall|i: int, j: int| 0 <= i <= j < after.len() implies after[i].score
        <= after[j].score by {
        if i < p && j > p {
            assert(items[i].score <= r.score);
            assert(items[p].score <= items[j - 1].score);
        } else if i < p && j == p {
        } else if i == p && j > p {
            assert(items[p].score <= items[j - 1].score);
        } else if i > p {
            assert(items[i - 1].score <= items[j - 1].score);
        } else if j < p {
            assert(items[i].score <= items[j].score);
        }
    }
}

/// Ranking orders the results by ascending score, keeps one result for each
/// traversal and no other, and keeps their paths distinct where the keys
/// were.
pub proof fn lemma_ranked(found: Seq<Entry>)
    ensures
        ascending(ranked(found)),
        ranked(found).len() == found.len(),
        forall|i: int|
            0 <= i < ranked(found).len() ==> exists|k: int|
                0 <= k < found.len() && result_of(found[k]) == #[trigger] ranked(found)[i],
        distinct_keys(found) ==> distinct_paths(ranked(found)),
    decreases found.len(),
{
    if found.len() > 0 {
        let head = found.drop_last();
        let r = result_of(found.last());
        lemma_ranked(head);
        lemma_ranked_insert_ascending(ranked(head), r);
        lemma_insertion_point(ranked(head), r.score);
        let p = insertion_point(ranked(head), r.score);
        let after = ranked(found);
        assert forall|i: int| 0 <= i < after.len() implies exists|k: int|
            0 <= k < found.len() && result_of(found[k]) == #[trigger] after[i] by {
            if i == p {
                assert(result_of(found[found.len() - 1]) == after[i]);
            } else {
                let before = if i < p {
                    i
                } else {
                    i - 1
                };
                assert(after[i] == ranked(head)[before]);
                let k = choose|k: int|
                    0 <= k < head.len() && result_of(head[k]) == ranked(head)[before];
                assert(result_of(found[k]) == after[i]);
            }
        }
        if distinct_keys(found) {
            assert(distinct_keys(head)) by {
                assert forall|i: int, j: int| 0 <= i < j < head.len() implies head[i].key
                    != head[j].key by {
                    assert(found[i].key != found[j].key);
                }
            }
            assert forall|i: int, j: int| 0 <= i < j < after.len() implies after[i].path
                != after[j].path by {
                let a = if i < p {
                    i
                } else {
                    i - 1
                };
                let b = if j < p {
                    j
                } else {
                    j - 1
                };
                if i == p {
                    let k = choose|k: int|
                        0 <= k < head.len() && result_of(head[k]) == ranked(head)[b];
                    assert(found[k].key != found[found.len() - 1].key);
                } else if j == p {
                    let k = choose|k: int|
                        0 <= k < head.len() && result_of(head[k]) == ranked(head)[a];
                    assert(found[k].key != found[found.len() - 1].key);
                } else {
                    assert(ranked(head)[a].path != ranked(head)[b].path);
                }
            }
        }
    }
}

impl QueryResult {
    /// The result that a match becomes: its positions as a set.
    pub fn from(m: Match) -> (result: QueryResult)
        ensures
            result@ == result_of(m.entry()),
    {
        let mut positions: HashSet<usize> = HashSet::new();
        let mut i: usize = 0;
        while i < m.positions.len()
            invariant
                i <= m.positions@.len(),
                positions@ == m.positions@.take(i as int).to_set(),
            decreases m.positions@.len() - i,
        {
            positions.insert(m.positions[i]);
            proof {
                let seen = m.positions@.take(i as int);
                let next = m.positions@.take(i + 1);
                assert(next =~= seen.push(m.positions@[i as int]));
                assert(next.to_set() =~= seen.to_set().insert(m.positions@[i as int])) by {
                    assert forall|x: usize| next.to_set().contains(x) implies seen.to_set().insert(
                        m.positions@[i as int],
                    ).contains(x) by {
                        let k = choose|k: int| 0 <= k < next.len() && next[k] == x;
                        if k < i {
                            assert(seen[k] == x);
                        }
                    }
                    assert forall|x: usize|
                        seen.to_set().insert(m.positions@[i as int]).contains(
                            x,
                        ) implies next.to_set().contains(x) by {
                        if seen.to_set().contains(x) {
                            let k = choose|k: int| 0 <= k < seen.len() && seen[k] == x;
                            assert(next[k] == x);
                        } else {
                            assert(next[i as int] == x);
                        }
                    }
                }
            }
            i += 1;
        }
        assert(m.positions@.take(m.positions@.len() as int) =~= m.positions@);
        QueryResult { path: m.path, score: m.score, positions }
    }

    /// The path with every matched character set between `before` and
    /// `after`.
    pub fn highlight(&self, before: &str, after: &str) -> (text: String)
        ensures
            text@ == marked(self@.path, self@.positions, before@, after@),
    {
        let path = self.path.as_str();
        let bytes = path.as_bytes();
        let ghost s = path@;
        assert(byte_length(s) == vstd::slice::spec_slice_len(bytes));
        let ghost marks = self.positions@;
        let mut text = String::new();
        let mut offset: usize = 0;
        proof {
            assert(s.take(0) =~= Seq::<char>::empty());
            lemma_byte_length_prefix(s, 0);
        }
        for c in it: path.chars()
            invariant
                it.seq() == s,
                marks == self.positions@,
                byte_length(s) <= usize::MAX,
                offset == byte_length(s.take(it.index())),
                text@ == highlighted(s, marks, before@, after@, it.index()),
        {
            let ghost k = it.index();
            let ghost so_far = text@;
            proof {
                assert(s.take(k + 1) =~= s.take(k).push(c));
                lemma_byte_length_push(s.take(k), c);
                lemma_byte_length_prefix(s, k + 1);
            }
            if self.positions.contains(&offset) {
                text.append(before);
                push_char(&mut text, c);
                text.append(after);
                assert(text@ =~= so_far + before@ + seq![c] + after@);
            } else {
                push_char(&mut text, c);
            }
            offset += width(c);
        }
        text
    }

    /// The path as a terminal shows it: the matched characters in bold.
    pub fn to_string(&self) -> (text: String)
        ensures
            text@ == marked(self@.path, self@.positions, bold_sequence(), reset_sequence()),
    {
        let before = bold();
        let after = reset();
        self.highlight(before.as_str(), after.as_str())
    }
}

/// Results that come out by ascending score.
pub struct QueryResults {
    heap: VecDeque<QueryResult>,
}

impl View for QueryResults {
    type V = Seq<ResultView>;

    closed spec fn view(&self) -> Seq<ResultView> {
        result_views(self.heap@)
    }
}

impl QueryResults {
    /// The results that are left stand in ascending order of score.
    pub open spec fn wf(&self) -> bool {
        ascending(self@)
    }

    /// No results.
    pub fn new() -> (results: QueryResults)
        ensures
            results@ == Seq::<ResultView>::empty(),
            results.wf(),
    {
        let results = QueryResults { heap: VecDeque::new() };
        assert(results@ =~= Seq::<ResultView>::empty());
        results
    }

    /// Puts `query_result` in its place: behind the results that cost no
    /// more, before those that cost more.
    pub fn insert(&mut self, query_result: QueryResult)
        requires
            old(self).wf(),
        ensures
            final(self).wf(),
            final(self)@ == ranked_insert(old(self)@, query_result@),
    {
        let ghost before = self@;
        let ghost r = query_result@;
        let mut k: usize = 0;
        while k < self.heap.len() && self.heap[k].score <= query_result.score
            invariant
                k <= self.heap@.len(),
                self@ == before,
                before == old(self)@,
                forall|j: int| 0 <= j < k ==> before[j].score <= query_result.score,
            decreases self.heap@.len() - k,
        {
            assert(before[k as int] == self.heap@[k as int]@);
            k += 1;
        }
        proof {
            if k < self.heap@.len() {
                assert(before[k as int] == self.heap@[k as int]@);
            }
            lemma_insertion_point_found(before, r.score, k as int);
            lemma_ranked_insert_ascending(before, r);
        }
        self.heap.insert(k, query_result);
        assert(self@ =~= before.insert(k as int, r));
    }

    /// Takes out the best result that is left.
    pub fn next(&mut self) -> (best: Option<QueryResult>)
        requires
            old(self).wf(),
        ensures
            final(self).wf(),
            match best {
                Some(result) => old(self)@.len() > 0 && result@ == old(self)@[0] && final(self)@
                    == old(self)@.drop_first(),
                None => old(self)@.len() == 0 && final(self)@ == old(self)@,
            },
    {
        let ghost before = self@;
        let best = self.heap.pop_front();
        assert(best is Some ==> self@ =~= before.drop_first());
        best
    }

    /// The number of results that are left.
    pub fn len(&self) -> (n: usize)
        ensures
            n == self@.len(),
    {
        self.heap.len()
    }

    /// All results that are left, best first.
    pub fn collect(self) -> (items: Vec<QueryResult>)
        ensures
            result_views(items@) == self@,
    {
        let ghost all = self@;
        let mut heap = self.heap;
        let mut items: Vec<QueryResult> = Vec::new();
        assert(result_views(items@) =~= all.take(0));
        while heap.len() > 0
            invariant
                items@.len() <= all.len(),
                result_views(items@) == all.take(items@.len() as int),
                result_views(heap@) == all.skip(items@.len() as int),
            decreases heap@.len(),
        {
            let ghost rest = heap@;
            let ghost done = items@;
            match heap.pop_front() {
                Some(result) => {
                    items.push(result);
                    proof {
                        let n = done.len() as int;
                        assert(result_views(rest).len() == rest.len());
                        assert(n < all.len());
                        assert(result_views(rest)[0] == all.skip(n)[0]);
                        assert(result@ == all[n]);
                        assert(result_views(done) == all.take(n));
                        assert forall|i: int| 0 <= i < n + 1 implies result_views(items@)[i]
                            == all.take(n + 1)[i] by {
                            if i < n {
                                assert(result_views(done)[i] == all.take(n)[i]);
                            }
                        }
                        assert(result_views(items@) =~= all.take(n + 1));
                        assert forall|i: int| 0 <= i < heap@.len() implies result_views(heap@)[i]
                            == all.skip(n + 1)[i] by {
                            assert(result_views(rest)[i + 1] == all.skip(n)[i + 1]);
                        }
                        assert(result_views(heap@) =~= all.skip(n + 1));
                    }
                },
                None => {},
            }
        }
        assert(all.take(all.len() as int) =~= all);
        items
    }
}

} // verus!

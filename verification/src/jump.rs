//! Scored jumps between the locations of one path.

use vstd::prelude::*;
use crate::location::{
    lemma_locations_bounded, locations_of, Location, LocationLabel, LocationView, Locations,
};
use crate::text::{char_at, char_is_uppercase, char_lowercase, is_uppercase, path_fits, to_lowercase};

verus! {

/// A step that a typed character may take: from one location to a later one.
pub struct Jump {
    pub source: Location,
    pub destination: Location,
    /// The cost of the step: lower is better.
    pub score: usize,
}

/// The mathematical value of a [`Jump`].
pub ghost struct JumpView {
    pub source: LocationView,
    pub destination: LocationView,
    pub score: nat,
}

impl View for Jump {
    type V = JumpView;

    open spec fn view(&self) -> JumpView {
        JumpView { source: self.source@, destination: self.destination@, score: self.score as nat }
    }
}

/// The values of a sequence of jumps.
pub open spec fn jump_views(items: Seq<Jump>) -> Seq<JumpView> {
    Seq::new(items.len(), |i: int| items[i]@)
}

/// The cost of going from `source` to `destination`. Reaching the end of
/// the path is free; word beginnings are cheap, more so from another word
/// beginning; inside a word only the very next character is cheap.
pub open spec fn score_of(source: LocationView, destination: LocationView) -> nat {
    if destination.label == LocationLabel::PathEnd {
        0
    } else if destination.label == LocationLabel::WordBegin {
        if source.label == LocationLabel::WordBegin {
            destination.height + 2
        } else {
            destination.height + 3
        }
    } else if source.label == LocationLabel::PathBegin {
        destination.height + 5
    } else if destination.index == source.index + 1 {
        destination.height + 1
    } else {
        destination.height + 5
    }
}

/// Whether a destination can also be reached by typing a lowercase form of
/// its character. The end of a path cannot: its marker is no character of
/// the path.
pub open spec fn has_alternates(destination: LocationView) -> bool {
    destination.label != LocationLabel::PathEnd && char_is_uppercase(destination.character)
}

/// The jump that reaches `destination` through the lowercase form `lower`,
/// one point cheaper than the exact character.
pub open spec fn alternate(source: LocationView, destination: LocationView, lower: char) -> JumpView {
    JumpView {
        source,
        destination: LocationView { character: lower, ..destination },
        score: (score_of(source, destination) - 1) as nat,
    }
}

/// The lowercase alternates of one pair, last lowercase form first.
pub open spec fn alternates(source: LocationView, destination: LocationView) -> Seq<JumpView> {
    if has_alternates(destination) {
        let lower = char_lowercase(destination.character);
        Seq::new(lower.len(), |i: int| alternate(source, destination, lower[lower.len() - 1 - i]))
    } else {
        Seq::empty()
    }
}

/// The exact jump of one pair.
pub open spec fn exact_jump(source: LocationView, destination: LocationView) -> JumpView {
    JumpView { source, destination, score: score_of(source, destination) }
}

/// All jumps of one pair: the exact one, then its alternates.
pub open spec fn pair_jumps(source: LocationView, destination: LocationView) -> Seq<JumpView> {
    seq![exact_jump(source, destination)] + alternates(source, destination)
}

/// The jumps from location `i` to the locations after it and before `j`.
pub open spec fn row_jumps(locations: Seq<LocationView>, i: int, j: int) -> Seq<JumpView>
    decreases j - i,
{
    if j <= i + 1 {
        Seq::empty()
    } else {
        row_jumps(locations, i, j - 1) + pair_jumps(locations[i], locations[j - 1])
    }
}

/// The jumps whose source comes before location `i`.
pub open spec fn jumps_before(locations: Seq<LocationView>, i: int) -> Seq<JumpView>
    decreases i,
{
    if i <= 0 {
        Seq::empty()
    } else {
        jumps_before(locations, i - 1) + row_jumps(locations, i - 1, locations.len() as int)
    }
}

/// Every jump of the path `s`: one for each ordered pair of locations, by
/// source and then by destination, each followed by its alternates.
pub open spec fn jumps_of(s: Seq<char>) -> Seq<JumpView> {
    jumps_before(locations_of(s), (s.len() + 2) as int)
}

/// The number of alternates among the jumps from location `i` to the
/// locations after it and before `j`.
pub open spec fn row_alternates(locations: Seq<LocationView>, i: int, j: int) -> nat
    decreases j - i,
{
    if j <= i + 1 {
        0
    } else {
        row_alternates(locations, i, j - 1) + alternates(locations[i], locations[j - 1]).len()
    }
}

/// The number of alternates among the jumps whose source comes before
/// location `i`.
pub open spec fn alternates_before(locations: Seq<LocationView>, i: int) -> nat
    decreases i,
{
    if i <= 0 {
        0
    } else {
        alternates_before(locations, i - 1) + row_alternates(
            locations,
            i - 1,
            locations.len() as int,
        )
    }
}

/// The number of alternates among the jumps of `s`: for every pair whose
/// destination is an uppercase character, one per lowercase form.
pub open spec fn alternate_count(s: Seq<char>) -> nat {
    alternates_before(locations_of(s), (s.len() + 2) as int)
}

/// A row holds one jump for each later location, and its alternates.
proof fn lemma_row_count(locations: Seq<LocationView>, i: int, j: int)
    requires
        0 <= i < j <= locations.len(),
    ensures
        row_jumps(locations, i, j).len() == j - i - 1 + row_alternates(locations, i, j),
    decreases j - i,
{
    if j > i + 1 {
        lemma_row_count(locations, i, j - 1);
    }
}

/// The rows before location `i` hold `i (2n - i - 1) / 2` jumps besides
/// their alternates, where `n` is the number of locations.
proof fn lemma_count_before(locations: Seq<LocationView>, i: int)
    requires
        0 <= i <= locations.len(),
    ensures
        2 * (jumps_before(locations, i).len() - alternates_before(locations, i)) == i * (2
            * locations.len() - i - 1),
    decreases i,
{
    let n = locations.len() as int;
    if i > 0 {
        lemma_count_before(locations, i - 1);
        lemma_row_count(locations, i - 1, n);
        let head = jumps_before(locations, i - 1).len() - alternates_before(locations, i - 1);
        let row = row_jumps(locations, i - 1, n).len() - row_alternates(locations, i - 1, n);
        assert(row == n - i);
        assert(jumps_before(locations, i).len() - alternates_before(locations, i) == head + row);
        assert(2 * head == (i - 1) * (2 * n - (i - 1) - 1));
        assert(2 * (head + row) == i * (2 * n - i - 1)) by (nonlinear_arith)
            requires
                2 * head == (i - 1) * (2 * n - (i - 1) - 1),
                row == n - i,
        ;
    } else {
        assert(i * (2 * n - i - 1) == 0) by (nonlinear_arith)
            requires
                i == 0,
        ;
    }
}

/// A row has at least the alternates of each of its pairs.
proof fn lemma_row_alternates_hold(locations: Seq<LocationView>, i: int, j: int, b: int)
    requires
        0 <= i < b < j <= locations.len(),
    ensures
        row_alternates(locations, i, j) >= alternates(locations[i], locations[b]).len(),
    decreases j - i,
{
    if b < j - 1 {
        lemma_row_alternates_hold(locations, i, j - 1, b);
    }
}

/// The jumps have at least the alternates of the first row.
proof fn lemma_alternates_before_grow(locations: Seq<LocationView>, i: int)
    requires
        1 <= i,
    ensures
        alternates_before(locations, i) >= row_alternates(locations, 0, locations.len() as int),
    decreases i,
{
    if i > 1 {
        lemma_alternates_before_grow(locations, i - 1);
    } else {
        assert(alternates_before(locations, 0) == 0);
    }
}

/// A path of `n` characters has one jump for each of the `(n + 2)(n + 1) / 2`
/// ordered pairs of its locations, and its alternates besides.
pub proof fn lemma_jump_count(s: Seq<char>)
    ensures
        jumps_of(s).len() >= alternate_count(s),
        2 * (jumps_of(s).len() - alternate_count(s)) == (s.len() + 2) * (s.len() + 1),
{
    let locations = locations_of(s);
    let n = locations.len() as int;
    lemma_count_before(locations, n);
    assert(n * (2 * n - n - 1) == (s.len() + 2) * (s.len() + 1)) by (nonlinear_arith)
        requires
            n == s.len() + 2,
    ;
    assert(n * (2 * n - n - 1) >= 0) by (nonlinear_arith)
        requires
            n >= 2,
    ;
}

/// A path without uppercase characters has no alternates.
pub proof fn lemma_no_uppercase_no_alternates(s: Seq<char>)
    ensures
        (forall|k: int| 0 <= k < s.len() ==> !char_is_uppercase(s[k])) ==> alternate_count(s) == 0,
{
    if forall|k: int| 0 <= k < s.len() ==> !char_is_uppercase(s[k]) {
        let locations = locations_of(s);
        let n = locations.len() as int;
        assert forall|b: int| 1 <= b < n implies !has_alternates(#[trigger] locations[b]) by {
            if 1 <= b <= s.len() {
                assert(locations[b].character == s[b - 1]);
            }
        }
        lemma_no_alternates_before(locations, n);
    }
}

/// A row without uppercase destinations has no alternates.
proof fn lemma_no_alternates_row(locations: Seq<LocationView>, i: int, j: int)
    requires
        0 <= i < j <= locations.len(),
        forall|b: int| 1 <= b < locations.len() ==> !has_alternates(#[trigger] locations[b]),
    ensures
        row_alternates(locations, i, j) == 0,
    decreases j - i,
{
    if j > i + 1 {
        lemma_no_alternates_row(locations, i, j - 1);
    }
}

/// Rows without uppercase destinations have no alternates.
proof fn lemma_no_alternates_before(locations: Seq<LocationView>, i: int)
    requires
        0 <= i <= locations.len(),
        forall|b: int| 1 <= b < locations.len() ==> !has_alternates(#[trigger] locations[b]),
    ensures
        alternates_before(locations, i) == 0,
    decreases i,
{
    if i > 0 {
        lemma_no_alternates_before(locations, i - 1);
        lemma_no_alternates_row(locations, i - 1, locations.len() as int);
    }
}

/// An uppercase character adds at least as many jumps as it has lowercase
/// forms.
pub proof fn lemma_uppercase_adds_jumps(s: Seq<char>, k: int)
    requires
        0 <= k < s.len(),
    ensures
        char_is_uppercase(s[k]) ==> alternate_count(s) >= char_lowercase(s[k]).len(),
{
    if char_is_uppercase(s[k]) {
        let locations = locations_of(s);
        let n = locations.len() as int;
        lemma_alternates_before_grow(locations, n);
        lemma_row_alternates_hold(locations, 0, n, k + 1);
        assert(has_alternates(locations[k + 1]));
    }
}

/// Reaching the end of a path is free, whatever the source.
pub proof fn lemma_path_end_is_free(source: LocationView, destination: LocationView)
    requires
        destination.label == LocationLabel::PathEnd,
    ensures
        score_of(source, destination) == 0,
{
}

/// Of two jumps between locations with the same labels and the same height,
/// the one to the very next byte never costs more than the other, and costs
/// strictly less inside a word: where the destination begins no word and
/// the source is not the start of the path.
pub proof fn lemma_contiguous_is_cheaper(
    source: LocationView,
    next: LocationView,
    other: LocationView,
    far: LocationView,
)
    requires
        source.label == other.label,
        next.label == far.label,
        next.height == far.height,
        next.index == source.index + 1,
        far.index != other.index + 1,
    ensures
        score_of(source, next) <= score_of(other, far),
        next.label == LocationLabel::Simple && source.label != LocationLabel::PathBegin
            ==> score_of(source, next) < score_of(other, far),
{
}

/// Pushing a jump pushes its value.
proof fn lemma_jump_views_push(items: Seq<Jump>, jump: Jump)
    ensures
        jump_views(items.push(jump)) == jump_views(items).push(jump@),
{
    assert(jump_views(items.push(jump)) =~= jump_views(items).push(jump@));
}

/// The cost of going from `source` to `destination`.
pub fn calculate_score(source: &Location, destination: &Location) -> (score: usize)
    requires
        destination.label != LocationLabel::PathEnd ==> destination.height + 5 <= usize::MAX,
    ensures
        score == score_of(source@, destination@),
{
    let score = destination.height;
    match (source.label, destination.label) {
        (_, LocationLabel::PathEnd) => 0,
        (LocationLabel::WordBegin, LocationLabel::WordBegin) => score + 2,
        (_, LocationLabel::WordBegin) => score + 3,
        (LocationLabel::PathBegin, _) => score + 5,
        _ => {
            if source.index < destination.index && destination.index - 1 == source.index {
                score + 1
            } else {
                score + 5
            }
        },
    }
}

/// Appends the jumps of one pair to `items`.
fn push_pair(items: &mut Vec<Jump>, source: &Location, destination: &Location)
    requires
        destination.label != LocationLabel::PathEnd ==> destination.height + 5 <= usize::MAX,
        has_alternates(destination@) ==> destination.label == LocationLabel::WordBegin,
    ensures
        jump_views(final(items)@) == jump_views(old(items)@) + pair_jumps(source@, destination@),
        has_alternates(destination@) ==> char_lowercase(destination.character).len() >= 1,
{
    let ghost before = jump_views(items@);
    let ghost extra = alternates(source@, destination@);
    let score = calculate_score(source, destination);
    proof {
        lemma_jump_views_push(items@, Jump { source: *source, destination: *destination, score });
    }
    items.push(Jump { source: source.clone(), destination: destination.clone(), score });
    assert(jump_views(items@) =~= before + seq![exact_jump(source@, destination@)]);
    let uppercase = match destination.label {
        LocationLabel::PathEnd => false,
        _ => is_uppercase(destination.character),
    };
    if uppercase {
        let lower = to_lowercase(destination.character);
        let mut k: usize = lower.len();
        while k > 0
            invariant
                k <= lower.len(),
                lower@ == char_lowercase(destination.character),
                has_alternates(destination@),
                extra == alternates(source@, destination@),
                score == score_of(source@, destination@),
                score >= 2,
                jump_views(items@) == before + seq![exact_jump(source@, destination@)]
                    + extra.take(lower.len() - k),
            decreases k,
        {
            k -= 1;
            let mut through = destination.clone();
            through.character = char_at(&lower, k);
            let jump = Jump { source: source.clone(), destination: through, score: score - 1 };
            proof {
                lemma_jump_views_push(items@, jump);
                assert(jump@ == extra[lower.len() - 1 - k]);
                assert(extra.take(lower.len() - k) =~= extra.take(lower.len() - 1 - k).push(
                    jump@,
                ));
            }
            items.push(jump);
            assert(jump_views(items@) =~= before + seq![exact_jump(source@, destination@)]
                + extra.take(lower.len() - k));
        }
        assert(extra.take(lower.len() as int) =~= extra);
    } else {
        assert(extra =~= Seq::empty());
        assert(before + seq![exact_jump(source@, destination@)] + extra =~= before
            + seq![exact_jump(source@, destination@)]);
    }
    assert(before + seq![exact_jump(source@, destination@)] + extra =~= before + pair_jumps(
        source@,
        destination@,
    ));
}

/// The scored jumps of one path.
pub struct Jumps {
    items: Vec<Jump>,
}

impl View for Jumps {
    type V = Seq<JumpView>;

    closed spec fn view(&self) -> Seq<JumpView> {
        jump_views(self.items@)
    }
}

impl Jumps {
    /// Generates every jump of `path`.
    pub fn new(path: &str) -> (jumps: Jumps)
        requires
            path_fits(path@),
        ensures
            jumps@ == jumps_of(path@),
            forall|k: int|
                0 <= k < path@.len() && char_is_uppercase(#[trigger] path@[k]) ==> 2
                    * jumps@.len() > (path@.len() + 2) * (path@.len() + 1),
    {
        let locations = Locations::new(path);
        let count = locations.len();
        let ghost s = path@;
        let ghost views = locations@;
        let mut items: Vec<Jump> = Vec::new();
        let mut i: usize = 0;
        assert(jump_views(items@) =~= jumps_before(views, 0));
        while i < count
            invariant
                i <= count,
                path_fits(s),
                count == s.len() + 2,
                views == locations_of(s),
                locations@ == views,
                jump_views(items@) == jumps_before(views, i as int),
                i >= 1 ==> forall|b: int|
                    1 <= b < count && has_alternates(#[trigger] views[b]) ==> char_lowercase(
                        views[b].character,
                    ).len() >= 1,
            decreases count - i,
        {
            let ghost done = jump_views(items@);
            let mut j: usize = i + 1;
            assert(done + row_jumps(views, i as int, j as int) =~= done);
            while j < count
                invariant
                    i < count,
                    i + 1 <= j <= count,
                    path_fits(s),
                    count == s.len() + 2,
                    views == locations_of(s),
                    locations@ == views,
                    jump_views(items@) == done + row_jumps(views, i as int, j as int),
                    forall|b: int|
                        1 <= b < (if i >= 1 {
                            count
                        } else {
                            j
                        }) && has_alternates(#[trigger] views[b]) ==> char_lowercase(
                            views[b].character,
                        ).len() >= 1,
                decreases count - j,
            {
                proof {
                    lemma_locations_bounded(s, j as int);
                }
                let ghost row = row_jumps(views, i as int, j as int);
                push_pair(&mut items, locations.get(i), locations.get(j));
                assert(done + row + pair_jumps(views[i as int], views[j as int]) =~= done + (row
                    + pair_jumps(views[i as int], views[j as int])));
                j += 1;
            }
            i += 1;
        }
        proof {
            lemma_jump_count(s);
            assert forall|k: int|
                0 <= k < s.len() && char_is_uppercase(#[trigger] s[k]) implies 2 * items@.len() > (
                s.len() + 2) * (s.len() + 1) by {
                assert(has_alternates(views[k + 1]));
                lemma_uppercase_adds_jumps(s, k);
            }
        }
        Jumps { items }
    }

    /// The number of jumps.
    pub fn count(&self) -> (n: usize)
        ensures
            n == self@.len(),
    {
        self.items.len()
    }

    /// All jumps, in the order in which they were generated.
    pub fn collect(self) -> (items: Vec<Jump>)
        ensures
            jump_views(items@) == self@,
    {
        self.items
    }
}

} // verus!

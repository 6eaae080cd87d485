//! Labelled locations: the character slots of a path and its two boundaries.

use vstd::prelude::*;
use crate::text::{
    byte_length, char_at, char_is_uppercase, characters, is_uppercase, lemma_byte_length_grows,
    lemma_byte_length_prefix, lemma_byte_length_push, path_fits, push_char, width,
};

verus! {

/// What kind of slot a location is.
#[derive(Debug, Clone, Copy, PartialEq, Eq, Structural)]
pub enum LocationLabel {
    /// A character inside a word.
    Simple,
    /// A character that starts a word.
    WordBegin,
    /// The boundary before the first character.
    PathBegin,
    /// The boundary after the last character.
    PathEnd,
}

/// One slot of a path.
pub struct Location {
    /// Byte offset of the slot in the path.
    pub index: usize,
    /// Number of path separators that follow the slot.
    pub height: usize,
    /// The character in the slot, `^` or `$` for a boundary.
    pub character: char,
    /// The part of the path before the slot.
    pub prefix: String,
    pub label: LocationLabel,
}

/// The mathematical value of a [`Location`].
pub ghost struct LocationView {
    pub index: nat,
    pub height: nat,
    pub character: char,
    pub prefix: Seq<char>,
    pub label: LocationLabel,
}

impl View for Location {
    type V = LocationView;

    open spec fn view(&self) -> LocationView {
        LocationView {
            index: self.index as nat,
            height: self.height as nat,
            character: self.character,
            prefix: self.prefix@,
            label: self.label,
        }
    }
}

impl Clone for Location {
    fn clone(&self) -> (copy: Location)
        ensures
            copy@ == self@,
    {
        Location {
            index: self.index,
            height: self.height,
            character: self.character,
            prefix: self.prefix.clone(),
            label: self.label,
        }
    }
}

/// The number of `/` in `s`.
pub open spec fn separators(s: Seq<char>) -> nat
    decreases s.len(),
{
    if s.len() == 0 {
        0
    } else {
        separators(s.drop_first()) + if s[0] == '/' {
            1nat
        } else {
            0nat
        }
    }
}

/// Whether `c` ends a word, so that the character after it begins one.
pub open spec fn is_word_break(c: char) -> bool {
    c == '_' || c == '-' || c == '/'
}

/// The label of the `k`-th character of `s`: a word begins at the first
/// character, after `_`, `-` or `/`, and at every uppercase character.
pub open spec fn label_at(s: Seq<char>, k: int) -> LocationLabel {
    if k == 0 || char_is_uppercase(s[k]) || is_word_break(s[k - 1]) {
        LocationLabel::WordBegin
    } else {
        LocationLabel::Simple
    }
}

/// The boundary before the first character.
pub open spec fn begin_location() -> LocationView {
    LocationView {
        index: 0,
        height: 0,
        character: '^',
        prefix: Seq::empty(),
        label: LocationLabel::PathBegin,
    }
}

/// The boundary after the last character of `s`.
pub open spec fn end_location(s: Seq<char>) -> LocationView {
    LocationView {
        index: byte_length(s),
        height: 0,
        character: '$',
        prefix: s,
        label: LocationLabel::PathEnd,
    }
}

/// The location of the `k`-th character of `s`. Its height counts the
/// separators strictly after it: a separator itself already stands one level
/// nearer to the file name.
pub open spec fn char_location(s: Seq<char>, k: int) -> LocationView {
    LocationView {
        index: byte_length(s.take(k)),
        height: separators(s.skip(k + 1)),
        character: s[k],
        prefix: s.take(k),
        label: label_at(s, k),
    }
}

/// The `p`-th location of `s`, the two boundaries counted.
pub open spec fn location_at(s: Seq<char>, p: int) -> LocationView {
    if p <= 0 {
        begin_location()
    } else if p > s.len() {
        end_location(s)
    } else {
        char_location(s, p - 1)
    }
}

/// All locations of `s`: the start boundary, one per character, the end
/// boundary.
pub open spec fn locations_of(s: Seq<char>) -> Seq<LocationView> {
    Seq::new(s.len() + 2, |p: int| location_at(s, p))
}

/// The values of a sequence of locations.
pub open spec fn location_views(items: Seq<Location>) -> Seq<LocationView> {
    Seq::new(items.len(), |i: int| items[i]@)
}

/// A string has no more separators than characters.
pub proof fn lemma_separators_bound(s: Seq<char>)
    ensures
        separators(s) <= s.len(),
    decreases s.len(),
{
    if s.len() > 0 {
        lemma_separators_bound(s.drop_first());
    }
}

/// Every location of a path that fits leaves room for the largest score
/// increment, lies within the bytes of the path, and begins a word where
/// its character is uppercase.
pub proof fn lemma_locations_bounded(s: Seq<char>, p: int)
    requires
        path_fits(s),
        0 <= p < s.len() + 2,
    ensures
        location_at(s, p).height + 5 <= usize::MAX,
        location_at(s, p).index <= byte_length(s),
        1 <= p <= s.len() && char_is_uppercase(location_at(s, p).character) ==> location_at(
            s,
            p,
        ).label == LocationLabel::WordBegin,
{
    lemma_byte_length_prefix(s, s.len() as int);
    assert(s.take(s.len() as int) =~= s);
    if 1 <= p <= s.len() {
        lemma_separators_bound(s.skip(p));
        lemma_byte_length_prefix(s, p - 1);
    }
}

/// The locations of a path stand in the order of their byte offsets. Only
/// the start boundary shares its offset, with the location that follows it.
pub proof fn lemma_locations_ordered(s: Seq<char>, p: int, q: int)
    requires
        0 <= p < q < s.len() + 2,
    ensures
        location_at(s, p).index <= location_at(s, q).index,
        p >= 1 || q >= 2 ==> location_at(s, p).index < location_at(s, q).index,
{
    let n = s.len() as int;
    let a = if p == 0 {
        0
    } else {
        p - 1
    };
    let b = if q == n + 1 {
        n
    } else {
        q - 1
    };
    assert(s.take(0) =~= Seq::<char>::empty());
    assert(s.take(n) =~= s);
    lemma_byte_length_prefix(s, 0);
    lemma_byte_length_grows(s, a, b);
}

/// The labelled locations of one path.
pub struct Locations {
    items: Vec<Location>,
}

impl View for Locations {
    type V = Seq<LocationView>;

    closed spec fn view(&self) -> Seq<LocationView> {
        location_views(self.items@)
    }
}

impl Locations {
    /// Labels every slot of `source`.
    pub fn new(source: &str) -> (locations: Locations)
        requires
            path_fits(source@),
        ensures
            locations@ == locations_of(source@),
    {
        let chars = characters(source);
        let n = chars.len();
        let ghost s = source@;
        let mut height: usize = 0;
        let mut i: usize = n;
        while i > 0
            invariant
                chars@ == s,
                n == s.len(),
                i <= n,
                height == separators(s.skip(i as int)),
                height <= n - i,
            decreases i,
        {
            i -= 1;
            proof {
                assert(s.skip(i as int).drop_first() =~= s.skip(i + 1));
            }
            if char_at(&chars, i) == '/' {
                height += 1;
            }
        }
        proof {
            lemma_byte_length_prefix(s, n as int);
            assert(s.take(0) =~= Seq::<char>::empty());
            assert(s.take(n as int) =~= s);
        }
        let mut items: Vec<Location> = Vec::new();
        items.push(Self::path_begin());
        assert(location_views(items@) =~= locations_of(s).take(1));
        let mut prefix = String::new();
        let mut offset: usize = 0;
        let mut previous: Option<char> = None;
        while i < n
            invariant
                chars@ == s,
                n == s.len(),
                i <= n,
                path_fits(s),
                location_views(items@) == locations_of(s).take(i + 1),
                prefix@ == s.take(i as int),
                offset == byte_length(s.take(i as int)),
                height == separators(s.skip(i as int)),
                previous == if i == 0 {
                    None
                } else {
                    Some(s[i - 1])
                },
            decreases n - i,
        {
            let c = char_at(&chars, i);
            proof {
                assert(s.skip(i as int).drop_first() =~= s.skip(i + 1));
                assert(s.take(i + 1) =~= s.take(i as int).push(c));
                lemma_byte_length_push(s.take(i as int), c);
                lemma_byte_length_prefix(s, i + 1);
                lemma_byte_length_prefix(s, n as int);
                assert(s.take(n as int) =~= s);
            }
            if c == '/' {
                height -= 1;
            }
            let word_begin = match previous {
                None => true,
                Some(before) => before == '_' || before == '-' || before == '/' || is_uppercase(c),
            };
            let label = if word_begin {
                LocationLabel::WordBegin
            } else {
                LocationLabel::Simple
            };
            let location = Location {
                index: offset,
                height: height,
                character: c,
                prefix: prefix.clone(),
                label: label,
            };
            assert(location@ == char_location(s, i as int));
            let ghost before = items@;
            items.push(location);
            proof {
                assert(location_views(before).len() == i + 1);
                assert forall|p: int| 0 <= p < i + 2 implies location_views(items@)[p]
                    == locations_of(s).take(i + 2)[p] by {
                    if p < i + 1 {
                        assert(location_views(before)[p] == locations_of(s).take(i + 1)[p]);
                    }
                }
                assert(location_views(items@) =~= locations_of(s).take(i + 2));
            }
            push_char(&mut prefix, c);
            offset += width(c);
            previous = Some(c);
            i += 1;
        }
        let ghost before = items@;
        items.push(Self::path_end(source));
        proof {
            assert(location_views(before).len() == n + 1);
            assert forall|p: int| 0 <= p < n + 2 implies location_views(items@)[p] == locations_of(
                s,
            )[p] by {
                if p < n + 1 {
                    assert(location_views(before)[p] == locations_of(s).take(n + 1)[p]);
                }
            }
            assert(location_views(items@) =~= locations_of(s));
        }
        let locations = Locations { items };
        locations
    }

    /// The boundary before the first character of any path.
    pub fn path_begin() -> (location: Location)
        ensures
            location@ == begin_location(),
    {
        Location {
            index: 0,
            height: 0,
            character: '^',
            prefix: String::new(),
            label: LocationLabel::PathBegin,
        }
    }

    /// The boundary after the last character of `source`.
    pub fn path_end(source: &str) -> (location: Location)
        requires
            byte_length(source@) <= usize::MAX,
        ensures
            location@ == end_location(source@),
    {
        Location {
            index: source.len(),
            height: 0,
            character: '$',
            prefix: source.to_owned(),
            label: LocationLabel::PathEnd,
        }
    }

    /// The number of locations.
    pub fn len(&self) -> (n: usize)
        ensures
            n == self@.len(),
    {
        self.items.len()
    }

    /// The `i`-th location.
    pub fn get(&self, i: usize) -> (location: &Location)
        requires
            i < self@.len(),
        ensures
            location@ == self@[i as int],
    {
        &self.items[i]
    }

    /// All locations, in order.
    pub fn collect(self) -> (items: Vec<Location>)
        ensures
            location_views(items@) == self@,
    {
        self.items
    }
}

} // verus!

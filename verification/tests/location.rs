use ff::location::{Location, LocationLabel, Locations};
use ff::text::{characters, digest_of, fits, width};

#[test]
fn simple() {
    let locations: Vec<Location> = Locations::new("ab").collect();

    assert_eq!(locations[1].index, 0);
    assert_eq!(locations[1].character, 'a');
    assert_eq!(locations[1].label, LocationLabel::WordBegin);
    assert_eq!(locations[1].height, 0);
    assert_eq!(locations[1].prefix, "");

    assert_eq!(locations[2].index, 1);
    assert_eq!(locations[2].character, 'b');
    assert_eq!(locations[2].label, LocationLabel::Simple);
    assert_eq!(locations[2].height, 0);
    assert_eq!(locations[2].prefix, "a");
}

#[test]
fn underscore_word_begin() {
    let locations: Vec<Location> = Locations::new("a_b").collect();

    assert_eq!(locations[3].index, 2);
    assert_eq!(locations[3].character, 'b');
    assert_eq!(locations[3].label, LocationLabel::WordBegin);
    assert_eq!(locations[3].height, 0);
    assert_eq!(locations[3].prefix, "a_");
}

#[test]
fn hyphen_word_begin() {
    let locations: Vec<Location> = Locations::new("a-b").collect();

    assert_eq!(locations[3].index, 2);
    assert_eq!(locations[3].character, 'b');
    assert_eq!(locations[3].label, LocationLabel::WordBegin);
    assert_eq!(locations[3].height, 0);
    assert_eq!(locations[3].prefix, "a-");
}

#[test]
fn camel_word_begin() {
    let locations: Vec<Location> = Locations::new("aB").collect();

    assert_eq!(locations[2].index, 1);
    assert_eq!(locations[2].character, 'B');
    assert_eq!(locations[2].label, LocationLabel::WordBegin);
    assert_eq!(locations[2].height, 0);
    assert_eq!(locations[2].prefix, "a");
}

#[test]
fn slash_word_begin() {
    let locations: Vec<Location> = Locations::new("a/b").collect();

    assert_eq!(locations[3].index, 2);
    assert_eq!(locations[3].character, 'b');
    assert_eq!(locations[3].label, LocationLabel::WordBegin);
    assert_eq!(locations[3].height, 0);
    assert_eq!(locations[3].prefix, "a/");
}

#[test]
fn boundaries_of_an_empty_path() {
    let locations = Locations::new("");
    assert_eq!(locations.len(), 2);
    let begin = locations.get(0);
    assert_eq!(begin.index, 0);
    assert_eq!(begin.character, '^');
    assert_eq!(begin.label, LocationLabel::PathBegin);
    assert_eq!(begin.height, 0);
    assert_eq!(begin.prefix, "");
    let end = locations.get(1);
    assert_eq!(end.index, 0);
    assert_eq!(end.character, '$');
    assert_eq!(end.label, LocationLabel::PathEnd);
    assert_eq!(end.height, 0);
    assert_eq!(end.prefix, "");
}

#[test]
fn boundaries_of_a_path() {
    let locations: Vec<Location> = Locations::new("foo/bar").collect();
    assert_eq!(locations.len(), 9);
    assert_eq!(locations[0].label, LocationLabel::PathBegin);
    assert_eq!(locations[0].character, '^');
    assert_eq!(locations[8].label, LocationLabel::PathEnd);
    assert_eq!(locations[8].character, '$');
    assert_eq!(locations[8].index, 7);
    assert_eq!(locations[8].prefix, "foo/bar");
    assert_eq!(locations[8].height, 0);
    let begin = Locations::path_begin();
    assert_eq!(begin.character, '^');
    let end = Locations::path_end("xy");
    assert_eq!(end.index, 2);
    assert_eq!(end.prefix, "xy");
}

#[test]
fn heights_count_the_separators_that_follow() {
    let locations: Vec<Location> = Locations::new("a/b/c").collect();
    let heights: Vec<usize> = locations.iter().map(|l| l.height).collect();
    assert_eq!(heights, vec![0, 2, 1, 1, 0, 0, 0]);
}

#[test]
fn labels_of_a_path() {
    let locations: Vec<Location> = Locations::new("ab_c-d/eF").collect();
    let labels: Vec<LocationLabel> = locations.iter().map(|l| l.label).collect();
    assert_eq!(
        labels,
        vec![
            LocationLabel::PathBegin,
            LocationLabel::WordBegin,
            LocationLabel::Simple,
            LocationLabel::Simple,
            LocationLabel::WordBegin,
            LocationLabel::Simple,
            LocationLabel::WordBegin,
            LocationLabel::Simple,
            LocationLabel::WordBegin,
            LocationLabel::WordBegin,
            LocationLabel::PathEnd,
        ]
    );
}

#[test]
fn indices_are_byte_offsets() {
    let locations: Vec<Location> = Locations::new("é/b€").collect();
    let indices: Vec<usize> = locations.iter().map(|l| l.index).collect();
    assert_eq!(indices, vec![0, 0, 2, 3, 4, 7]);
    assert_eq!(locations[3].prefix, "é/");
    assert_eq!(locations[4].prefix, "é/b");
    assert_eq!(locations[4].character, '€');
    assert_eq!(locations[5].prefix, "é/b€");
}

#[test]
fn a_clone_is_equal_in_every_field() {
    let locations: Vec<Location> = Locations::new("a/b").collect();
    let copy = locations[3].clone();
    assert_eq!(copy.index, 2);
    assert_eq!(copy.height, 0);
    assert_eq!(copy.character, 'b');
    assert_eq!(copy.prefix, "a/");
    assert_eq!(copy.label, LocationLabel::WordBegin);
}

#[test]
fn widths_of_characters() {
    assert_eq!(width('a'), 1);
    assert_eq!(width('é'), 2);
    assert_eq!(width('€'), 3);
    assert_eq!(width('😀'), 4);
    assert_eq!(width('\u{7f}'), 1);
    assert_eq!(width('\u{80}'), 2);
    assert_eq!(width('\u{7ff}'), 2);
    assert_eq!(width('\u{800}'), 3);
    assert_eq!(width('\u{ffff}'), 3);
    assert_eq!(width('\u{10000}'), 4);
}

#[test]
fn characters_of_a_path() {
    assert_eq!(characters("aé$"), vec!['a', 'é', '$']);
    assert_eq!(characters(""), Vec::<char>::new());
}

#[test]
fn ordinary_paths_fit() {
    assert!(fits(""));
    assert!(fits("foo/bar/baz"));
}

#[test]
fn digests_of_texts() {
    assert_eq!(digest_of(&String::new()), 0);
    assert_eq!(digest_of(&"a".to_string()), 97);
    assert_eq!(digest_of(&"ab".to_string()), 3105);
    assert_eq!(digest_of(&"é".to_string()), 233);
    assert_eq!(digest_of(&"foo/bar".to_string()), digest_of(&"foo/bar".to_string()));
    let long = "x".repeat(64);
    let mut expected: u64 = 0;
    for _ in 0..64 {
        expected = expected.wrapping_mul(31).wrapping_add(120);
    }
    assert_eq!(digest_of(&long), expected);
}

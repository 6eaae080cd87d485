use ff::jump::{calculate_score, Jump, Jumps};
use ff::location::{Location, LocationLabel};

fn location(index: usize, height: usize, label: LocationLabel) -> Location {
    Location { index, height, character: 'x', prefix: String::new(), label }
}

#[test]
fn jump_count() {
    let jumps = Jumps::new("ab");
    // ^ => a | ^ => b | ^ => $
    // a => b | a => $
    // b => $
    assert_eq!(6, jumps.count());
}

#[test]
fn jump_source_characters() {
    let actual: Vec<char> =
        Jumps::new("ab").collect().into_iter().map(|jump| jump.source.character).collect();

    let expected = vec!['^', '^', '^', 'a', 'a', 'b'];

    assert_eq!(expected, actual);
}

#[test]
fn jump_destination_characters() {
    let actual: Vec<char> =
        Jumps::new("ab").collect().into_iter().map(|jump| jump.destination.character).collect();

    let expected = vec!['a', 'b', '$', 'b', '$', '$'];

    assert_eq!(expected, actual);
}

#[test]
fn jump_scores() {
    let actual: Vec<usize> = Jumps::new("ab").collect().into_iter().map(|jump| jump.score).collect();

    let expected = vec![3, 5, 0, 1, 0, 0];

    assert_eq!(expected, actual);
}

#[test]
fn mixed_case_jumps() {
    let actual: Vec<char> =
        Jumps::new("aB").collect().into_iter().map(|jump| jump.destination.character).collect();

    let expected = vec!['a', 'B', 'b', '$', 'B', 'b', '$', '$'];

    assert_eq!(expected, actual);
}

#[test]
fn mixed_case_scores() {
    let jumps: Vec<Jump> = Jumps::new("aB").collect();
    let scores: Vec<usize> = jumps.iter().map(|jump| jump.score).collect();
    assert_eq!(scores, vec![3, 3, 2, 0, 2, 1, 0, 0]);
    assert_eq!(jumps[2].source.character, '^');
    assert_eq!(jumps[2].destination.index, 1);
    assert_eq!(jumps[2].destination.prefix, "a");
    assert_eq!(jumps[2].destination.label, LocationLabel::WordBegin);
}

#[test]
fn a_path_of_n_characters_has_all_pairs() {
    assert_eq!(Jumps::new("").count(), 1);
    assert_eq!(Jumps::new("a").count(), 3);
    assert_eq!(Jumps::new("abc").count(), 10);
    assert_eq!(Jumps::new("foo/bar/baz").count(), 78);
}

#[test]
fn each_uppercase_destination_adds_a_jump() {
    // 10 pairs; `B` is the destination of two of them, `C` of three.
    assert_eq!(Jumps::new("aBC").count(), 15);
}

#[test]
fn lowercase_forms_come_last_first() {
    let actual: Vec<char> =
        Jumps::new("İ").collect().into_iter().map(|jump| jump.destination.character).collect();
    assert_eq!(actual, vec!['İ', '\u{307}', 'i', '$', '$']);
}

#[test]
fn jumps_with_heights() {
    let jumps: Vec<Jump> = Jumps::new("a/b").collect();
    let scores: Vec<usize> = jumps.iter().map(|jump| jump.score).collect();
    // ^ => a, /, b, $ | a => /, b, $ | / => b, $ | b => $
    assert_eq!(scores, vec![4, 5, 3, 0, 1, 2, 0, 3, 0, 0]);
}

#[test]
fn score_of_the_path_end_is_zero() {
    for label in [
        LocationLabel::PathBegin,
        LocationLabel::WordBegin,
        LocationLabel::Simple,
        LocationLabel::PathEnd,
    ] {
        let score = calculate_score(&location(0, 3, label), &location(9, 7, LocationLabel::PathEnd));
        assert_eq!(score, 0);
    }
}

#[test]
fn score_by_rule() {
    let begin = location(0, 0, LocationLabel::PathBegin);
    let word = location(4, 0, LocationLabel::WordBegin);
    let plain = location(4, 0, LocationLabel::Simple);
    assert_eq!(calculate_score(&word, &location(9, 2, LocationLabel::WordBegin)), 4);
    assert_eq!(calculate_score(&plain, &location(9, 2, LocationLabel::WordBegin)), 5);
    assert_eq!(calculate_score(&begin, &location(9, 2, LocationLabel::WordBegin)), 5);
    assert_eq!(calculate_score(&begin, &location(1, 2, LocationLabel::Simple)), 7);
    assert_eq!(calculate_score(&plain, &location(5, 2, LocationLabel::Simple)), 3);
    assert_eq!(calculate_score(&word, &location(5, 2, LocationLabel::Simple)), 3);
    assert_eq!(calculate_score(&plain, &location(6, 2, LocationLabel::Simple)), 7);
    assert_eq!(calculate_score(&plain, &location(4, 2, LocationLabel::Simple)), 7);
    assert_eq!(calculate_score(&plain, &location(3, 2, LocationLabel::Simple)), 7);
}

#[test]
fn the_next_character_is_cheaper_than_a_later_one() {
    let source = location(4, 1, LocationLabel::Simple);
    let next = location(5, 1, LocationLabel::Simple);
    let far = location(8, 1, LocationLabel::Simple);
    assert!(calculate_score(&source, &next) < calculate_score(&source, &far));
}

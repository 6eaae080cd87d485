use std::collections::HashSet;

use ff::index::{from_buf_reader, Edge, Graph, Index};
use ff::jump::Jumps;
use ff::min_set::MinSet;
use ff::query::{Cursor, Match, Query, Step};
use ff::query_result::{QueryResult, QueryResults};
use ff::ui::Screen;

fn positions(values: &[usize]) -> HashSet<usize> {
    values.iter().cloned().collect()
}

fn found(path: &str, score: usize) -> Match {
    Match { path: path.to_string(), score, positions: vec![score] }
}

fn result(path: &str, score: usize) -> QueryResult {
    QueryResult { path: path.to_string(), score, positions: HashSet::new() }
}

#[test]
fn it_works() {}

#[test]
fn query_match() {
    let mut index = Index::new();
    index.push("fab/cab/dab");
    index.push("foo/bar/baz");

    let mut query = index.query();

    query.advance('f');
    query.advance('a');

    let results: Vec<QueryResult> = query.results().collect();

    assert_eq!(2, results.len());
    assert_eq!("fab/cab/dab", results[0].path);
    assert_eq!("foo/bar/baz", results[1].path);
}

#[test]
fn query_match_scores_the_exact_prefix_best() {
    let mut index = Index::new();
    index.push("fab/cab/dab");
    index.push("foo/bar/baz");
    let mut query = index.query();
    query.advance('f');
    query.advance('a');
    let results: Vec<QueryResult> = query.results().collect();
    assert_eq!(results[0].path, "fab/cab/dab");
    assert_eq!(results[0].score, 8);
    assert_eq!(results[0].positions, positions(&[0, 1, 11]));
    assert!(results[0].score <= results[1].score);
}

#[test]
fn skipping_to_a_word_begin_reaches_the_end() {
    let mut index = Index::new();
    index.push("foo/bar/baz");
    let mut query = index.query();
    query.advance('f');
    query.advance('b');
    let results: Vec<QueryResult> = query.results().collect();
    assert_eq!(results.len(), 1);
    assert_eq!(results[0].path, "foo/bar/baz");
    assert_eq!(results[0].score, 7);
    assert_eq!(results[0].positions, positions(&[0, 8, 11]));
}

#[test]
fn lowercase_matches_uppercase_one_point_cheaper() {
    let mut index = Index::new();
    index.push("aB");

    let mut exact = index.query();
    exact.advance('a');
    exact.advance('B');
    let exact: Vec<QueryResult> = exact.results().collect();
    assert_eq!(exact.len(), 1);
    assert_eq!(exact[0].path, "aB");
    assert_eq!(exact[0].score, 5);

    let mut lower = index.query();
    lower.advance('a');
    lower.advance('b');
    let lower: Vec<QueryResult> = lower.results().collect();
    assert_eq!(lower.len(), 1);
    assert_eq!(lower[0].path, "aB");
    assert_eq!(lower[0].score, 4);
    assert_eq!(lower[0].positions, positions(&[0, 1, 2]));
}

#[test]
fn query_string_round_trip() {
    let mut index = Index::new();
    index.push("foo/bar/baz");
    index.push("fab/cab/dab");
    let mut query = index.query();
    assert_eq!(query.query_string(), "");
    query.advance('f');
    query.advance('o');
    assert_eq!(query.query_string(), "fo");
    query.back();
    query.advance('a');
    assert_eq!(query.query_string(), "fa");
}

#[test]
fn back_restores_the_step_before() {
    let mut index = Index::new();
    index.push("foo/bar/baz");
    index.push("fab/cab/dab");
    let mut query = index.query();
    query.advance('f');
    let before: Vec<(String, usize, HashSet<usize>)> =
        query.results().collect().into_iter().map(|r| (r.path, r.score, r.positions)).collect();
    query.advance('a');
    query.back();
    let after: Vec<(String, usize, HashSet<usize>)> =
        query.results().collect().into_iter().map(|r| (r.path, r.score, r.positions)).collect();
    assert_eq!(before, after);
    assert_eq!(query.query_string(), "f");
}

#[test]
fn back_keeps_the_first_step() {
    let mut index = Index::new();
    index.push("ab");
    let mut query = index.query();
    query.back();
    query.back();
    assert_eq!(query.query_string(), "");
    assert!(query.is_ready());
    let results: Vec<QueryResult> = query.results().collect();
    assert_eq!(results.len(), 1);
    assert_eq!(results[0].path, "ab");
    assert_eq!(results[0].score, 0);
    assert_eq!(results[0].positions, positions(&[2]));
}

#[test]
fn a_character_without_an_edge_empties_the_step() {
    let mut index = Index::new();
    index.push("foo");
    let mut query = index.query();
    query.advance('z');
    assert!(query.check_room());
    assert!(query.is_ready());
    assert_eq!(query.results().len(), 0);
    query.advance('f');
    assert_eq!(query.results().len(), 0);
    assert_eq!(query.query_string(), "zf");
    query.back();
    query.back();
    assert_eq!(query.results().len(), 1);
}

#[test]
fn a_query_over_an_empty_index_is_not_ready() {
    let index = Index::new();
    let query = index.query();
    assert!(!query.is_ready());
    let graph = Graph::new();
    assert!(!Query::new(&graph).is_ready());
}

#[test]
fn the_end_marker_leaves_the_graph() {
    let mut index = Index::new();
    index.push("ab");
    let mut query = index.query();
    query.advance('$');
    assert!(!query.is_ready());
    query.back();
    assert!(query.is_ready());
}

#[test]
fn results_have_distinct_paths_in_ascending_order() {
    let mut index = Index::new();
    for path in ["src/main.rs", "src/min_set.rs", "src/query.rs", "Cargo.toml", "src/ui.rs"] {
        index.push(path);
    }
    let mut query = index.query();
    query.advance('s');
    let results: Vec<QueryResult> = query.results().collect();
    assert!(results.len() >= 4);
    for pair in results.windows(2) {
        assert!(pair[0].score <= pair[1].score);
    }
    let paths: HashSet<String> = results.iter().map(|r| r.path.clone()).collect();
    assert_eq!(paths.len(), results.len());
}

#[test]
fn pushing_a_path_twice_doubles_its_edges() {
    let mut graph = Graph::new();
    let key = String::new();
    assert!(!graph.contains(&key));
    for _ in 0..2 {
        for jump in Jumps::new("ab").collect() {
            let node = jump.source.prefix.clone();
            let character = jump.destination.character;
            graph.insert(&node, character, Edge::from(jump));
        }
    }
    assert!(graph.contains(&key));
    assert!(graph.contains(&"a".to_string()));
    assert!(!graph.contains(&"ab".to_string()));
    let edges = graph.bucket(&key, 'b').unwrap();
    let scores: Vec<usize> = edges.iter().map(|e| e.score).collect();
    assert_eq!(scores, vec![5, 1, 5, 1]);
    assert_eq!(edges[0].path, "a");
    assert_eq!(edges[0].position, 1);
    assert!(graph.bucket(&key, 'z').is_none());
    assert_eq!(graph.max_score(), 5);
}

#[test]
fn an_index_from_lines() {
    let lines = vec!["fab/cab/dab".to_string(), "foo/bar/baz".to_string()];
    let index = from_buf_reader(&lines);
    let mut query = index.query();
    query.advance('f');
    query.advance('a');
    let results: Vec<QueryResult> = query.results().collect();
    assert_eq!(results.len(), 2);
    assert_eq!(results[0].path, "fab/cab/dab");
    assert_eq!(results[1].path, "foo/bar/baz");
}

#[test]
fn a_cursor_extended_by_an_edge() {
    let cursor = Cursor { node: "a".to_string(), score: 3, positions: vec![0] };
    let edge = Edge { path: "ab".to_string(), score: 4, position: 2 };
    let next = cursor.extend(&edge);
    assert_eq!(next.node, "ab");
    assert_eq!(next.score, 7);
    assert_eq!(next.positions, vec![0, 2]);
    let m = Match::from(next);
    assert_eq!(m.path, "ab");
    assert_eq!(m.score, 7);
    assert_eq!(m.positions, vec![0, 2]);
    let r = QueryResult::from(m);
    assert_eq!(r.path, "ab");
    assert_eq!(r.score, 7);
    assert_eq!(r.positions, positions(&[0, 2]));
}

#[test]
fn a_step_keeps_the_cheapest_cursor_per_node() {
    let first = Step::first();
    assert_eq!(first.character(), '^');
    let mut step = Step::new('x');
    assert_eq!(step.character(), 'x');
    step.push(Cursor { node: "a".to_string(), score: 3, positions: vec![] });
    step.push(Cursor { node: "a".to_string(), score: 2, positions: vec![] });
    assert_eq!(step.character(), 'x');
}

#[test]
fn a_min_set_keeps_the_cheapest_per_key() {
    let mut set: MinSet<Match> = MinSet::new();
    set.insert(found("a", 5));
    set.insert(found("b", 7));
    set.insert(found("a", 3));
    set.insert(found("b", 9));
    set.insert(found("a", 3));
    set.insert(found("c", 1));
    assert_eq!(set.len(), 3);
    assert_eq!(set.get(0).path, "a");
    assert_eq!(set.get(0).score, 3);
    let items: Vec<(String, usize)> = set.into_vec().into_iter().map(|m| (m.path, m.score)).collect();
    assert_eq!(
        items,
        vec![("a".to_string(), 3), ("b".to_string(), 7), ("c".to_string(), 1)]
    );
}

#[test]
fn among_equal_scores_the_first_stays() {
    let mut set: MinSet<Match> = MinSet::new();
    set.insert(Match { path: "a".to_string(), score: 3, positions: vec![1] });
    set.insert(Match { path: "a".to_string(), score: 3, positions: vec![2] });
    let items = set.into_vec();
    assert_eq!(items.len(), 1);
    assert_eq!(items[0].positions, vec![1]);
}

#[test]
fn results_come_out_by_ascending_score() {
    let mut results = QueryResults::new();
    results.insert(result("c", 5));
    results.insert(result("a", 1));
    results.insert(result("d", 5));
    results.insert(result("b", 3));
    assert_eq!(results.len(), 4);
    let mut order = Vec::new();
    while let Some(next) = results.next() {
        order.push((next.path, next.score));
    }
    assert_eq!(
        order,
        vec![
            ("a".to_string(), 1),
            ("b".to_string(), 3),
            ("c".to_string(), 5),
            ("d".to_string(), 5)
        ]
    );
    assert!(results.next().is_none());
}

#[test]
fn a_screen_shows_the_best_results() {
    let mut index = Index::new();
    for path in ["a0", "a1", "a2", "a3", "a4", "a5", "a6", "a7", "a8", "a9", "aa", "ab"] {
        index.push(path);
    }
    let mut query = index.query();
    query.advance('a');
    let mut screen = Screen::new();
    assert_eq!(screen.query_string(), "");
    assert!(screen.selected().is_none());
    screen.current_query(&query);
    assert_eq!(screen.query_string(), "a");
    assert_eq!(screen.pre_selected().len(), 0);
    assert_eq!(screen.post_selected().len(), 9);
    assert_eq!(screen.selected().as_ref().unwrap().path, "a0");
    assert_eq!(screen.post_selected()[0].path, "a1");
    assert_eq!(screen.post_selected()[8].path, "a9");
}

#[test]
fn the_selection_moves_down_and_up() {
    let mut index = Index::new();
    index.push("a0");
    index.push("a1");
    index.push("a2");
    let mut query = index.query();
    query.advance('a');
    let mut screen = Screen::new();
    screen.move_selection_down();
    screen.move_selection_up();
    assert!(screen.selected().is_none());
    screen.current_query(&query);
    screen.move_selection_up();
    assert_eq!(screen.selected().as_ref().unwrap().path, "a0");
    screen.move_selection_down();
    assert_eq!(screen.selected().as_ref().unwrap().path, "a1");
    assert_eq!(screen.pre_selected().len(), 1);
    assert_eq!(screen.pre_selected()[0].path, "a0");
    assert_eq!(screen.post_selected().len(), 1);
    screen.move_selection_down();
    screen.move_selection_down();
    assert_eq!(screen.selected().as_ref().unwrap().path, "a2");
    assert_eq!(screen.post_selected().len(), 0);
    screen.move_selection_up();
    assert_eq!(screen.selected().as_ref().unwrap().path, "a1");
    assert_eq!(screen.post_selected()[0].path, "a2");
    assert_eq!(screen.pre_selected().len(), 1);
    let taken = screen.take_selected();
    assert_eq!(taken.unwrap().path, "a1");
}

#[test]
fn matched_characters_are_highlighted() {
    let plain = QueryResult { path: "foo/bar".to_string(), score: 0, positions: positions(&[0, 4, 7]) };
    assert_eq!(plain.highlight("<", ">"), "<f>oo/<b>ar");
    assert_eq!(plain.highlight("", ""), "foo/bar");
    let wide = QueryResult { path: "é/b€x".to_string(), score: 0, positions: positions(&[1, 2, 4, 7]) };
    assert_eq!(wide.highlight("[", "]"), "é[/]b[€][x]");
    let none = QueryResult { path: "ab".to_string(), score: 0, positions: HashSet::new() };
    assert_eq!(none.highlight("<", ">"), "ab");
    let empty = QueryResult { path: String::new(), score: 0, positions: positions(&[0]) };
    assert_eq!(empty.highlight("<", ">"), "");
}

#[test]
fn results_mark_boundaries_of_their_paths() {
    let mut index = Index::new();
    index.push("src/é/main.rs");
    index.push("src/é/más.rs");
    let mut query = index.query();
    query.advance('s');
    query.advance('m');
    let results: Vec<QueryResult> = query.results().collect();
    assert_eq!(results.len(), 2);
    for result in results.iter() {
        for position in result.positions.iter() {
            assert!(result.path.is_char_boundary(*position));
        }
    }
}

#[test]
fn a_result_is_shown_with_its_matches_in_bold() {
    let result = QueryResult { path: "ab".to_string(), score: 3, positions: positions(&[0, 2]) };
    assert_eq!(result.to_string(), "\x1b[1ma\x1b[mb");
}

#[test]
fn an_empty_screen_is_drawn() {
    let screen = Screen::new();
    assert_eq!(screen.to_string(), "\x1b[2J\x1b[1;1H\x1b[1m>>> \x1b[m\n\r\x1b[1;5H");
}

#[test]
fn a_screen_with_results_is_drawn() {
    let mut index = Index::new();
    index.push("ab");
    index.push("ac");
    let mut query = index.query();
    query.advance('a');
    let mut screen = Screen::new();
    screen.current_query(&query);
    let selected_first = [
        "\x1b[2J\x1b[1;1H\x1b[1m>>> a\x1b[m\n\r",
        "\x1b[48;5;0m\x1b[1m>\x1b[m\x1b[48;5;0m \x1b[1ma\x1b[m\x1b[48;5;0mb\n\r\x1b[49m\r",
        "\x1b[48;5;0m \x1b[49m \x1b[1ma\x1b[m\x1b[24mc\n\r",
        "\x1b[1;6H",
    ]
    .concat();
    assert_eq!(screen.to_string(), selected_first);
    screen.move_selection_down();
    let selected_second = [
        "\x1b[2J\x1b[1;1H\x1b[1m>>> a\x1b[m\n\r",
        "\x1b[48;5;0m \x1b[49m \x1b[1ma\x1b[m\x1b[24mb\n\r",
        "\x1b[48;5;0m\x1b[1m>\x1b[m\x1b[48;5;0m \x1b[1ma\x1b[m\x1b[48;5;0mc\n\r\x1b[49m\r",
        "\x1b[1;6H",
    ]
    .concat();
    assert_eq!(screen.to_string(), selected_second);
}

#[test]
fn the_cursor_stands_behind_the_typed_text() {
    let mut index = Index::new();
    index.push("abcdefgh");
    let mut query = index.query();
    for c in "abcdefg".chars() {
        query.advance(c);
    }
    let mut screen = Screen::new();
    screen.current_query(&query);
    let drawn = screen.to_string();
    assert!(drawn.starts_with("\x1b[2J\x1b[1;1H\x1b[1m>>> abcdefg\x1b[m\n\r"));
    assert!(drawn.ends_with("\n\r\x1b[49m\r\x1b[1;12H"));
}

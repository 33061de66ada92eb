use sudachi_core::connect::ConnectionMatrix;
use sudachi_core::input::InputBuffer;
use sudachi_core::lattice::Lattice;
use sudachi_core::lexicon::Lexicon;
use sudachi_core::node::Node;
use sudachi_core::reading_candidates::{enumerate_reading_candidates, ReadingCandidatePath};
use sudachi_core::word_id::WordId;
use sudachi_core::word_info::{InfoSubset, WordInfo};

fn chars_of(text: &str) -> Vec<char> {
    text.chars().collect()
}

fn entry(surface: &str, reading: &str, pos_id: u16) -> WordInfo {
    let mut wi = WordInfo::empty();
    wi.surface = surface.to_string();
    wi.reading_form = reading.to_string();
    wi.pos_id = pos_id;
    wi
}

fn surfaces(path: &[sudachi_core::reading_candidates::ReadingCandidateToken]) -> Vec<String> {
    path.iter().map(|t| t.surface.clone()).collect()
}

fn assert_candidate_paths_cover_text(text: &str, candidates: &[ReadingCandidatePath]) {
    for cand in candidates {
        assert!(!cand.tokens.is_empty());
        let mut prev_end = 0usize;
        let mut reconstructed = String::new();
        for token in &cand.tokens {
            assert_eq!(prev_end, token.begin);
            assert!(token.end > token.begin);
            reconstructed.push_str(&token.surface);
            prev_end = token.end;
        }
        assert_eq!(text.chars().count(), prev_end);
        assert_eq!(text, reconstructed);
    }
}

/// A lexicon with the words the reading tests need; entry indices are the
/// word ids used when building lattices.
fn test_lexicon() -> Lexicon {
    Lexicon::new(vec![vec![
        entry("東京都", "トウキョウト", 0), // 0
        entry("東京", "トウキョウ", 0),     // 1
        entry("都", "ト", 0),               // 2
        entry("。", "。", 1),               // 3
        entry("A", "", 2),                  // 4
        entry("/", "", 2),                  // 5
        entry("B", "", 2),                  // 6
        entry("123", "", 3),                // 7
    ]])
}

fn node(begin: u16, end: u16, cost: i16, word: u32) -> Node {
    Node::new(begin, end, 1, 1, cost, WordId::new(0, word))
}

/// Lattice over 東京都: the single word (cheap) and the 東京 + 都 split
/// (costlier).
fn tokyoto_lattice(conn: &ConnectionMatrix) -> (Lattice, InputBuffer) {
    let mut lattice = Lattice::default();
    lattice.reset(3);
    lattice.insert(node(0, 2, 5, 1), conn);
    lattice.insert(node(0, 3, 0, 0), conn);
    lattice.insert(node(2, 3, 5, 2), conn);
    (lattice, InputBuffer::from_text(chars_of("東京都")))
}

#[test]
fn reading_candidates_sorted_and_include_alternative_path() {
    let conn = ConnectionMatrix::new(16, 16);
    let lexicon = test_lexicon();
    let (lattice, input) = tokyoto_lattice(&conn);

    let candidates = enumerate_reading_candidates(
        &lattice,
        &input,
        &lexicon,
        &conn,
        InfoSubset::empty(),
        "トウキョウト",
        16,
        1,
    )
    .expect("candidates");

    assert!(!candidates.is_empty());
    assert_eq!(vec!["東京都".to_owned()], surfaces(&candidates[0].tokens));

    let has_split = candidates
        .iter()
        .any(|c| surfaces(&c.tokens) == vec!["東京".to_owned(), "都".to_owned()]);
    assert!(has_split);

    for i in 1..candidates.len() {
        assert!(candidates[i - 1].total_cost <= candidates[i].total_cost);
    }
}

#[test]
fn reading_candidates_have_valid_spans_and_cover_input() {
    let conn = ConnectionMatrix::new(16, 16);
    let lexicon = test_lexicon();
    let text = "東京都。";
    let input = InputBuffer::from_text(chars_of(text));
    let mut lattice = Lattice::default();
    lattice.reset(4);
    lattice.insert(node(0, 2, 5, 1), &conn);
    lattice.insert(node(0, 3, 0, 0), &conn);
    lattice.insert(node(2, 3, 5, 2), &conn);
    lattice.insert(node(3, 4, 0, 3), &conn);

    let candidates = enumerate_reading_candidates(
        &lattice,
        &input,
        &lexicon,
        &conn,
        InfoSubset::empty(),
        "トウキョウト。",
        16,
        1,
    )
    .expect("candidates");
    assert!(!candidates.is_empty());
    assert_candidate_paths_cover_text(text, &candidates);
}

#[test]
fn reading_candidates_no_match_and_limit() {
    let conn = ConnectionMatrix::new(16, 16);
    let lexicon = test_lexicon();
    let (lattice, input) = tokyoto_lattice(&conn);

    let no_match = enumerate_reading_candidates(
        &lattice,
        &input,
        &lexicon,
        &conn,
        InfoSubset::empty(),
        "トウキョウフ",
        16,
        1,
    )
    .expect("no match");
    assert!(no_match.is_empty());

    let limited = enumerate_reading_candidates(
        &lattice,
        &input,
        &lexicon,
        &conn,
        InfoSubset::empty(),
        "トウキョウト",
        1,
        1,
    )
    .expect("limited");
    assert_eq!(1, limited.len());
}

#[test]
fn reading_candidates_handles_case_width_and_symbols() {
    let conn = ConnectionMatrix::new(16, 16);
    let lexicon = test_lexicon();
    let input = InputBuffer::from_text(chars_of("A/B"));
    let mut lattice = Lattice::default();
    lattice.reset(3);
    lattice.insert(node(0, 1, 0, 4), &conn);
    lattice.insert(node(1, 2, 0, 5), &conn);
    lattice.insert(node(2, 3, 0, 6), &conn);

    let upper_surface = enumerate_reading_candidates(
        &lattice,
        &input,
        &lexicon,
        &conn,
        InfoSubset::empty(),
        "A/B",
        16,
        1,
    )
    .expect("upper surface");
    assert!(!upper_surface.is_empty());

    let lower_surface = enumerate_reading_candidates(
        &lattice,
        &input,
        &lexicon,
        &conn,
        InfoSubset::empty(),
        "a/b",
        16,
        1,
    )
    .expect("lower surface");
    assert!(!lower_surface.is_empty());

    let fullwidth = enumerate_reading_candidates(
        &lattice,
        &input,
        &lexicon,
        &conn,
        InfoSubset::empty(),
        "ａ／ｂ",
        16,
        1,
    )
    .expect("fullwidth");
    assert!(!fullwidth.is_empty());
}

#[test]
fn reading_candidates_handles_hiragana_and_numeric_surface_style() {
    let conn = ConnectionMatrix::new(16, 16);
    let lexicon = test_lexicon();
    let (lattice, input) = tokyoto_lattice(&conn);

    let hira = enumerate_reading_candidates(
        &lattice,
        &input,
        &lexicon,
        &conn,
        InfoSubset::empty(),
        "とうきょうと",
        16,
        1,
    )
    .expect("hiragana");
    assert!(!hira.is_empty());

    let input = InputBuffer::from_text(chars_of("123"));
    let mut lattice = Lattice::default();
    lattice.reset(3);
    lattice.insert(node(0, 3, 0, 7), &conn);
    let surface_number = enumerate_reading_candidates(
        &lattice,
        &input,
        &lexicon,
        &conn,
        InfoSubset::empty(),
        "123",
        16,
        1,
    )
    .expect("surface number");
    assert!(!surface_number.is_empty());

    let width_number = enumerate_reading_candidates(
        &lattice,
        &input,
        &lexicon,
        &conn,
        InfoSubset::empty(),
        "１２３",
        16,
        1,
    )
    .expect("width number");
    assert!(!width_number.is_empty());
}

#[test]
fn reading_candidates_min_tokens_filters_single_token_paths() {
    let conn = ConnectionMatrix::new(16, 16);
    let lexicon = test_lexicon();
    let (lattice, input) = tokyoto_lattice(&conn);

    let with_single = enumerate_reading_candidates(
        &lattice,
        &input,
        &lexicon,
        &conn,
        InfoSubset::empty(),
        "トウキョウト",
        16,
        1,
    )
    .expect("with single");
    assert!(!with_single.is_empty());
    assert_eq!(vec!["東京都".to_owned()], surfaces(&with_single[0].tokens));

    let no_single = enumerate_reading_candidates(
        &lattice,
        &input,
        &lexicon,
        &conn,
        InfoSubset::empty(),
        "トウキョウト",
        16,
        2,
    )
    .expect("without single");
    assert!(!no_single.is_empty());
    assert!(no_single.iter().all(|c| c.tokens.len() >= 2));
    assert!(no_single
        .iter()
        .all(|c| surfaces(&c.tokens) != vec!["東京都".to_owned()]));
}

#[test]
fn reading_candidates_min_tokens_too_large_returns_empty() {
    let conn = ConnectionMatrix::new(16, 16);
    let lexicon = test_lexicon();
    let (lattice, input) = tokyoto_lattice(&conn);

    let no_path = enumerate_reading_candidates(
        &lattice,
        &input,
        &lexicon,
        &conn,
        InfoSubset::empty(),
        "トウキョウト",
        16,
        10,
    )
    .expect("no path");
    assert!(no_path.is_empty());
}

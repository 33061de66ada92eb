use sudachi_core::connect::ConnectionMatrix;
use sudachi_core::error::AnalysisError;
use sudachi_core::input::InputBuffer;
use sudachi_core::lattice::Lattice;
use sudachi_core::lexicon::Lexicon;
use sudachi_core::node::Node;
use sudachi_core::normalize::{hira_to_kata, normalize_for_matching};
use sudachi_core::reading_candidates::enumerate_reading_candidates;
use sudachi_core::word_id::WordId;
use sudachi_core::word_ids::{
    decode_dictionary_form_word_id, pack_legacy_word_id, unpack_native_word_id,
};
use sudachi_core::word_info::{InfoSubset, WordInfo};

fn chars_of(text: &str) -> Vec<char> {
    text.chars().collect()
}

#[test]
fn reset_seeds_bos_and_clears_boundaries() {
    let conn = ConnectionMatrix::new(8, 8);
    let mut lattice = Lattice::default();
    lattice.reset(3);
    assert_eq!(4, lattice.boundary_count());
    // Boundary 0 holds exactly the BOS record; all others are empty.
    assert!(lattice.has_previous_node(0));
    for b in 1..4 {
        assert!(!lattice.has_previous_node(b));
        assert!(lattice.nodes_ending_at(b).is_empty());
    }
    assert!(lattice.nodes_ending_at(0).is_empty());

    // Reuse across analyses: a shorter reset clears earlier contents.
    lattice.insert(Node::new(0, 1, 1, 1, 0, WordId::from_raw(7)), &conn);
    lattice.reset(1);
    assert_eq!(2, lattice.boundary_count());
    assert!(!lattice.has_previous_node(1));
}

#[test]
fn connect_eos_reports_disconnection() {
    let conn = ConnectionMatrix::new(8, 8);
    let mut lattice = Lattice::default();
    lattice.reset(2);
    // No candidate reaches the last boundary, so EOS cannot connect.
    lattice.insert(Node::new(0, 1, 1, 1, 0, WordId::from_raw(1)), &conn);
    assert_eq!(Err(AnalysisError::EosBosDisconnect), lattice.connect_eos(&conn));

    // With the gap closed, the connection succeeds.
    lattice.insert(Node::new(1, 2, 1, 1, 0, WordId::from_raw(2)), &conn);
    assert_eq!(Ok(()), lattice.connect_eos(&conn));
}

#[test]
fn lexicon_lookup_failure_aborts_enumeration() {
    let conn = ConnectionMatrix::new(8, 8);
    let lexicon = Lexicon::new(vec![vec![]]);
    let input = InputBuffer::from_text(chars_of("光"));
    let mut lattice = Lattice::default();
    lattice.reset(1);
    // Word 5 of dictionary 0 does not exist.
    lattice.insert(Node::new(0, 1, 1, 1, 0, WordId::new(0, 5)), &conn);
    let r = enumerate_reading_candidates(
        &lattice,
        &input,
        &lexicon,
        &conn,
        InfoSubset::empty(),
        "ヒカリ",
        16,
        1,
    );
    assert_eq!(Err(AnalysisError::LexiconLookupFailure), r.map(|v| v.len()));
}

#[test]
fn normalization_folds_width_case_and_hiragana() {
    // NFKC turns fullwidth letters into ASCII, lowercasing follows, and
    // hiragana moves to katakana.
    assert_eq!(normalize_for_matching("Ａｂｃ"), normalize_for_matching("abc"));
    assert_eq!(normalize_for_matching("とうきょう"), normalize_for_matching("トウキョウ"));
    assert_ne!(normalize_for_matching("abc"), normalize_for_matching("abd"));

    // The katakana shift moves exactly the hiragana block.
    assert_eq!(0x30A1, hira_to_kata(0x3041)); // ぁ -> ァ
    assert_eq!(0x30F6, hira_to_kata(0x3096)); // ゖ -> ヶ
    assert_eq!(0x30FD, hira_to_kata(0x309D)); // ゝ -> ヽ
    assert_eq!(0x3040, hira_to_kata(0x3040)); // below the block: unchanged
    assert_eq!(0x30A2, hira_to_kata(0x30A2)); // katakana already: unchanged

    // Exact scalar values after the pipeline.
    assert_eq!(vec![0x61, 0x62], normalize_for_matching("ＡＢ"));
    assert_eq!(vec![0x30C8], normalize_for_matching("と"));
}

#[test]
fn word_id_packing_round_trips() {
    let id = WordId::new(3, 123_456);
    assert_eq!(3, id.dic());
    assert_eq!(123_456, id.word());
    assert_eq!((3, 123_456), unpack_native_word_id(id.as_raw()));

    let oov = WordId::new(0xf, 42);
    assert!(oov.is_oov());
    assert_eq!((-1, 42), unpack_native_word_id(oov.as_raw()));

    assert_eq!(5, pack_legacy_word_id(0, 5));
    assert_eq!(5, pack_legacy_word_id(-1, 5));
    assert_eq!(200_000_007, pack_legacy_word_id(2, 7));
}

#[test]
fn dictionary_form_word_id_decoding() {
    // -1 stays fully undefined.
    assert_eq!((-1, -1, -1, -1), decode_dictionary_form_word_id(-1, 0));

    // A native-packed id with a positive lexicon id unpacks natively.
    let native = WordId::new(1, 9).as_raw() as i32;
    assert_eq!(
        (1, 100_000_009, native, 9),
        decode_dictionary_form_word_id(native, 0)
    );

    // A legacy-packed id decodes by the stride.
    assert_eq!(
        (2, 200_000_033, 200_000_033, 33),
        decode_dictionary_form_word_id(200_000_033, 0)
    );

    // A small id is relative to the word's own lexicon.
    assert_eq!((0, 17, 17, 17), decode_dictionary_form_word_id(17, 0));
    assert_eq!(
        (3, 300_000_017, 17, 17),
        decode_dictionary_form_word_id(17, 3)
    );
}

#[test]
fn lattice_dump_lists_candidates() {
    let conn = ConnectionMatrix::new(8, 8);
    let grammar = sudachi_core::grammar::Grammar::new(
        vec![vec!["名詞".to_string(), "一般".to_string()]],
        ConnectionMatrix::new(8, 8),
    );
    let mut kyoto = WordInfo::empty();
    kyoto.surface = "京都".to_string();
    kyoto.pos_id = 0;
    let lexicon = Lexicon::new(vec![vec![kyoto]]);
    let input = InputBuffer::from_text(chars_of("京都"));

    let mut lattice = Lattice::default();
    lattice.reset(2);
    lattice.insert(Node::new(0, 2, 1, 1, -3, WordId::new(0, 0)), &conn);

    let text = lattice.dump(&input, &grammar, &lexicon).unwrap();
    assert!(text.contains("0: 0 2 京都"));
    assert!(text.contains("名詞, 一般"));
    assert!(text.contains("-3:"));
}

#[test]
fn inserted_nodes_keep_parallel_records() {
    // Each inserted candidate appears among the nodes ending at its
    // boundary, at the same index, with its span and right id kept.
    let conn = ConnectionMatrix::new(8, 8);
    let mut lattice = Lattice::default();
    lattice.reset(2);
    lattice.insert(Node::new(0, 1, 1, 3, 10, WordId::from_raw(1)), &conn);
    lattice.insert(Node::new(0, 2, 2, 4, 20, WordId::from_raw(2)), &conn);
    lattice.insert(Node::new(1, 2, 2, 5, 30, WordId::from_raw(3)), &conn);

    let row1 = lattice.nodes_ending_at(1);
    assert_eq!(1, row1.len());
    assert_eq!((0, 1, 3), (row1[0].begin(), row1[0].end(), row1[0].right_id()));

    let row2 = lattice.nodes_ending_at(2);
    assert_eq!(2, row2.len());
    assert_eq!(2, row2[0].end());
    assert_eq!(4, row2[0].right_id());
    assert_eq!(5, row2[1].right_id());
}

#[test]
fn stored_cost_is_minimum_over_predecessors() {
    // Two ways into the final candidate; the stored cost takes the
    // cheaper connection.
    let mut conn = ConnectionMatrix::new(8, 8);
    conn.update(0, 1, 2); // BOS -> first tokens
    conn.update(3, 6, 40); // expensive predecessor
    conn.update(4, 6, 7); // cheap predecessor
    let mut lattice = Lattice::default();
    lattice.reset(2);
    lattice.insert(Node::new(0, 1, 1, 3, 10, WordId::from_raw(1)), &conn);
    lattice.insert(Node::new(0, 1, 1, 4, 11, WordId::from_raw(2)), &conn);
    let cost = lattice.insert(Node::new(1, 2, 6, 6, 5, WordId::from_raw(3)), &conn);
    // Via right id 3: (2 + 10) + 40 + 5 = 57; via right id 4: (2 + 11) + 7 + 5 = 25.
    assert_eq!(25, cost);
}

use sudachi_core::connect::ConnectionMatrix;
use sudachi_core::input::InputBuffer;
use sudachi_core::lattice::Lattice;
use sudachi_core::lexicon::Lexicon;
use sudachi_core::node::{Node, NodeIdx};
use sudachi_core::word_id::WordId;
use sudachi_core::word_ids::ResolvedWordInfo;
use sudachi_core::word_info::{InfoSubset, WordInfo};

fn make_node(
    begin: u16,
    end: u16,
    left_id: u16,
    right_id: u16,
    cost: i16,
    word_id: u32,
    is_whitespace: bool,
) -> Node {
    let mut node = Node::new(begin, end, left_id, right_id, cost, WordId::from_raw(word_id));
    node.set_whitespace(is_whitespace);
    node
}

fn path_word_ids(lattice: &Lattice) -> Vec<u32> {
    let mut ids = Vec::new();
    let mut idx: Vec<NodeIdx> = Vec::new();
    lattice.fill_top_path(&mut idx);
    idx.reverse();
    for i in idx {
        ids.push(lattice.node(i).0.word_id().as_raw());
    }
    ids
}

fn path_spans(lattice: &Lattice) -> Vec<(usize, usize)> {
    let mut spans = Vec::new();
    let mut idx: Vec<NodeIdx> = Vec::new();
    lattice.fill_top_path(&mut idx);
    idx.reverse();
    for i in idx {
        let node = lattice.node(i).0;
        spans.push((node.begin(), node.end()));
    }
    spans
}

fn chars_of(text: &str) -> Vec<char> {
    text.chars().collect()
}

fn string_of(chars: &[char]) -> String {
    chars.iter().collect()
}

fn word_info_with(surface: &str, pos_id: u16, reading: &str, normalized: &str) -> WordInfo {
    let mut wi = WordInfo::empty();
    wi.surface = surface.to_string();
    wi.pos_id = pos_id;
    wi.reading_form = reading.to_string();
    wi.normalized_form = normalized.to_string();
    wi
}

#[test]
fn whitespace_bridge_can_change_best_path() {
    let n = 16usize;
    let mut conn = ConnectionMatrix::new(n, n);

    // left chunk preference
    conn.update(1, 1, 0); // L1 -> W1
    conn.update(2, 1, 100);
    conn.update(1, 2, 100);
    conn.update(2, 2, 0); // L2 -> W2

    // normal whitespace transition is expensive
    conn.update(9, 3, 50);
    // bridged costs prefer L2 context
    conn.update(1, 3, 100);
    conn.update(2, 3, 0);

    let mut plain = Lattice::default();
    plain.reset(3);
    plain.insert(make_node(0, 1, 0, 1, 0, 1, false), &conn);
    plain.insert(make_node(0, 1, 0, 2, 1, 2, false), &conn);
    plain.insert(make_node(1, 2, 1, 9, 0, 11, true), &conn);
    plain.insert(make_node(1, 2, 2, 9, 0, 12, true), &conn);
    plain.insert(make_node(2, 3, 3, 4, 0, 21, false), &conn);
    plain.connect_eos(&conn).unwrap();
    assert_eq!(vec![1, 11, 21], path_word_ids(&plain));

    let mut bridged = Lattice::default();
    bridged.set_global_whitespace_bridge(true);
    bridged.reset(3);
    bridged.insert(make_node(0, 1, 0, 1, 0, 1, false), &conn);
    bridged.insert(make_node(0, 1, 0, 2, 1, 2, false), &conn);
    bridged.insert(make_node(1, 2, 1, 9, 0, 11, true), &conn);
    bridged.insert(make_node(1, 2, 2, 9, 0, 12, true), &conn);
    bridged.insert(make_node(2, 3, 3, 4, 0, 21, false), &conn);
    bridged.connect_eos(&conn).unwrap();
    assert_eq!(vec![2, 12, 21], path_word_ids(&bridged));
}

#[test]
fn whitespace_bridge_keeps_normal_transition_when_cheaper() {
    let n = 16usize;
    let mut conn = ConnectionMatrix::new(n, n);

    conn.update(1, 1, 0);
    conn.update(2, 1, 100);
    conn.update(1, 2, 100);
    conn.update(2, 2, 0);

    // normal transition is already best.
    conn.update(9, 3, 0);
    conn.update(1, 3, 100);
    conn.update(2, 3, 100);

    let mut plain = Lattice::default();
    plain.reset(3);
    plain.insert(make_node(0, 1, 0, 1, 0, 1, false), &conn);
    plain.insert(make_node(0, 1, 0, 2, 1, 2, false), &conn);
    plain.insert(make_node(1, 2, 1, 9, 0, 11, true), &conn);
    plain.insert(make_node(1, 2, 2, 9, 0, 12, true), &conn);
    plain.insert(make_node(2, 3, 3, 4, 0, 21, false), &conn);
    plain.connect_eos(&conn).unwrap();

    let mut bridged = Lattice::default();
    bridged.set_global_whitespace_bridge(true);
    bridged.reset(3);
    bridged.insert(make_node(0, 1, 0, 1, 0, 1, false), &conn);
    bridged.insert(make_node(0, 1, 0, 2, 1, 2, false), &conn);
    bridged.insert(make_node(1, 2, 1, 9, 0, 11, true), &conn);
    bridged.insert(make_node(1, 2, 2, 9, 0, 12, true), &conn);
    bridged.insert(make_node(2, 3, 3, 4, 0, 21, false), &conn);
    bridged.connect_eos(&conn).unwrap();

    assert_eq!(path_word_ids(&plain), path_word_ids(&bridged));
}

#[test]
fn empty() {
    // An empty sentence: the lattice has a single boundary and no
    // candidates, so the top path has no tokens.
    let mut lattice = Lattice::default();
    lattice.reset(0);
    assert_eq!(1, lattice.boundary_count());
    let mut path: Vec<NodeIdx> = Vec::new();
    lattice.fill_top_path(&mut path);
    assert_eq!(0, path.len());
}

#[test]
fn tokenize_small_katakana_only() {
    // "ァ" is analyzed as a single candidate spanning the whole input.
    let conn = ConnectionMatrix::new(16, 16);
    let mut lattice = Lattice::default();
    lattice.reset(1);
    lattice.insert(make_node(0, 1, 5, 5, 0, 31, false), &conn);
    lattice.connect_eos(&conn).unwrap();
    assert_eq!(1, path_word_ids(&lattice).len());
}

#[test]
fn get_word_id() {
    let pos_list: Vec<Vec<&str>> = vec![
        vec!["名詞", "固有名詞", "地名", "一般", "*", "*"],
        vec!["名詞", "普通名詞", "一般", "*", "*", "*"],
    ];
    let lexicon = Lexicon::new(vec![
        vec![word_info_with("京都", 0, "キョウト", "京都")],
        vec![word_info_with("ぴらる", 1, "ピラル", "ぴらる")],
    ]);

    let wi = lexicon
        .get_word_info_subset(WordId::from_raw(0), InfoSubset::all())
        .unwrap();
    assert_eq!("京都", wi.surface);
    let pos = &pos_list[wi.pos_id as usize];
    assert_eq!(&["名詞", "固有名詞", "地名", "一般", "*", "*"], pos.as_slice());

    let piraru = WordId::new(1, 0);
    let wi = lexicon
        .get_word_info_subset(piraru, InfoSubset::all())
        .unwrap();
    assert_eq!("ぴらる", wi.surface);
    let pos = &pos_list[wi.pos_id as usize];
    assert_eq!(&["名詞", "普通名詞", "一般", "*", "*", "*"], pos.as_slice());
}

#[test]
fn get_dictionary_id() {
    // 京都 from the system dictionary.
    let wi = word_info_with("京都", 0, "キョウト", "京都");
    let resolved = ResolvedWordInfo::from_word_info(wi, WordId::new(0, 3));
    assert_eq!(0, resolved.dictionary_id);

    // ぴらる from the first user dictionary.
    let wi = word_info_with("ぴらる", 1, "ピラル", "ぴらる");
    let resolved = ResolvedWordInfo::from_word_info(wi, WordId::new(1, 0));
    assert_eq!(1, resolved.dictionary_id);

    // 京 is out of vocabulary.
    let wi = word_info_with("京", 2, "キョウ", "京");
    let oov = WordId::new(0xf, 4);
    assert!(oov.is_oov());
    let resolved = ResolvedWordInfo::from_word_info(wi, oov);
    assert!(resolved.dictionary_id < 0);
}

#[test]
fn get_synonym_group_id() {
    let mut kyoto = word_info_with("京都", 0, "キョウト", "京都");
    kyoto.synonym_group_ids = vec![1, 5];
    let piraru = word_info_with("ぴらる", 1, "ピラル", "ぴらる");
    let mut tokyofu = word_info_with("東京府", 0, "トウキョウフ", "東京府");
    tokyofu.synonym_group_ids = vec![1, 3];
    let lexicon = Lexicon::new(vec![vec![kyoto, piraru, tokyofu]]);

    let wi = lexicon
        .get_word_info_subset(WordId::new(0, 0), InfoSubset::all())
        .unwrap();
    assert_eq!([1, 5], wi.synonym_group_ids.as_slice());

    let wi = lexicon
        .get_word_info_subset(WordId::new(0, 1), InfoSubset::all())
        .unwrap();
    assert!(wi.synonym_group_ids.is_empty());

    let wi = lexicon
        .get_word_info_subset(WordId::new(0, 2), InfoSubset::all())
        .unwrap();
    assert_eq!([1, 3], wi.synonym_group_ids.as_slice());
}

#[test]
fn tokenize_kanji_alphabet_word() {
    let conn = ConnectionMatrix::new(16, 16);

    // 特a: one dictionary word spanning both codepoints.
    let mut lattice = Lattice::default();
    lattice.reset(2);
    lattice.insert(make_node(0, 2, 1, 1, 0, 1, false), &conn);
    lattice.connect_eos(&conn).unwrap();
    assert_eq!(1, path_word_ids(&lattice).len());

    // ab: one word.
    let mut lattice = Lattice::default();
    lattice.reset(2);
    lattice.insert(make_node(0, 2, 1, 1, 0, 2, false), &conn);
    lattice.connect_eos(&conn).unwrap();
    assert_eq!(1, path_word_ids(&lattice).len());

    // 特ab: 特 then ab.
    let mut lattice = Lattice::default();
    lattice.reset(3);
    lattice.insert(make_node(0, 1, 1, 1, 0, 3, false), &conn);
    lattice.insert(make_node(1, 3, 1, 1, 0, 2, false), &conn);
    lattice.connect_eos(&conn).unwrap();
    assert_eq!(2, path_word_ids(&lattice).len());
}

#[test]
fn tokenize_with_dots() {
    // 京都… : upstream normalization rewrites … to three dots, so the
    // current text has five codepoints over the three original ones.
    let input = InputBuffer::from_parts(
        chars_of("京都..."),
        chars_of("京都…"),
        vec![0, 1, 2, 3, 3, 3],
    )
    .unwrap();

    let lexicon = Lexicon::new(vec![vec![
        word_info_with("京都", 0, "キョウト", "京都"),
        word_info_with(".", 1, "", "."),
    ]]);

    let conn = ConnectionMatrix::new(16, 16);
    let mut lattice = Lattice::default();
    lattice.reset(5);
    lattice.insert(make_node(0, 2, 1, 1, 0, 0, false), &conn);
    lattice.insert(make_node(2, 3, 1, 1, 0, 1, false), &conn);
    lattice.insert(make_node(3, 4, 1, 1, 0, 1, false), &conn);
    lattice.insert(make_node(4, 5, 1, 1, 0, 1, false), &conn);
    lattice.connect_eos(&conn).unwrap();

    let spans = path_spans(&lattice);
    assert_eq!(4, spans.len());

    let surfaces: Vec<String> = spans
        .iter()
        .map(|&(b, e)| string_of(&input.orig_slice_c(b, e)))
        .collect();
    assert_eq!("…", surfaces[1]);
    assert_eq!("", surfaces[2]);
    assert_eq!("", surfaces[3]);

    let normalized: Vec<String> = path_word_ids(&lattice)
        .iter()
        .map(|&id| {
            lexicon
                .get_word_info_subset(WordId::from_raw(id), InfoSubset::all())
                .unwrap()
                .normalized_form
        })
        .collect();
    assert_eq!(".", normalized[1]);
    assert_eq!(".", normalized[2]);
    assert_eq!(".", normalized[3]);
}

#[test]
fn tokenizer_morpheme_split() {
    let input = InputBuffer::from_text(chars_of("東京都"));
    let conn = ConnectionMatrix::new(16, 16);

    // Mode C: the longest unit, one token.
    let mut lattice = Lattice::default();
    lattice.reset(3);
    lattice.insert(make_node(0, 3, 1, 1, 0, 0, false), &conn);
    lattice.connect_eos(&conn).unwrap();
    let spans = path_spans(&lattice);
    assert_eq!(1, spans.len());
    assert_eq!("東京都", string_of(&input.curr_slice_c(spans[0].0, spans[0].1)));

    // Mode A: the shortest units, 東京 and 都.
    let mut lattice = Lattice::default();
    lattice.reset(3);
    lattice.insert(make_node(0, 2, 1, 1, 0, 1, false), &conn);
    lattice.insert(make_node(2, 3, 1, 1, 0, 2, false), &conn);
    lattice.connect_eos(&conn).unwrap();
    let spans = path_spans(&lattice);
    assert_eq!(2, spans.len());
    assert_eq!("東京", string_of(&input.curr_slice_c(spans[0].0, spans[0].1)));
    assert_eq!("都", string_of(&input.curr_slice_c(spans[1].0, spans[1].1)));
}

#[test]
fn split_middle() {
    let text = "京都東京都京都";
    let input = InputBuffer::from_text(chars_of(text));
    let conn = ConnectionMatrix::new(16, 16);

    // Mode C picks 京都 / 東京都 / 京都.
    let mut tokyoto = word_info_with("東京都", 0, "トウキョウト", "東京都");
    tokyoto.a_unit_split = vec![WordId::new(0, 1), WordId::new(0, 2)];
    let lexicon = Lexicon::new(vec![vec![
        tokyoto,
        word_info_with("東京", 0, "トウキョウ", "東京"),
        word_info_with("都", 0, "ト", "都"),
        word_info_with("京都", 0, "キョウト", "京都"),
    ]]);

    let mut lattice = Lattice::default();
    lattice.reset(7);
    lattice.insert(make_node(0, 2, 1, 1, 0, 3, false), &conn);
    lattice.insert(make_node(2, 5, 1, 1, 0, 0, false), &conn);
    lattice.insert(make_node(5, 7, 1, 1, 0, 3, false), &conn);
    lattice.connect_eos(&conn).unwrap();
    let spans = path_spans(&lattice);
    assert_eq!(spans.len(), 3);
    let middle = spans[1];
    assert_eq!("東京都", string_of(&input.curr_slice_c(middle.0, middle.1)));

    // Splitting the middle token into A units yields 東京 and 都.
    let wi = lexicon
        .get_word_info_subset(WordId::from_raw(path_word_ids(&lattice)[1]), InfoSubset::all())
        .unwrap();
    let mut split_spans: Vec<(usize, usize)> = Vec::new();
    let mut split_surfaces: Vec<String> = Vec::new();
    let mut begin_c = middle.0;
    for part in &wi.a_unit_split {
        let part_info = lexicon
            .get_word_info_subset(*part, InfoSubset::all())
            .unwrap();
        let len = part_info.surface.chars().count();
        split_spans.push((begin_c, begin_c + len));
        split_surfaces.push(part_info.surface.clone());
        begin_c += len;
    }
    assert_eq!(begin_c, middle.1);
    assert_eq!(2, split_spans.len());
    assert_eq!("東京", split_surfaces[0]);
    assert_eq!(split_spans[0], (2, 4));
    assert_eq!("都", split_surfaces[1]);
    assert_eq!(split_spans[1], (4, 5));

    // Byte offsets of the split parts in the current text.
    let byte_of = |c: usize| -> usize { text.char_indices().map(|(b, _)| b).chain([text.len()]).nth(c).unwrap() };
    assert_eq!(6, byte_of(split_spans[0].0));
    assert_eq!(12, byte_of(split_spans[0].1));
    assert_eq!(12, byte_of(split_spans[1].0));
    assert_eq!(15, byte_of(split_spans[1].1));
}

#[test]
fn global_whitespace_bridge_keeps_surface_sequence_and_non_increasing_cost() {
    let text = "すもも も もも も ももの うち";
    let input = InputBuffer::from_text(chars_of(text));
    let conn_size = 16usize;
    let mut conn = ConnectionMatrix::new(conn_size, conn_size);
    // A small bigram table: word-to-word transitions are cheap, the
    // whitespace context is costly, and bridging over it recovers the
    // word-to-word cost.
    conn.update(1, 1, 10);
    conn.update(1, 9, 5);
    conn.update(9, 1, 20);

    let spans: Vec<(u16, u16, bool)> = vec![
        (0, 3, false),  // すもも
        (3, 4, true),   // space
        (4, 5, false),  // も
        (5, 6, true),   // space
        (6, 8, false),  // もも
        (8, 9, true),   // space
        (9, 10, false), // も
        (10, 11, true), // space
        (11, 14, false), // ももの
        (14, 15, true), // space
        (15, 17, false), // うち
    ];

    let run = |bridge: bool| -> (Vec<String>, i32) {
        let mut lattice = Lattice::default();
        lattice.set_global_whitespace_bridge(bridge);
        lattice.reset(17);
        for (i, &(b, e, ws)) in spans.iter().enumerate() {
            let (left, right) = if ws { (1, 9) } else { (1, 1) };
            lattice.insert(make_node(b, e, left, right, 2, i as u32, ws), &conn);
        }
        lattice.connect_eos(&conn).unwrap();
        let mut idx: Vec<NodeIdx> = Vec::new();
        lattice.fill_top_path(&mut idx);
        idx.reverse();
        let mut cost = 0;
        let mut surfaces = Vec::new();
        for i in idx {
            let (node, total) = lattice.node(i);
            surfaces.push(string_of(&input.curr_slice_c(node.begin(), node.end())));
            cost = total;
        }
        (surfaces, cost)
    };

    let (normal_surfaces, normal_cost) = run(false);
    let (bridged_surfaces, bridged_cost) = run(true);

    assert_eq!(normal_surfaces, bridged_surfaces);
    assert!(bridged_cost <= normal_cost);
}

fn best_cost(lattice: &Lattice) -> i32 {
    let mut idx: Vec<NodeIdx> = Vec::new();
    lattice.fill_top_path(&mut idx);
    lattice.node(idx[0]).1
}

/// Build a lattice over word spans, marking the whitespace ones, and
/// return the best total cost.
fn run_spans(spans: &[(u16, u16, bool)], n: usize, bridge: bool, conn: &ConnectionMatrix) -> i32 {
    let mut lattice = Lattice::default();
    lattice.set_global_whitespace_bridge(bridge);
    lattice.reset(n);
    for (i, &(b, e, ws)) in spans.iter().enumerate() {
        let (left, right) = if ws { (2, 9) } else { (1, 1) };
        lattice.insert(make_node(b, e, left, right, 1, i as u32, ws), conn);
    }
    lattice.connect_eos(conn).unwrap();
    best_cost(&lattice)
}

#[test]
fn whitespace_bridge_matches_internal_without_whitespace() {
    // Texts without any whitespace: the bridge changes nothing.
    let mut conn = ConnectionMatrix::new(16, 16);
    conn.update(1, 1, 7);
    conn.update(1, 2, 3);
    for spans in [
        vec![],
        vec![(0u16, 2u16, false), (2, 4, false)],
        vec![(0, 1, false), (1, 2, false), (2, 4, false)],
        vec![(0, 4, false)],
    ] {
        if spans.is_empty() {
            continue;
        }
        let plain = run_spans(&spans, 4, false, &conn);
        let bridged = run_spans(&spans, 4, true, &conn);
        assert_eq!(plain, bridged, "spans={spans:?}");
    }
}

#[test]
fn whitespace_bridge_cost_is_not_greater_than_internal() {
    // Texts with whitespace in several shapes: bridging never costs more.
    let mut conn = ConnectionMatrix::new(16, 16);
    conn.update(1, 1, 2);
    conn.update(1, 2, 1);
    conn.update(9, 1, 50);
    for spans in [
        vec![(0u16, 2u16, false), (2, 3, true), (3, 5, false)],
        vec![(0, 1, false), (1, 2, true), (2, 3, false), (3, 4, true), (4, 5, false)],
        vec![(0, 2, false), (2, 4, true), (4, 5, false)],
    ] {
        let plain = run_spans(&spans, 5, false, &conn);
        let bridged = run_spans(&spans, 5, true, &conn);
        assert!(bridged <= plain, "spans={spans:?} plain={plain} bridged={bridged}");
    }
}

#[test]
fn global_bridge_non_increasing_internal_cost_in_stateful_tokenizer() {
    // The same analysis run with the global bridge off and then on: the
    // internal cost never increases.
    let mut conn = ConnectionMatrix::new(16, 16);
    conn.update(1, 1, 4);
    conn.update(1, 2, 0);
    conn.update(9, 1, 30);
    let spans = [
        (0u16, 2u16, false), // 私は
        (2, 3, true),
        (3, 5, false), // 東京
        (5, 6, true),
        (6, 8, false), // 大学
        (8, 9, true),
        (9, 10, false), // へ
        (10, 11, true),
        (11, 13, false), // 行く
    ];
    let normal = run_spans(&spans, 13, false, &conn);
    let bridged = run_spans(&spans, 13, true, &conn);
    assert!(bridged <= normal, "normal={normal}, bridged={bridged}");
}

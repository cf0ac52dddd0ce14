use laya_snake::ai::{
    build_prompt, by_direction, checkpoint_dir, checkpoint_subfolder, download_base, neutral_key, random_key_order,
    unavailable_reason, PromptError,
};
use laya_snake::game::{Dir, GameSnapshot, Point, Rules, SnakeGame};
use laya_snake::sequence::{assemble_choice_sequence, build_choice_sequence, choice_texts, SequenceError, SpecialToken, Specials};
use laya_snake::text::parse_unsigned_text;
use std::collections::VecDeque;
use std::str::FromStr;

fn rock_walled_game() -> SnakeGame {
    let mut g = SnakeGame::with_rules(12, 9, Rules { foods: 1, obstacles: false });
    g.snake = VecDeque::from([Point { x: 4, y: 4 }, Point { x: 3, y: 4 }, Point { x: 2, y: 4 }]);
    g.foods = vec![Point { x: 7, y: 4 }];
    g
}

#[test]
fn prompt_lists_each_key_with_its_move() {
    let snap = GameSnapshot::from_game(&rock_walled_game());
    let p = build_prompt(&snap, [Dir::Up, Dir::Down, Dir::Left, Dir::Right]).unwrap();
    assert_eq!(
        p.instructions,
        "Pick the option that moves closer to the food and is not marked UNSAFE.\n\
         k0: moves farther from the food. Safe.\n\
         k1: moves farther from the food. Safe.\n\
         k2: moves farther from the food. UNSAFE: ends the game immediately.\n\
         k3: moves closer to the food. Safe."
    );
    assert_eq!(p.state, "Snake head at (4,4). Food at (7,4). Snake length=3.");
    assert_eq!(p.key_to_dir, [Dir::Up, Dir::Down, Dir::Left, Dir::Right]);

    let p = build_prompt(&snap, [Dir::Right, Dir::Left, Dir::Down, Dir::Up]).unwrap();
    assert!(p.instructions.ends_with("k0: moves closer to the food. Safe.\nk1: moves farther from the food. UNSAFE: ends the game immediately.\nk2: moves farther from the food. Safe.\nk3: moves farther from the food. Safe."));
}

#[test]
fn prompt_needs_food() {
    let mut g = rock_walled_game();
    g.foods.clear();
    let snap = GameSnapshot::from_game(&g);
    assert!(matches!(build_prompt(&snap, Dir::ALL), Err(PromptError::NoFood)));
}

#[test]
fn prompt_numbers_can_be_negative() {
    // A head pushed off the board (a fatal move executed with the shield off) prints as it is.
    let mut g = rock_walled_game();
    g.snake = VecDeque::from([Point { x: -1, y: 4 }, Point { x: 0, y: 4 }, Point { x: 1, y: 4 }]);
    let snap = GameSnapshot::from_game(&g);
    let p = build_prompt(&snap, Dir::ALL).unwrap();
    assert_eq!(p.state, "Snake head at (-1,4). Food at (7,4). Snake length=3.");
}

#[test]
fn key_order_is_random_and_complete() {
    let mut seen_other = false;
    for _ in 0..200 {
        let o = random_key_order();
        let mut sorted: Vec<usize> = o.iter().map(|d| d.index()).collect();
        sorted.sort();
        assert_eq!(sorted, vec![0, 1, 2, 3]);
        if o != Dir::ALL {
            seen_other = true;
        }
    }
    assert!(seen_other, "the key order never changed");
}

#[test]
fn answers_by_key_go_back_to_directions() {
    let by_key = vec![10, 11, 12, 13];
    assert_eq!(by_direction(&by_key, [Dir::Right, Dir::Up, Dir::Left, Dir::Down], 0), [11, 13, 12, 10]);
    assert_eq!(by_direction(&by_key, [Dir::Up, Dir::Up, Dir::Left, Dir::Left], -1), [11, -1, 13, -1]);
    assert_eq!(neutral_key(2), "k2");
}

#[test]
fn checkpoint_names() {
    assert_eq!(checkpoint_dir("root"), "models/laya-root");
    assert_eq!(checkpoint_dir("multilingual"), "models/laya-multilingual");
    assert_eq!(checkpoint_dir("typed"), "models/laya-typed-decisions");
    assert_eq!(checkpoint_dir("other"), "models/laya-root");
    assert_eq!(checkpoint_subfolder("root"), Some(""));
    assert_eq!(checkpoint_subfolder("typed"), Some("typed-decisions/"));
    assert_eq!(checkpoint_subfolder("bogus"), None);
    assert_eq!(
        download_base("convaiinnovations/laya//", "multilingual/"),
        "https://huggingface.co/convaiinnovations/laya/resolve/main/multilingual/"
    );
    assert_eq!(unavailable_reason(true), None);
    assert_eq!(unavailable_reason(false), Some("CPU lacks AVX2/FMA/F16C"));
}

#[test]
fn unsigned_numbers_parse_like_str_parse() {
    assert_eq!(parse_unsigned_text("42", u64::MAX), Some(42));
    assert_eq!(parse_unsigned_text("+7", u64::MAX), Some(7));
    assert_eq!(parse_unsigned_text("", u64::MAX), None);
    assert_eq!(parse_unsigned_text("+", u64::MAX), None);
    assert_eq!(parse_unsigned_text("-1", u64::MAX), None);
    assert_eq!(parse_unsigned_text("1 ", u64::MAX), None);
    assert_eq!(parse_unsigned_text("65535", 65535), Some(65535));
    assert_eq!(parse_unsigned_text("65536", 65535), None);
    assert_eq!(parse_unsigned_text("18446744073709551615", u64::MAX), Some(u64::MAX));
    assert_eq!(parse_unsigned_text("18446744073709551616", u64::MAX), None);
}

fn specials() -> Specials {
    Specials { cls: 1, sep: 2, mask: 3 }
}

#[test]
fn sequence_lays_out_head_markers_and_state() {
    let e = assemble_choice_sequence(&specials(), vec![10, 11], vec![vec![20], vec![21, 22]], vec![30], 64, 64).unwrap();
    assert_eq!(e.ids, vec![1, 10, 11, 2, 3, 20, 3, 21, 22, 2, 30, 2]);
    assert_eq!(e.markers, vec![4, 6]);
}

#[test]
fn sequence_is_cut_at_max_len() {
    let e = assemble_choice_sequence(&specials(), vec![10, 11], vec![vec![20], vec![21, 22]], vec![30, 31, 32], 10, 64).unwrap();
    assert_eq!(e.ids, vec![1, 10, 11, 2, 3, 20, 3, 21, 22, 2]);
    assert_eq!(e.markers, vec![4, 6]);
}

#[test]
fn sequence_reports_markers_that_do_not_fit() {
    let r = assemble_choice_sequence(&specials(), vec![10, 11], vec![vec![20], vec![21, 22]], vec![30], 5, 64);
    assert!(matches!(r, Err(SequenceError::OptionsDoNotFit { head_max_len: 64, kept: 1, total: 2 })));
}

#[test]
fn long_options_are_shrunk_evenly() {
    // Two options of 30 tokens leave no room for the instructions in 40 tokens: each is cut to
    // (40 - 16) / 2 = 12 tokens with its marker, and the instructions keep the 16 left over.
    let body: Vec<u32> = (100..130).collect();
    let head: Vec<u32> = (50..70).collect();
    let e = assemble_choice_sequence(&specials(), head, vec![body.clone(), body], vec![], 128, 40).unwrap();
    let mut start = vec![1];
    start.extend(50..66);
    start.push(2);
    assert_eq!(&e.ids[..18], &start[..]);
    assert_eq!(e.markers, vec![18, 30]);
    assert_eq!(e.ids.len(), 18 + 24 + 2);
    assert_eq!(&e.ids[18..22], &[3, 100, 101, 102]);
}

#[test]
fn specials_need_all_three_tokens() {
    assert_eq!(Specials::from_ids(Some(1), Some(2), Some(3)), Ok(specials()));
    assert_eq!(Specials::from_ids(None, None, Some(3)), Err(SequenceError::MissingToken(SpecialToken::Cls)));
    assert_eq!(Specials::from_ids(Some(1), None, None), Err(SequenceError::MissingToken(SpecialToken::Sep)));
    assert_eq!(Specials::from_ids(Some(1), Some(2), None), Err(SequenceError::MissingToken(SpecialToken::Mask)));
}

fn word_tokenizer() -> tokenizers::Tokenizer {
    let json = r#"{
        "version": "1.0",
        "truncation": null,
        "padding": null,
        "added_tokens": [],
        "normalizer": null,
        "pre_tokenizer": {"type": "WhitespaceSplit"},
        "post_processor": null,
        "decoder": null,
        "model": {
            "type": "WordLevel",
            "vocab": {"[UNK]": 0, "[CLS]": 1, "[SEP]": 2, "[MASK]": 3, "choice": 4, "question:": 5,
                      "go": 6, "k0": 7, "k1": 8, "state": 9},
            "unk_token": "[UNK]"
        }
    }"#;
    tokenizers::Tokenizer::from_str(json).unwrap()
}

#[test]
fn choice_sequence_from_text() {
    let tok = word_tokenizer();
    let sp = Specials::resolve(&tok).unwrap();
    assert_eq!(sp, specials());
    // A literal [MASK] in the text is blanked out before tokenizing.
    let e = build_choice_sequence(&tok, &sp, "go [MASK]", &["k0", "k1"], "state", 64, 48).unwrap();
    assert_eq!(e.ids, vec![1, 4, 5, 6, 2, 3, 7, 3, 8, 2, 9, 2]);
    assert_eq!(e.markers, vec![5, 7]);
    assert!(matches!(build_choice_sequence(&tok, &sp, "go", &[], "state", 64, 48), Err(SequenceError::NoOptions)));
}

#[test]
fn choice_texts_are_scrubbed_and_prefixed() {
    let t = choice_texts("pick [MASK] one", &["[MASK]", "left"], "board [MASK]");
    assert_eq!(t.head, "choice question: pick   one");
    assert_eq!(t.options, vec!["  ".to_string(), " left".to_string()]);
    assert_eq!(t.state, "board  ");
}

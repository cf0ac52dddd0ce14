use laya_snake::frame::{frame_layout, DrawOp, FrameView, Tone};
use laya_snake::game::{Dir, Point};

fn view() -> FrameView {
    let p = |x: i32, y: i32| Point { x, y };
    FrameView {
        width: 10,
        height: 8,
        snake: vec![p(5, 4), p(4, 4), p(3, 4)],
        direction: Dir::Right,
        foods: vec![p(7, 2)],
        obstacles: vec![p(2, 6)],
        score: 7,
        best: 12,
        game_over: false,
        paused: false,
        speed_level: 2,
        round: 3,
        interventions: 1,
        shield_enabled: true,
        checkpoint: "ckpt".to_string(),
        engine: "Rust".to_string(),
        device: "CPU".to_string(),
        fill_bar: "█".repeat(3) + &"-".repeat(21),
        fill_pct: "12.5".to_string(),
        trail: vec![Dir::Up, Dir::Right],
        prob_bars: vec!["a".into(), "b".into(), "c".into(), "d".into()],
        prob_texts: vec!["0.10".into(), "0.20".into(), "0.30".into(), "0.40".into()],
        chosen: Some(Dir::Right),
        intervened: true,
        thinking: None,
        risk_bar: "r".to_string(),
        risk_text: "0.25".to_string(),
        reach_bar: "f".to_string(),
        reach_text: "1.00".to_string(),
        inference_text: "   12.5".to_string(),
        rate_text: "   3.00".to_string(),
        error: None,
        elapsed_secs: 65,
    }
}

fn find<'a>(ops: &'a [DrawOp], x: u16, y: u16) -> Vec<&'a DrawOp> {
    ops.iter().filter(|o| o.x == x && o.y == y).collect()
}

#[test]
fn small_terminal_gets_one_line() {
    let ops = frame_layout(&view(), 63, 40);
    assert_eq!(ops.len(), 1);
    assert_eq!(
        ops[0].text,
        "Terminal too small (63x40). Need >= 64x20. Press '-' or resize. Q quits."
    );
    assert_eq!((ops[0].x, ops[0].y, ops[0].tone), (0, 0, Tone::White));
    assert_eq!(frame_layout(&view(), 100, 19).len(), 1);
}

#[test]
fn frame_places_board_and_panel() {
    let ops = frame_layout(&view(), 100, 40);
    assert!(ops.len() > 1);
    assert!(ops.iter().all(|o| !o.reverse));
    // Board edges and rows.
    assert_eq!(find(&ops, 3, 5)[0].text, format!("┌{}┐", "─".repeat(20)));
    assert_eq!(find(&ops, 3, 14)[0].text, format!("└{}┘", "─".repeat(20)));
    let row = find(&ops, 4, 6);
    assert_eq!(row[0].text, "· · · · · · · · · ·");
    // Status line, round and score row.
    assert_eq!(find(&ops, 72, 0)[0].text, "LIVE · L3/5 · 10x8");
    assert_eq!(find(&ops, 72, 0)[0].tone, Tone::Green);
    assert_eq!(find(&ops, 30, 4)[0].text, "ROUND 03");
    assert_eq!(find(&ops, 4, 16)[0].text, "007");
    assert_eq!(find(&ops, 16, 16)[0].text, "003");
    assert_eq!(find(&ops, 30, 16)[0].text, "012");
    assert_eq!(find(&ops, 30, 18)[0].text, "12.5%");
    assert_eq!(find(&ops, 4, 20)[0].text, "↑ →");
    // The snake, tail first, then rocks and foods.
    let head = find(&ops, 14, 10);
    assert_eq!((head[0].text.as_str(), head[0].tone), ("▶", Tone::White));
    assert_eq!(find(&ops, 12, 10)[0].text, "█");
    assert_eq!(find(&ops, 10, 10)[0].text, "▓");
    let tail_at = ops.iter().position(|o| (o.x, o.y) == (10, 10)).unwrap();
    let head_at = ops.iter().position(|o| (o.x, o.y) == (14, 10)).unwrap();
    assert!(tail_at < head_at);
    assert_eq!(find(&ops, 8, 12)[0].text, "▲");
    assert_eq!(find(&ops, 18, 8)[0].text, "●");
    // The panel.
    assert_eq!(find(&ops, 28, 2)[0].text, "Laya  ckpt");
    assert_eq!(find(&ops, 28, 3)[0].text, "Rust · CPU · Local");
    assert_eq!(find(&ops, 28, 10)[0].text, ">");
    assert_eq!(find(&ops, 30, 10)[0].text, "RIGHT");
    assert_eq!(find(&ops, 28, 7)[0].text, " ");
    assert_eq!(find(&ops, 38, 8)[0].text, "b");
    assert_eq!(find(&ops, 54, 9)[0].text, "0.30");
    assert_eq!(find(&ops, 40, 12)[0].text, format!("{:<8}{:<20}", "right", "shield override"));
    assert_eq!(find(&ops, 44, 20)[0].text, "   12.5 ms");
    assert_eq!(find(&ops, 44, 21)[0].text, "   3.00 /s");
    assert_eq!(find(&ops, 38, 27)[0].text, "ON");
    assert_eq!(find(&ops, 50, 28)[0].text, "0001");
    assert_eq!(find(&ops, 93, 39)[0].text, "01:05");
}

#[test]
fn game_over_banner_and_error_line() {
    let mut v = view();
    v.game_over = true;
    v.shield_enabled = false;
    v.thinking = Some("1.5".to_string());
    v.error = Some("x".repeat(40));
    let ops = frame_layout(&v, 100, 40);
    assert_eq!(find(&ops, 72, 0)[0].text, "GAME OVER · L3/5 · 10x8");
    assert_eq!(find(&ops, 72, 0)[0].tone, Tone::Red);
    let banner = *find(&ops, 12, 10).last().unwrap();
    assert_eq!(banner.text, " GAME OVER - R restart, Q quit ");
    assert!(banner.reverse);
    assert_eq!(find(&ops, 28, 30)[0].text, format!("model error: {}", "x".repeat(32)));
    assert_eq!(find(&ops, 38, 27)[0].text, "OFF (raw model)");
    assert_eq!(find(&ops, 40, 12)[0].text, format!("{:<8}{:<20}", "right", "thinking... 1.5s"));
}

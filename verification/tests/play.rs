use laya_snake::controls::{
    apply_command, direction_glyph, dir_name, fit_dims, handle_key, parse_command, scaled_dims, trail_glyph,
    web_command, Command, Controls, Effect, Key, KeyEffect, MIN_H, MIN_W, SPEED_LEVELS_MS,
};
use laya_snake::game::{Dir, Point, SnakeGame};
use laya_snake::pacing::{redraw_due, restart_due, state_update_due, Answer, Pacer};
use laya_snake::session::{
    death_cause, end_after_move, finish_round, info, is_mock, push_bounded, BrainInfo, Round, RoundEnd, RoundRow, Tally,
};
use laya_snake::shield::{apply_shield, rank_moves};
use std::collections::VecDeque;

/// Order keys of model probabilities: for non-negative numbers the bit patterns order as the
/// numbers do.
fn keys(probs: [f64; 4]) -> [u64; 4] {
    [probs[0].to_bits(), probs[1].to_bits(), probs[2].to_bits(), probs[3].to_bits()]
}

#[test]
fn fit_dims_survives_tiny_terminals() {
    for cols in [0u16, 10, 40, 53, 54, 60, 200] {
        for rows in [0u16, 5, 19, 20, 24, 80] {
            let (w, h) = fit_dims(cols, rows, 24, 14);
            assert!(w >= MIN_W && h >= MIN_H, "{cols}x{rows} -> {w}x{h}");
        }
    }
    assert_eq!(fit_dims(200, 80, 24, 14), (24, 14));
}

#[test]
fn fit_dims_shrinks_to_the_terminal() {
    // 80 columns leave (80 - 44) / 2 = 18 board columns; 24 rows leave 12 board rows.
    assert_eq!(fit_dims(80, 24, 24, 14), (18, 12));
    // A wish under the minimum is raised to it once the terminal size is known.
    assert_eq!(fit_dims(200, 80, 4, 3), (MIN_W, MIN_H));
    // An unknown terminal size leaves the wish alone.
    assert_eq!(fit_dims(0, 0, 4, 3), (4, 3));
}

#[test]
fn scaled_dims_steps_and_stops_at_the_minimum() {
    assert_eq!(scaled_dims(200, 80, 24, 14, true), (28, 16));
    assert_eq!(scaled_dims(200, 80, 24, 14, false), (20, 12));
    assert_eq!(scaled_dims(200, 80, 11, 9, false), (MIN_W, MIN_H));
    assert_eq!(scaled_dims(80, 24, 24, 14, true), (18, 12));
}

#[test]
fn shield_takes_the_best_safe_move_and_reports_the_override() {
    let mut g = SnakeGame::new(24, 14);
    g.snake = VecDeque::from([Point { x: 0, y: 5 }, Point { x: 1, y: 5 }, Point { x: 2, y: 5 }]);
    g.foods = vec![Point { x: 10, y: 5 }];
    // Left is a wall. The model likes it best, then Up, then Down.
    let k = keys([0.2, 0.1, 0.6, 0.1]);
    assert_eq!(apply_shield(&k, Dir::Left, &g, true), (Dir::Up, true));
    assert_eq!(apply_shield(&k, Dir::Left, &g, false), (Dir::Left, false));
    // Right runs into the snake's own body, so it is overridden too.
    let k = keys([0.1, 0.1, 0.1, 0.7]);
    assert_eq!(apply_shield(&k, Dir::Right, &g, true), (Dir::Up, true));
    // A safe favourite is left alone.
    let k = keys([0.1, 0.7, 0.1, 0.1]);
    assert_eq!(apply_shield(&k, Dir::Down, &g, true), (Dir::Down, false));
}

#[test]
fn shield_ties_go_to_the_models_own_choice() {
    let mut g = SnakeGame::new(24, 14);
    g.foods = vec![Point { x: 20, y: 2 }];
    let k = keys([0.25, 0.25, 0.25, 0.25]);
    assert_eq!(apply_shield(&k, Dir::Down, &g, true), (Dir::Down, false));
}

#[test]
fn shield_keeps_a_fatal_pick_when_every_move_is_fatal() {
    let mut g = SnakeGame::new(24, 14);
    // Head in the corner, boxed in by its own body.
    g.snake = VecDeque::from([
        Point { x: 0, y: 0 },
        Point { x: 1, y: 0 },
        Point { x: 1, y: 1 },
        Point { x: 0, y: 1 },
        Point { x: 0, y: 2 },
    ]);
    g.foods = vec![Point { x: 10, y: 10 }];
    let k = keys([0.1, 0.2, 0.3, 0.4]);
    assert_eq!(apply_shield(&k, Dir::Right, &g, true), (Dir::Right, false));
}

#[test]
fn ranking_is_stable_on_ties() {
    let k = keys([0.3, 0.3, 0.1, 0.3]);
    assert_eq!(rank_moves(&k, Dir::Right), [Dir::Right, Dir::Up, Dir::Down, Dir::Left]);
    assert_eq!(rank_moves(&k, Dir::Left), [Dir::Up, Dir::Down, Dir::Right, Dir::Left]);
}

#[test]
fn glyphs_and_names() {
    assert_eq!(direction_glyph(Dir::Up), "▲");
    assert_eq!(direction_glyph(Dir::Right), "▶");
    assert_eq!(trail_glyph(Dir::Left), "←");
    assert_eq!(trail_glyph(Dir::Down), "↓");
    assert_eq!(dir_name(Dir::Left), "left");
}

#[test]
fn keys_flip_switches_and_ask_for_the_rest() {
    let mut c = Controls::new();
    assert_eq!(handle_key(&mut c, Key::Char(' ')), KeyEffect::Continue);
    assert!(c.paused);
    assert_eq!(handle_key(&mut c, Key::Char('S')), KeyEffect::Continue);
    assert!(!c.shield_enabled);
    for _ in 0..5 {
        handle_key(&mut c, Key::Up);
    }
    assert_eq!(c.speed_level, 4);
    for _ in 0..7 {
        handle_key(&mut c, Key::Down);
    }
    assert_eq!(c.speed_level, 0);
    assert_eq!(handle_key(&mut c, Key::Char('q')), KeyEffect::Quit);
    assert_eq!(handle_key(&mut c, Key::Esc), KeyEffect::Quit);
    assert_eq!(handle_key(&mut c, Key::Char('r')), KeyEffect::Reset);
    assert_eq!(handle_key(&mut c, Key::Char('+')), KeyEffect::Grow);
    assert_eq!(handle_key(&mut c, Key::Char('_')), KeyEffect::Shrink);
    assert_eq!(handle_key(&mut c, Key::Char('O')), KeyEffect::ToggleObstacles);
    assert_eq!(handle_key(&mut c, Key::Char('x')), KeyEffect::Continue);
    assert_eq!(handle_key(&mut c, Key::Other), KeyEffect::Continue);
    assert_eq!(SPEED_LEVELS_MS[c.speed_level], 1500);
}

#[test]
fn dashboard_commands_parse() {
    assert_eq!(parse_command("pause"), Some(Command::Pause));
    assert_eq!(parse_command("reset/anything"), Some(Command::Reset));
    assert_eq!(parse_command("speed/3"), Some(Command::Speed(2)));
    assert_eq!(parse_command("speed/+5"), Some(Command::Speed(4)));
    assert_eq!(parse_command("speed/6"), None);
    assert_eq!(parse_command("speed/0"), None);
    assert_eq!(parse_command("speed"), None);
    assert_eq!(parse_command("size/30x18"), Some(Command::Size(30, 18)));
    assert_eq!(parse_command("size/30x18/extra"), Some(Command::Size(30, 18)));
    assert_eq!(parse_command("size/30"), None);
    assert_eq!(parse_command("size/30xabc"), None);
    assert_eq!(parse_command("food/12"), Some(Command::Food(12)));
    assert_eq!(parse_command("food/13"), None);
    assert_eq!(parse_command("obstacles"), Some(Command::Obstacles));
    assert_eq!(parse_command("jump"), None);
    assert_eq!(parse_command(""), None);
}

#[test]
fn dashboard_commands_apply() {
    let mut c = Controls::new();
    assert_eq!(web_command(&mut c, 24, 14, "faster"), Some(Effect::Nothing));
    assert_eq!(c.speed_level, 3);
    assert_eq!(web_command(&mut c, 24, 14, "auto"), Some(Effect::Nothing));
    assert!(!c.auto_restart);
    assert_eq!(web_command(&mut c, 24, 14, "grow"), Some(Effect::Resize(28, 16)));
    assert_eq!(web_command(&mut c, 62, 39, "grow"), Some(Effect::Resize(64, 40)));
    assert_eq!(web_command(&mut c, 11, 9, "shrink"), Some(Effect::Resize(10, 8)));
    assert_eq!(web_command(&mut c, 24, 14, "size/500x2"), Some(Effect::Resize(64, 8)));
    assert_eq!(web_command(&mut c, 24, 14, "reset"), Some(Effect::Reset));
    let before = c;
    assert_eq!(web_command(&mut c, 24, 14, "nonsense"), None);
    assert_eq!(c, before);
    assert_eq!(apply_command(&mut c, 24, 14, Command::Speed(0)), Effect::Nothing);
    assert_eq!(c.speed_level, 0);
    assert_eq!(apply_command(&mut c, 24, 14, Command::Food(3)), Effect::Foods(3));
    assert_eq!(apply_command(&mut c, 24, 14, Command::Obstacles), Effect::ToggleObstacles);
}

#[test]
fn stale_answers_after_a_reset_are_ignored() {
    let mut p = Pacer::new(0);
    assert!(p.dispatch_if_idle(false, 0));
    // A second request never goes out while the first is in flight.
    assert!(!p.dispatch_if_idle(false, 5));
    p.reset(10);
    // The answer to the request made before the reset is stale.
    assert_eq!(p.take_answer(0, true, 20), Answer::Stale);
    assert!(!p.move_due(20));
    // The new position is asked about right away.
    assert!(p.dispatch_if_idle(false, 10));
    assert_eq!(p.take_answer(1, true, 30), Answer::Accepted);
    assert!(p.move_due(30));
}

#[test]
fn model_time_overlaps_the_pacing_delay() {
    let mut p = Pacer::new(0);
    assert!(p.dispatch_if_idle(false, 0));
    assert_eq!(p.take_answer(0, true, 150), Answer::Accepted);
    assert!(p.move_due(150));
    p.moved(150, 200);
    // The next request goes out as soon as the move lands ...
    assert!(p.dispatch_if_idle(false, 150));
    assert_eq!(p.take_answer(0, true, 300), Answer::Accepted);
    // ... but the move waits for the delay.
    assert!(!p.move_due(300));
    assert!(p.move_due(350));
}

#[test]
fn mashing_reset_never_freezes_the_game() {
    // Every reset leaves the game free to ask about the new position at once, and only the
    // answer for the newest position lines a move up.
    let mut p = Pacer::new(0);
    assert!(p.dispatch_if_idle(false, 0));
    for t in 1..=5u64 {
        p.reset(t);
        assert!(p.dispatch_if_idle(false, t));
    }
    for old in 0..5u64 {
        assert_eq!(p.take_answer(old, true, 10), Answer::Stale);
    }
    assert_eq!(p.take_answer(5, true, 10), Answer::Accepted);
    assert!(p.move_due(10));
}

#[test]
fn a_failed_model_call_backs_off() {
    let mut p = Pacer::new(0);
    assert!(p.dispatch_if_idle(false, 0));
    assert_eq!(p.take_answer(0, false, 100), Answer::Failed);
    assert!(!p.dispatch_if_idle(false, 500));
    assert!(p.dispatch_if_idle(false, 1100));
    // Nothing is asked about a finished game.
    let mut q = Pacer::new(0);
    assert!(!q.dispatch_if_idle(true, 0));
}

#[test]
fn auto_restart_waits_for_the_delay() {
    assert!(!restart_due(true, false, 1000, 3000));
    assert!(restart_due(true, false, 1000, 3500));
    assert!(!restart_due(true, true, 1000, 9000));
    assert!(!restart_due(false, false, 1000, 9000));
}

#[test]
fn deaths_are_told_apart() {
    let mut g = SnakeGame::new(24, 14);
    g.snake = VecDeque::from([Point { x: 0, y: 5 }, Point { x: 1, y: 5 }, Point { x: 2, y: 5 }]);
    g.foods = vec![Point { x: 10, y: 5 }];
    assert_eq!(death_cause(&g, Dir::Left), Some(RoundEnd::Wall));
    assert_eq!(death_cause(&g, Dir::Right), Some(RoundEnd::Itself));
    assert_eq!(death_cause(&g, Dir::Up), None);
    g.set_obstacles(vec![Point { x: 0, y: 4 }]);
    assert_eq!(death_cause(&g, Dir::Up), Some(RoundEnd::Rock));
    assert_eq!(RoundEnd::Rock.label(), "rock");
    assert_eq!(RoundEnd::Itself.label(), "self");
    assert_eq!(RoundEnd::BoardFull.label(), "board full");
    assert_eq!(end_after_move(None, false), Some(RoundEnd::BoardFull));
    assert_eq!(end_after_move(None, true), None);
    assert_eq!(end_after_move(Some(RoundEnd::Wall), false), Some(RoundEnd::Wall));
}

#[test]
fn counts_follow_the_moves() {
    let mut t = Tally::new();
    t.record_move(Dir::Left, true, false, None);
    t.record_move(Dir::Left, false, true, Some(RoundEnd::Wall));
    t.record_move(Dir::Up, false, false, Some(RoundEnd::Itself));
    t.record_move(Dir::Down, false, false, Some(RoundEnd::Rock));
    t.record_error();
    assert_eq!((t.decisions, t.interventions, t.food, t.model_errors), (4, 1, 1, 1));
    assert_eq!((t.deaths_wall, t.deaths_rock, t.deaths_self), (1, 1, 1));
    assert_eq!(t.dir_counts, [1, 1, 2, 0]);

    let mut r = Round::new(1);
    assert!(!r.finish(), "a round with no moves is not written");
    r.record_move(true);
    r.record_move(false);
    assert_eq!((r.decisions, r.interventions), (2, 1));
    assert!(r.finish());
    assert!(!r.finish(), "a round is written once");
    assert_eq!(r.next(), Round::new(2));
}

#[test]
fn histories_keep_the_newest() {
    let mut h: VecDeque<u32> = VecDeque::new();
    for i in 0..10 {
        push_bounded(&mut h, i, 4);
    }
    assert_eq!(h, VecDeque::from([6, 7, 8, 9]));
}

#[test]
fn mock_runs_are_labelled() {
    let m = info();
    assert!(is_mock(&m));
    assert_eq!(m.engine, "MOCK heuristic (no model)");
    let real = BrainInfo { checkpoint: "laya-root".to_string(), engine: "fast".to_string(), device: "CPU".to_string() };
    assert!(!is_mock(&real));
}

#[test]
fn screens_refresh_only_when_needed() {
    assert!(redraw_due(true, false, false, 0));
    assert!(redraw_due(false, true, false, 0));
    assert!(!redraw_due(false, false, true, 99));
    assert!(redraw_due(false, false, true, 100));
    assert!(!redraw_due(false, false, false, 999));
    assert!(redraw_due(false, false, false, 1000));
    assert!(state_update_due(true, false, 0));
    assert!(!state_update_due(false, true, 99));
    assert!(state_update_due(false, true, 100));
    assert!(!state_update_due(false, false, 249));
    assert!(state_update_due(false, false, 250));
}

#[test]
fn a_round_is_written_once() {
    let g = SnakeGame::new(24, 14);
    let mut rounds: VecDeque<(RoundRow, u8)> = VecDeque::new();
    let mut r = Round::new(4);
    assert!(!finish_round(&mut r, &mut rounds, &g, RoundEnd::Reset, 0));
    assert!(rounds.is_empty());
    r.record_move(false);
    r.record_move(true);
    assert!(finish_round(&mut r, &mut rounds, &g, RoundEnd::Wall, 1));
    assert!(!finish_round(&mut r, &mut rounds, &g, RoundEnd::Wall, 2));
    assert_eq!(rounds.len(), 1);
    let (row, extra) = rounds[0];
    assert_eq!(extra, 1);
    assert_eq!((row.round, row.width, row.height, row.score, row.length), (4, 24, 14, 0, 3));
    assert_eq!((row.decisions, row.interventions, row.cause), (2, 1, RoundEnd::Wall));
    // The history keeps the latest hundred rows.
    for n in 5..205 {
        let mut r = Round::new(n);
        r.record_move(false);
        finish_round(&mut r, &mut rounds, &g, RoundEnd::Itself, 0);
    }
    assert_eq!(rounds.len(), 100);
    assert_eq!(rounds[0].0.round, 105);
    assert_eq!(rounds[99].0.round, 204);
}

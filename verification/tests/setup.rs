use laya_snake::ai::EnginePref;
use laya_snake::cli::{ArgNote, Args};
use laya_snake::game::{Dir, Point};
use laya_snake::scenarios::{scenarios, shuffle_keys, Lcg, SCENARIO_H, SCENARIO_W};

fn words(ws: &[&str]) -> Vec<String> {
    ws.iter().map(|w| w.to_string()).collect()
}

#[test]
fn no_arguments_give_the_defaults() {
    let p = Args::parse(&Vec::new());
    assert!(!p.help);
    assert!(p.notes.is_empty());
    let a = p.args;
    assert_eq!(a.model, "convaiinnovations/laya");
    assert_eq!(a.checkpoint, "root");
    assert_eq!((a.width, a.height), (32, 20));
    assert_eq!(a.threads, None);
    assert_eq!(a.engine, EnginePref::Auto);
    assert_eq!((a.bench, a.verify, a.web), (None, None, None));
    assert_eq!(a.host, "127.0.0.1");
    assert!(!a.mock);
}

#[test]
fn options_take_their_values() {
    let p = Args::parse(&words(&[
        "--width", "40", "--height", "x", "--threads", "0", "--engine", "candle", "--bench", "--mock", "--web", "9000",
        "--foo", "--model", "/tmp/m", "--checkpoint", "typed", "--host", "0.0.0.0",
    ]));
    assert!(!p.help);
    let a = &p.args;
    assert_eq!((a.width, a.height), (40, 20));
    assert_eq!(a.threads, None);
    assert_eq!(a.engine, EnginePref::Candle);
    assert_eq!(a.bench, Some(12));
    assert!(a.mock);
    assert_eq!(a.web, Some(9000));
    assert_eq!(a.model, "/tmp/m");
    assert_eq!(a.checkpoint, "typed");
    assert_eq!(a.host, "0.0.0.0");
    assert_eq!(p.notes.len(), 1);
    assert!(matches!(&p.notes[0], ArgNote::Unknown(w) if w == "--foo"));
}

#[test]
fn counts_after_flags_are_optional() {
    let a = Args::parse(&words(&["--bench", "5", "--verify", "--web", "70000", "--threads", "3"])).args;
    assert_eq!(a.bench, Some(5));
    assert_eq!(a.verify, Some(24));
    // 70000 is no port: the default port is used and the word is read as an argument.
    assert_eq!(a.web, Some(8080));
    assert_eq!(a.threads, Some(3));
}

#[test]
fn help_stops_reading() {
    let p = Args::parse(&words(&["--engine", "turbo", "--verify", "5", "-h", "--mock"]));
    assert!(p.help);
    assert_eq!(p.args.verify, Some(5));
    assert!(!p.args.mock);
    assert_eq!(p.notes.len(), 1);
    assert!(matches!(&p.notes[0], ArgNote::BadEngine(Some(w)) if w == "turbo"));
    let p = Args::parse(&words(&["--engine"]));
    assert!(matches!(&p.notes[0], ArgNote::BadEngine(None)));
    assert_eq!(p.args.engine, EnginePref::Auto);
}

/// The key order drawn from seed 42, worked out by hand-rolled Fisher-Yates on the same generator.
fn first_order() -> [Dir; 4] {
    let mut s: u64 = 42;
    let mut order = Dir::ALL;
    for i in (1..4).rev() {
        s = s.wrapping_mul(6364136223846793005).wrapping_add(1442695040888963407);
        order.swap(i, ((s >> 33) % (i as u64 + 1)) as usize);
    }
    order
}

#[test]
fn scenarios_are_reproducible_positions() {
    let out = scenarios(40);
    assert_eq!(out.len(), 40);
    for (snap, order) in &out {
        assert_eq!((snap.width, snap.height), (SCENARIO_W, SCENARIO_H));
        let mut idx: Vec<usize> = order.iter().map(|d| d.index()).collect();
        idx.sort();
        assert_eq!(idx, vec![0, 1, 2, 3]);
    }
    assert_eq!(out[0].1, first_order());
    assert_eq!(out[0].0.snake.len(), 3);
    let again = scenarios(40);
    for ((a, ka), (b, kb)) in out.iter().zip(&again) {
        assert_eq!((&a.snake, &a.foods, &a.obstacles, ka), (&b.snake, &b.foods, &b.obstacles, kb));
    }
    let longer = scenarios(50);
    for ((a, ka), (b, kb)) in out.iter().zip(&longer) {
        assert_eq!((&a.snake, &a.foods, &a.obstacles, ka), (&b.snake, &b.foods, &b.obstacles, kb));
    }
    let mut rng = Lcg { state: 42 };
    assert_eq!(shuffle_keys(&mut rng), first_order());
}

#[test]
fn scenario_positions_follow_one_another() {
    let out = scenarios(60);
    let fresh = vec![
        Point { x: 12, y: 7 },
        Point { x: 11, y: 7 },
        Point { x: 10, y: 7 },
    ];
    assert_eq!(out[0].0.snake, fresh);
    for w in out.windows(2) {
        let (prev, next) = (&w[0].0, &w[1].0);
        if next.snake == fresh {
            continue;
        }
        let (h, n) = (prev.snake[0], next.snake[0]);
        assert_eq!((h.x - n.x).abs() + (h.y - n.y).abs(), 1);
        assert_eq!(next.snake[1..], prev.snake[..next.snake.len() - 1]);
        assert_eq!(next.obstacles, prev.obstacles);
        if !prev.foods.contains(&n) {
            assert_eq!(next.foods, prev.foods);
            assert_eq!(next.snake.len(), prev.snake.len());
        } else {
            assert_eq!(next.snake.len(), prev.snake.len() + 1);
        }
    }
}

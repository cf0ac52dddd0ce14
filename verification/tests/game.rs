use laya_snake::game::{move_outlook, place_cluster, Board, Dir, GameSnapshot, Point, Rules, SnakeGame};
use laya_snake::search::flood_fill_area;
use std::collections::{HashMap, HashSet, VecDeque};

// The plain `HashSet`-based algorithms, kept as the oracle.

fn reference_flood_fill_area(start: Point, blocked: &HashSet<Point>, width: usize, height: usize) -> usize {
    if blocked.contains(&start) {
        return 0;
    }
    let mut seen = HashSet::from([start]);
    let mut q = VecDeque::from([start]);
    while let Some(p) = q.pop_front() {
        for d in Dir::ALL {
            let (dx, dy) = d.delta();
            let n = Point { x: p.x + dx, y: p.y + dy };
            if n.x >= 0
                && n.x < width as i32
                && n.y >= 0
                && n.y < height as i32
                && !blocked.contains(&n)
                && seen.insert(n)
            {
                q.push_back(n);
            }
        }
    }
    seen.len()
}

fn reference_bfs_path_exists(start: Point, goal: Point, blocked: &HashSet<Point>, width: usize, height: usize) -> bool {
    if start == goal {
        return true;
    }
    let mut seen = HashSet::from([start]);
    let mut q = VecDeque::from([start]);
    while let Some(p) = q.pop_front() {
        for d in Dir::ALL {
            let (dx, dy) = d.delta();
            let n = Point { x: p.x + dx, y: p.y + dy };
            if n == goal {
                return true;
            }
            if n.x >= 0
                && n.x < width as i32
                && n.y >= 0
                && n.y < height as i32
                && !blocked.contains(&n)
                && seen.insert(n)
            {
                q.push_back(n);
            }
        }
    }
    false
}

/// (area, body length after the move, food reachable), the counts behind risk and reachability.
fn reference_outlook(game: &SnakeGame, dir: Dir) -> (usize, usize, bool) {
    let new_head = game.next_head(dir);
    let ate = game.foods.contains(&new_head);
    let mut body_after = game.snake.clone();
    body_after.push_front(new_head);
    if !ate {
        body_after.pop_back();
    }
    let blocked: HashSet<Point> = body_after.iter().skip(1).chain(&game.obstacles).copied().collect();
    let area = reference_flood_fill_area(new_head, &blocked, game.width, game.height);
    let reachable = game
        .foods
        .iter()
        .any(|&f| reference_bfs_path_exists(new_head, f, &blocked, game.width, game.height));
    (area, body_after.len().max(1), reachable)
}

fn risk_of(area: usize, body_len: usize) -> f64 {
    (1.0 - area as f64 / body_len.max(1) as f64).clamp(0.0, 1.0)
}

fn reference_is_fatal(game: &SnakeGame, dir: Dir) -> bool {
    let p = game.next_head(dir);
    if p.x < 0 || p.x >= game.width as i32 || p.y < 0 || p.y >= game.height as i32 {
        return true;
    }
    if game.obstacles.contains(&p) {
        return true;
    }
    let ate = game.foods.contains(&p);
    let end = if ate { game.snake.len() } else { game.snake.len().saturating_sub(1) };
    game.snake.iter().take(end).any(|&x| x == p)
}

struct Lcg(u64);

impl Lcg {
    fn next(&mut self, n: u64) -> u64 {
        self.0 = self.0.wrapping_mul(6364136223846793005).wrapping_add(1442695040888963407);
        (self.0 >> 33) % n
    }
}

/// A random legal position: the snake is a self-avoiding random walk, rocks and foods on free cells.
fn random_game(r: &mut Lcg) -> SnakeGame {
    let (w, h) = (10 + r.next(20) as usize, 8 + r.next(12) as usize);
    let mut g = SnakeGame::with_rules(w, h, Rules { foods: 1, obstacles: false });
    let target = 3 + r.next((w * h / 2) as u64) as usize;
    let mut cells = vec![Point { x: r.next(w as u64) as i32, y: r.next(h as u64) as i32 }];
    let mut guard = 0;
    while cells.len() < target && guard < 5000 {
        guard += 1;
        let d = Dir::ALL[r.next(4) as usize];
        let n = cells[cells.len() - 1].step(d);
        if n.x >= 0 && n.x < w as i32 && n.y >= 0 && n.y < h as i32 && !cells.contains(&n) {
            cells.push(n);
        }
    }
    g.snake = cells.into_iter().rev().collect();
    let occupied: HashSet<Point> = g.snake.iter().copied().collect();
    let mut free: Vec<Point> = (0..w as i32)
        .flat_map(|x| (0..h as i32).map(move |y| Point { x, y }))
        .filter(|p| !occupied.contains(p))
        .collect();
    let (n_rocks, n_foods) = (r.next(12), 1 + r.next(4));
    let mut take = |n: u64| {
        let mut out = Vec::new();
        for _ in 0..n {
            if free.is_empty() {
                break;
            }
            out.push(free.swap_remove(r.next(free.len() as u64) as usize));
        }
        out
    };
    let rocks = take(n_rocks);
    let foods = take(n_foods);
    g.set_obstacles(rocks);
    g.foods = foods;
    g.rules.foods = g.foods.len().max(1);
    g
}

#[test]
fn risk_reachability_and_fatality_match_reference() {
    let mut r = Lcg(1234);
    for _ in 0..3000 {
        let g = random_game(&mut r);
        let snap = GameSnapshot::from_game(&g);
        for d in Dir::ALL {
            let o = move_outlook(&g, d);
            let (area, len, reachable) = reference_outlook(&g, d);
            assert_eq!((o.area, o.body_len, o.food_reachable), (area, len, reachable), "{g:?} {d:?}");
            assert_eq!(risk_of(o.area, o.body_len), risk_of(area, len));
            assert_eq!(g.is_fatal(d), reference_is_fatal(&g, d));
            assert_eq!(snap.is_fatal(d), reference_is_fatal(&g, d));
        }
    }
}

#[test]
fn off_board_start_matches_reference() {
    // Executing a fatal move (shield off) starts the flood fill outside the board.
    let mut g = SnakeGame::new(12, 9);
    g.snake = VecDeque::from([Point { x: 0, y: 4 }, Point { x: 1, y: 4 }, Point { x: 2, y: 4 }]);
    g.foods = vec![Point { x: 8, y: 2 }];
    g.set_obstacles(vec![Point { x: 0, y: 3 }]);
    for d in Dir::ALL {
        let o = move_outlook(&g, d);
        assert_eq!((o.area, o.body_len, o.food_reachable), reference_outlook(&g, d));
    }
}

#[test]
fn step_matches_reference_rules() {
    let mut r = Lcg(99);
    for _ in 0..300 {
        let mut g = random_game(&mut r);
        for _ in 0..40 {
            if g.game_over {
                break;
            }
            let d = Dir::ALL[r.next(4) as usize];
            let before = g.clone();
            let fatal = reference_is_fatal(&before, d);
            g.step(d);
            assert_eq!(g.game_over, fatal);
            assert_eq!(g.direction, d);
            if fatal {
                assert_eq!(g.snake, before.snake);
            } else {
                let ate = before.foods.contains(&before.next_head(d));
                assert_eq!(g.score, before.score + ate as u32);
                assert_eq!(g.head(), before.next_head(d));
                assert_eq!(g.snake.len(), before.snake.len() + ate as usize);
                assert!(!g.foods.contains(&g.head()), "eaten food left on the board");
                for f in &g.foods {
                    assert!(!g.snake.contains(f), "food spawned on the snake");
                    assert!(!g.obstacles.contains(f), "food spawned on a rock");
                }
            }
        }
    }
}

#[test]
fn food_is_uniform_over_free_cells_and_none_when_full() {
    let one = Rules { foods: 1, obstacles: false };
    let mut g = SnakeGame::with_rules(4, 3, one);
    g.foods.clear();
    g.snake = (0..4)
        .flat_map(|x| (0..3).map(move |y| Point { x, y }))
        .filter(|p| !(p.x == 3 && p.y == 2))
        .collect();
    assert_eq!(g.spawn_food(), Some(Point { x: 3, y: 2 }));
    g.snake.push_back(Point { x: 3, y: 2 });
    assert_eq!(g.spawn_food(), None);

    let mut g = SnakeGame::with_rules(6, 4, one);
    g.foods.clear();
    let mut counts = HashMap::new();
    for _ in 0..12_000 {
        *counts.entry(g.spawn_food().unwrap()).or_insert(0usize) += 1;
    }
    assert_eq!(counts.len(), 6 * 4 - 3, "every free cell should be reachable");
    assert!(counts.values().all(|&c| c > 300 && c < 800), "{counts:?}");
}

#[test]
fn obstacles_keep_the_board_connected_and_the_spawn_clear() {
    for _ in 0..200 {
        let g = SnakeGame::new(32, 20);
        assert!(!g.obstacles.is_empty());
        let board = g.board();
        let mut seen = vec![false; board.cells()];
        let mut queue = Vec::new();
        let open = board.cells() - g.obstacles.len();
        assert_eq!(flood_fill_area(board, g.head(), &g.walls, &mut seen, &mut queue), open);
        for p in &g.snake {
            assert!(!g.is_obstacle(*p));
        }
        assert!(!g.is_fatal(Dir::Right));
        assert_eq!(g.foods.len(), g.rules.foods);
    }
}

#[test]
fn eating_one_of_several_foods_keeps_the_count() {
    let mut g = SnakeGame::with_rules(20, 12, Rules { foods: 4, obstacles: false });
    let target = g.next_head(Dir::Right);
    g.foods[0] = target;
    g.step(Dir::Right);
    assert_eq!(g.score, 1);
    assert_eq!(g.foods.len(), 4);
    assert!(!g.foods.contains(&g.head()));
}

#[test]
fn toward_food_walks_around_a_rock() {
    let mut g = SnakeGame::with_rules(12, 9, Rules { foods: 1, obstacles: false });
    g.snake = VecDeque::from([Point { x: 4, y: 4 }, Point { x: 3, y: 4 }, Point { x: 2, y: 4 }]);
    g.foods = vec![Point { x: 7, y: 4 }];
    g.set_obstacles((2..7).map(|y| Point { x: 5, y }).collect());
    let snap = GameSnapshot::from_game(&g);
    let t = snap.toward_food();
    assert!(!t[Dir::Right.index()], "right runs into the rock wall");
    assert!(t[Dir::Up.index()] || t[Dir::Down.index()]);
    assert_eq!(snap.nearest_food(), Some(Point { x: 7, y: 4 }));
}

/// Rocks closer than three cells to each other belong to one cluster; clusters are small.
#[test]
fn rock_clusters_keep_their_distance() {
    for _ in 0..100 {
        let g = SnakeGame::new(32, 20);
        let rocks = &g.obstacles;
        let near = |a: Point, b: Point| (a.x - b.x).abs().max((a.y - b.y).abs()) <= 2;
        let mut cluster = vec![usize::MAX; rocks.len()];
        let mut next = 0;
        for i in 0..rocks.len() {
            if cluster[i] != usize::MAX {
                continue;
            }
            let mut stack = vec![i];
            cluster[i] = next;
            while let Some(j) = stack.pop() {
                for k in 0..rocks.len() {
                    if cluster[k] == usize::MAX && near(rocks[j], rocks[k]) {
                        cluster[k] = next;
                        stack.push(k);
                    }
                }
            }
            next += 1;
        }
        for c in 0..next {
            let members: Vec<Point> = (0..rocks.len()).filter(|&i| cluster[i] == c).map(|i| rocks[i]).collect();
            assert!(members.len() <= 4, "cluster too large: {members:?}");
            for a in &members {
                for b in &members {
                    assert!(near(*a, *b), "cluster wider than 3 x 3: {members:?}");
                }
            }
        }
    }
}

#[test]
fn clusters_are_placed_only_where_they_fit() {
    let board = Board::new(32, 20);
    let p = |x: i32, y: i32| Point { x, y };
    let rocks = place_cluster(board, &Vec::new(), 3, 4, 4);
    assert_eq!(rocks, vec![p(4, 4), p(5, 4), p(4, 5), p(5, 5)]);
    // Too close to the first cluster.
    assert_eq!(place_cluster(board, &rocks, 0, 6, 6), rocks);
    // In the lane the snake starts in.
    assert_eq!(place_cluster(board, &rocks, 0, 20, 9), rocks);
    // On the band next to the fence.
    assert_eq!(place_cluster(board, &rocks, 0, 1, 4), rocks);
    let more = place_cluster(board, &rocks, 0, 9, 4);
    assert_eq!(more, vec![p(4, 4), p(5, 4), p(4, 5), p(5, 5), p(9, 4)]);
    let line = place_cluster(board, &more, 4, 20, 14);
    assert_eq!(line.len(), 8);
    assert_eq!(line[5..], [p(20, 14), p(21, 14), p(22, 14)]);
}

#[test]
fn flood_fill_marks_exactly_the_reached_cells() {
    let board = Board::new(4, 3);
    let mut blocked = vec![false; 12];
    for y in 0..3 {
        blocked[y * 4 + 2] = true;
    }
    let mut seen = vec![true; 12];
    let mut queue = Vec::new();
    let n = flood_fill_area(board, Point { x: 0, y: 1 }, &blocked, &mut seen, &mut queue);
    assert_eq!(n, 6);
    for y in 0..3 {
        for x in 0..4 {
            assert_eq!(seen[y * 4 + x], x < 2, "cell ({x}, {y})");
        }
    }
    // A blocked start leaves the buffer as it was.
    let mut seen = vec![true; 12];
    assert_eq!(flood_fill_area(board, Point { x: 2, y: 0 }, &blocked, &mut seen, &mut queue), 0);
    assert!(seen.iter().all(|s| *s));
}

#[test]
fn seeded_games_repeat() {
    let rules = Rules { foods: 5, obstacles: true };
    let a = SnakeGame::seeded(32, 20, rules, 7);
    let b = SnakeGame::seeded(32, 20, rules, 7);
    assert_eq!((&a.obstacles, &a.foods, &a.snake), (&b.obstacles, &b.foods, &b.snake));
    assert_eq!(a.foods.len(), 5);
    assert!(!a.obstacles.is_empty());
    let mut c = a.clone();
    let mut d = b.clone();
    c.reset();
    d.reset();
    assert_eq!((&c.obstacles, &c.foods), (&d.obstacles, &d.foods));
    assert_eq!(c.dice, d.dice);
}

#[test]
fn nearest_food_ties_go_by_search_order() {
    let p = |x: i32, y: i32| Point { x, y };
    let mut g = SnakeGame::with_rules(12, 9, Rules { foods: 1, obstacles: false });
    g.snake = VecDeque::from([p(5, 5), p(6, 5), p(7, 5)]);
    g.foods = vec![p(4, 5), p(5, 6)];
    assert_eq!(GameSnapshot::from_game(&g).nearest_food(), Some(p(5, 6)));
    g.foods = vec![p(5, 6), p(5, 4)];
    assert_eq!(GameSnapshot::from_game(&g).nearest_food(), Some(p(5, 4)));
    g.foods = vec![p(3, 5), p(5, 7), p(4, 4)];
    assert_eq!(GameSnapshot::from_game(&g).nearest_food(), Some(p(4, 4)));
}

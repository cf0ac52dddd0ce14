//! The terminal dashboard's layout: every piece of text a frame draws, where, and in which tone.
//! Numbers that need floating point (bars, percentages, timings) arrive already written out.

use vstd::prelude::*;
use crate::controls::{dir_name, direction_glyph, trail_glyph};
use crate::game::{Dir, Point};
use crate::grid::dir_at;
use crate::text::{digits_of, push_char, push_digits, push_text, text_of};

verus! {

/// The colours the dashboard draws in.
#[derive(Clone, Copy, Debug, PartialEq, Eq, Structural)]
pub enum Tone {
    White,
    Grey,
    Green,
    Red,
    Yellow,
    Cyan,
}

/// One piece of text at a terminal cell (column `x`, row `y`), optionally in reverse video.
#[derive(Clone, Debug)]
pub struct DrawOp {
    pub x: u16,
    pub y: u16,
    pub text: String,
    pub tone: Tone,
    pub reverse: bool,
}

pub struct OpView {
    pub x: int,
    pub y: int,
    pub text: Seq<char>,
    pub tone: Tone,
    pub reverse: bool,
}

impl View for DrawOp {
    type V = OpView;

    open spec fn view(&self) -> OpView {
        OpView { x: self.x as int, y: self.y as int, text: self.text@, tone: self.tone, reverse: self.reverse }
    }
}

pub open spec fn ops_view(s: Seq<DrawOp>) -> Seq<OpView> {
    Seq::new(s.len(), |i: int| s[i]@)
}

/// Plain text at `(x, y)`.
pub open spec fn op(x: int, y: int, text: Seq<char>, tone: Tone) -> OpView {
    OpView { x, y, text, tone, reverse: false }
}

/// What a frame shows. Values that come from floating point are handed over as text: the bars
/// (`fill_bar`, `prob_bars`, `risk_bar`, `reach_bar`), the numbers next to them, the inference
/// time, the decision rate and the seconds spent thinking.
#[derive(Clone, Debug)]
pub struct FrameView {
    pub width: usize,
    pub height: usize,
    /// Head first.
    pub snake: Vec<Point>,
    pub direction: Dir,
    pub foods: Vec<Point>,
    pub obstacles: Vec<Point>,
    pub score: u32,
    pub best: u32,
    pub game_over: bool,
    pub paused: bool,
    pub speed_level: usize,
    pub round: u32,
    pub interventions: u32,
    pub shield_enabled: bool,
    pub checkpoint: String,
    pub engine: String,
    pub device: String,
    /// The board fill bar and its percentage (without the `%`).
    pub fill_bar: String,
    pub fill_pct: String,
    /// The latest moves, oldest first.
    pub trail: Vec<Dir>,
    /// Per direction, in the canonical order: the probability bar and the probability.
    pub prob_bars: Vec<String>,
    pub prob_texts: Vec<String>,
    /// The move being executed and whether the shield replaced the model's pick.
    pub chosen: Option<Dir>,
    pub intervened: bool,
    /// Seconds the model has been thinking, while a request is out.
    pub thinking: Option<String>,
    pub risk_bar: String,
    pub risk_text: String,
    pub reach_bar: String,
    pub reach_text: String,
    /// The last inference time in milliseconds and the decision rate, right-aligned.
    pub inference_text: String,
    pub rate_text: String,
    pub error: Option<String>,
    pub elapsed_secs: u64,
}

/// `p` lies on the board.
pub open spec fn on_board(v: FrameView, p: Point) -> bool {
    0 <= p.x < v.width && 0 <= p.y < v.height
}

impl FrameView {
    /// The board fits the terminal's cell numbering, the speed level is one of the five, a bar
    /// and a number per direction, and everything drawn on the board lies on it.
    pub open spec fn wf(&self) -> bool {
        &&& self.width <= u16::MAX
        &&& self.height <= u16::MAX
        &&& self.speed_level < 5
        &&& self.prob_bars@.len() == 4
        &&& self.prob_texts@.len() == 4
        &&& forall|i: int| 0 <= i < self.snake@.len() ==> on_board(*self, #[trigger] self.snake@[i])
        &&& forall|i: int| 0 <= i < self.foods@.len() ==> on_board(*self, #[trigger] self.foods@[i])
        &&& forall|i: int| 0 <= i < self.obstacles@.len() ==> on_board(*self, #[trigger] self.obstacles@[i])
    }
}

/// `n` copies of `c` (none when `n` is not positive).
pub open spec fn repeat(c: char, n: int) -> Seq<char> {
    Seq::new(if n > 0 { n as nat } else { 0 }, |i: int| c)
}

/// `n` in decimal, zero-padded to `w` digits (`{:0w}`).
pub open spec fn padded(n: nat, w: int) -> Seq<char> {
    repeat('0', w - digits_of(n).len()) + digits_of(n)
}

/// `s` padded with spaces on the right to `w` characters (`{:<w}`).
pub open spec fn pad_right(s: Seq<char>, w: int) -> Seq<char> {
    s + repeat(' ', w - s.len())
}

/// A board row's dots: `"· "` once per column, without the trailing space.
pub open spec fn dots(w: int) -> Seq<char> {
    Seq::new(if w > 0 { (2 * w - 1) as nat } else { 0 }, |i: int| if i % 2 == 0 { '·' } else { ' ' })
}

/// The head's arrow.
pub open spec fn head_glyph(d: Dir) -> Seq<char> {
    match d {
        Dir::Up => "▲"@,
        Dir::Down => "▼"@,
        Dir::Left => "◀"@,
        Dir::Right => "▶"@,
    }
}

/// A past move's arrow in the trail.
pub open spec fn step_glyph(d: Dir) -> Seq<char> {
    match d {
        Dir::Up => "↑"@,
        Dir::Down => "↓"@,
        Dir::Left => "←"@,
        Dir::Right => "→"@,
    }
}

/// The trail's arrows, separated by single spaces.
pub open spec fn trail_text(t: Seq<Dir>) -> Seq<char>
    decreases t.len(),
{
    if t.len() == 0 {
        Seq::empty()
    } else if t.len() == 1 {
        step_glyph(t[0])
    } else {
        trail_text(t.drop_last()) + " "@ + step_glyph(t.last())
    }
}

/// A direction's name in capitals.
pub open spec fn upper_name(d: Dir) -> Seq<char> {
    match d {
        Dir::Up => "UP"@,
        Dir::Down => "DOWN"@,
        Dir::Left => "LEFT"@,
        Dir::Right => "RIGHT"@,
    }
}

/// `x - y`, or 0 when that is negative.
pub open spec fn sat_sub(x: int, y: int) -> int {
    if x >= y { x - y } else { 0 }
}

/// The column where the side panel starts.
pub open spec fn panel_x(v: FrameView) -> int {
    2 * v.width + 8
}

/// The message shown instead of the dashboard when the terminal is too small.
pub open spec fn too_small_text(v: FrameView, cols: u16, rows: u16) -> Seq<char> {
    "Terminal too small ("@ + digits_of(cols as nat) + "x"@ + digits_of(rows as nat) + "). Need >= "@
        + digits_of((2 * v.width + 44) as nat) + "x"@ + digits_of((v.height + 12) as nat)
        + ". Press '-' or resize. Q quits."@
}

/// The title lines and the board's top and bottom edges.
pub open spec fn header_ops(v: FrameView) -> Seq<OpView> {
    let w = v.width as int;
    let h = v.height as int;
    seq![
        op(4, 0, "laya-snake  /  live decisions"@, Tone::Grey),
        op(2, 2, "LAYA / LOCAL INTELLIGENCE"@, Tone::White),
        op(4, 4, "S N A K E"@, Tone::White),
        op(3, 5, "┌"@ + repeat('─', 2 * w) + "┐"@, Tone::Grey),
        op(3, 6 + h, "└"@ + repeat('─', 2 * w) + "┘"@, Tone::Grey),
    ]
}

/// The first `n` board rows: the left and right edges and the row's dots.
pub open spec fn rows_ops(v: FrameView, n: int) -> Seq<OpView>
    decreases n,
{
    if n <= 0 {
        Seq::empty()
    } else {
        let y = 6 + n - 1;
        rows_ops(v, n - 1) + seq![
            op(3, y, "│"@, Tone::Grey),
            op(4 + 2 * v.width, y, "│"@, Tone::Grey),
            op(4, y, dots(v.width as int), Tone::Grey),
        ]
    }
}

/// The status line's text: the state, the speed level and the board size.
pub open spec fn status_text(v: FrameView) -> Seq<char> {
    let state = if v.paused { "PAUSED"@ } else if v.game_over { "GAME OVER"@ } else { "LIVE"@ };
    state + " · L"@ + digits_of((v.speed_level + 1) as nat) + "/5 · "@ + digits_of(v.width as nat) + "x"@
        + digits_of(v.height as nat)
}

/// The status line, the round, the model lines, the score row, the fill bar and the trail.
pub open spec fn info_ops(v: FrameView, cols: u16) -> Seq<OpView> {
    let h = v.height as int;
    let px = panel_x(v);
    seq![
        op(sat_sub(cols as int, 28), 0, status_text(v), if v.game_over { Tone::Red } else { Tone::Green }),
        op(30, 4, "ROUND "@ + padded(v.round as nat, 2), Tone::Grey),
        op(px, 2, "Laya  "@ + v.checkpoint@, Tone::Green),
        op(px, 3, v.engine@ + " · "@ + v.device@ + " · Local"@, Tone::Grey),
        op(4, 7 + h, "SCORE"@, Tone::Grey),
        op(16, 7 + h, "LENGTH"@, Tone::Grey),
        op(30, 7 + h, "BEST"@, Tone::Grey),
        op(4, 8 + h, padded(v.score as nat, 3), Tone::Green),
        op(16, 8 + h, padded(v.snake@.len(), 3), Tone::White),
        op(30, 8 + h, padded(v.best as nat, 3), Tone::Grey),
        op(4, 10 + h, v.fill_bar@, Tone::Green),
        op(30, 10 + h, v.fill_pct@ + "%"@, Tone::Grey),
        op(4, 12 + h, trail_text(v.trail@), Tone::Cyan),
    ]
}

/// The glyph of body cell `i` (the head is cell 0).
pub open spec fn body_glyph(d: Dir, i: int) -> Seq<char> {
    if i == 0 {
        head_glyph(d)
    } else if i % 2 == 0 {
        "▓"@
    } else {
        "█"@
    }
}

/// The first `k` body cells drawn, tail first.
pub open spec fn snake_ops(v: FrameView, k: int) -> Seq<OpView>
    decreases k,
{
    if k <= 0 {
        Seq::empty()
    } else {
        let i = v.snake@.len() - k;
        let p = v.snake@[i];
        snake_ops(v, k - 1).push(
            op(4 + 2 * p.x, 6 + p.y, body_glyph(v.direction, i), if i == 0 { Tone::White } else { Tone::Green }),
        )
    }
}

/// The first `k` of `ps`, each drawn as `glyph`.
pub open spec fn points_ops(ps: Seq<Point>, k: int, glyph: Seq<char>, tone: Tone) -> Seq<OpView>
    decreases k,
{
    if k <= 0 {
        Seq::empty()
    } else {
        let p = ps[k - 1];
        points_ops(ps, k - 1, glyph, tone).push(op(4 + 2 * p.x, 6 + p.y, glyph, tone))
    }
}

/// The probability rows of the first `k` directions: a marker on the executed move, the name,
/// the bar and the number.
pub open spec fn prob_ops(v: FrameView, k: int) -> Seq<OpView>
    decreases k,
{
    if k <= 0 {
        Seq::empty()
    } else {
        let i = k - 1;
        let px = panel_x(v);
        let d = dir_at(i);
        prob_ops(v, k - 1) + seq![
            op(px, 7 + i, if v.chosen == Some(d) { ">"@ } else { " "@ }, Tone::White),
            op(px + 2, 7 + i, upper_name(d), Tone::Grey),
            op(px + 10, 7 + i, v.prob_bars@[i]@, Tone::Green),
            op(px + 26, 7 + i, v.prob_texts@[i]@, Tone::White),
        ]
    }
}

/// What follows the executed move's name: the thinking time while a request is out, else a note
/// when the shield stepped in.
pub open spec fn exec_suffix(v: FrameView) -> Seq<char> {
    match v.thinking {
        Some(t) => "thinking... "@ + t@ + "s"@,
        None => if v.intervened { "shield override"@ } else { Seq::empty() },
    }
}

/// The executed move's name, `-` before the first.
pub open spec fn exec_name(c: Option<Dir>) -> Seq<char> {
    match c {
        Some(d) => d.spec_name(),
        None => "-"@,
    }
}

/// The panel's headings and the rows under the probabilities.
pub open spec fn stats_ops(v: FrameView) -> Seq<OpView> {
    let px = panel_x(v);
    seq![
        op(px, 12, "EXECUTING"@, Tone::Grey),
        op(px + 12, 12, pad_right(exec_name(v.chosen), 8) + pad_right(exec_suffix(v), 20), Tone::Green),
        op(px, 14, "DEAD-END RISK"@, Tone::Grey),
        op(px, 15, v.risk_bar@, Tone::Yellow),
        op(px + 26, 15, v.risk_text@, Tone::White),
        op(px, 17, "FOOD REACHABLE"@, Tone::Grey),
        op(px, 18, v.reach_bar@, Tone::Green),
        op(px + 26, 18, v.reach_text@, Tone::White),
        op(px, 20, "INFERENCE"@, Tone::Grey),
        op(px + 16, 20, v.inference_text@ + " ms"@, Tone::White),
        op(px, 21, "DECISIONS"@, Tone::Grey),
        op(px + 16, 21, v.rate_text@ + " /s"@, Tone::White),
        op(px, 22, "OUTPUT TOKENS"@, Tone::Grey),
        op(px + 16, 22, "0"@, Tone::White),
        op(px, 23, "NETWORK"@, Tone::Grey),
        op(px + 16, 23, "OFFLINE"@, Tone::Green),
        op(px, 24, "ENGINE"@, Tone::Grey),
        op(px + 16, 24, v.engine@ + " "@ + v.device@, Tone::White),
        op(px, 26, "Laya + cycle safety"@, Tone::Grey),
        op(px, 27, "Shield"@, Tone::Grey),
        op(
            px + 10,
            27,
            if v.shield_enabled { "ON"@ } else { "OFF (raw model)"@ },
            if v.shield_enabled { Tone::Green } else { Tone::Red },
        ),
        op(px, 28, "Interventions"@, Tone::Grey),
        op(px + 22, 28, padded(v.interventions as nat, 4), Tone::Yellow),
    ]
}

/// The model error line (its first 32 characters), the game-over banner, the key help and the
/// clock.
pub open spec fn tail_ops(v: FrameView, cols: u16, rows: u16) -> Seq<OpView> {
    let px = panel_x(v);
    let err = match v.error {
        Some(e) => seq![op(px, 30, "model error: "@ + e@.take(if e@.len() < 32 { e@.len() as int } else { 32 }), Tone::Red)],
        None => Seq::empty(),
    };
    let over = if v.game_over {
        seq![OpView { x: 12, y: 6 + v.height / 2, text: " GAME OVER - R restart, Q quit "@, tone: Tone::Red, reverse: true }]
    } else {
        Seq::empty()
    };
    let bottom = sat_sub(rows as int, 1);
    err + over + seq![
        op(2, bottom, "SPACE pause  ↑/↓ speed  +/- scale  S shield  O rocks  R reset  Q quit"@, Tone::Grey),
        op(
            sat_sub(cols as int, 7),
            bottom,
            padded((v.elapsed_secs / 60) as nat, 2) + ":"@ + padded((v.elapsed_secs % 60) as nat, 2),
            Tone::Grey,
        ),
    ]
}

/// The whole frame for a `cols` x `rows` terminal: one line asking for more room when the board
/// and the panel do not fit; otherwise the header, the board, the score row, the snake (tail
/// first), the rocks, the foods, and the side panel.
pub open spec fn frame_spec(v: FrameView, cols: u16, rows: u16) -> Seq<OpView> {
    if (cols as int) < 2 * v.width + 44 || (rows as int) < v.height + 12 {
        seq![op(0, 0, too_small_text(v, cols, rows), Tone::White)]
    } else {
        header_ops(v) + rows_ops(v, v.height as int) + info_ops(v, cols) + snake_ops(v, v.snake@.len() as int)
            + points_ops(v.obstacles@, v.obstacles@.len() as int, "▲"@, Tone::Grey)
            + points_ops(v.foods@, v.foods@.len() as int, "●"@, Tone::Yellow)
            + seq![
            op(panel_x(v), 5, "NEXT MOVE"@, Tone::White),
            op(panel_x(v) + 14, 5, "MODEL PROBABILITIES"@, Tone::Grey),
        ] + prob_ops(v, 4) + stats_ops(v) + tail_ops(v, cols, rows)
    }
}

fn put(ops: &mut Vec<DrawOp>, x: u16, y: u16, text: String, tone: Tone)
    ensures
        ops_view(final(ops)@) == ops_view(old(ops)@).push(op(x as int, y as int, text@, tone)),
{
    let ghost t = text@;
    ops.push(DrawOp { x, y, text, tone, reverse: false });
    assert(ops_view(ops@) =~= ops_view(old(ops)@).push(op(x as int, y as int, t, tone)));
}

/// `a` followed by `b`.
fn cat(a: &str, b: &str) -> (s: String)
    ensures
        s@ == a@ + b@,
{
    let mut s = text_of(a);
    push_text(&mut s, b);
    s
}

/// `n` copies of `c`.
fn repeat_text(c: char, n: usize) -> (s: String)
    ensures
        s@ == repeat(c, n as int),
{
    let mut s = String::new();
    let mut i: usize = 0;
    while i < n
        invariant
            i <= n,
            s@ == repeat(c, i as int),
        decreases n - i,
    {
        push_char(&mut s, c);
        i += 1;
        assert(s@ =~= repeat(c, i as int));
    }
    s
}

/// Appends `n` zero-padded to `w` digits.
fn push_padded(s: &mut String, n: u64, w: usize)
    ensures
        final(s)@ == old(s)@ + padded(n as nat, w as int),
{
    let mut d = String::new();
    push_digits(&mut d, n);
    let len = d.as_str().unicode_len();
    if len < w {
        let z = repeat_text('0', w - len);
        push_text(s, z.as_str());
    } else {
        assert(repeat('0', w - digits_of(n as nat).len()) =~= Seq::<char>::empty());
    }
    push_text(s, d.as_str());
    assert(final(s)@ =~= old(s)@ + padded(n as nat, w as int));
}

/// `t` padded with spaces on the right to `w` characters.
fn padded_right(t: &str, w: usize) -> (s: String)
    ensures
        s@ == pad_right(t@, w as int),
{
    let mut s = text_of(t);
    let len = t.unicode_len();
    if len < w {
        let sp = repeat_text(' ', w - len);
        push_text(&mut s, sp.as_str());
    } else {
        assert(repeat(' ', w - t@.len()) =~= Seq::<char>::empty());
    }
    assert(s@ =~= pad_right(t@, w as int));
    s
}

/// The board and the panel fit a `cols` x `rows` terminal.
pub open spec fn fits(v: FrameView, cols: u16, rows: u16) -> bool {
    2 * v.width + 44 <= cols as int && v.height + 12 <= rows as int
}

fn put_header(ops: &mut Vec<DrawOp>, v: &FrameView, cols: u16, rows: u16)
    requires
        v.wf(),
        fits(*v, cols, rows),
    ensures
        ops_view(final(ops)@) == ops_view(old(ops)@) + header_ops(*v),
{
    let w2 = v.width * 2;
    let h = v.height as u16;
    put(ops, 4, 0, text_of("laya-snake  /  live decisions"), Tone::Grey);
    put(ops, 2, 2, text_of("LAYA / LOCAL INTELLIGENCE"), Tone::White);
    put(ops, 4, 4, text_of("S N A K E"), Tone::White);
    let line = repeat_text('─', w2);
    let mut top = text_of("┌");
    push_text(&mut top, line.as_str());
    push_text(&mut top, "┐");
    put(ops, 3, 5, top, Tone::Grey);
    let mut bottom = text_of("└");
    push_text(&mut bottom, line.as_str());
    push_text(&mut bottom, "┘");
    put(ops, 3, 6 + h, bottom, Tone::Grey);
    assert(ops_view(ops@) =~= ops_view(old(ops)@) + header_ops(*v));
}

/// The row of dots drawn across an empty board row.
fn dots_text(w: usize) -> (s: String)
    ensures
        s@ == dots(w as int),
{
    let mut s = String::new();
    let mut i: usize = 0;
    while i < w
        invariant
            i <= w,
            s@ == dots(i as int),
        decreases w - i,
    {
        if i > 0 {
            push_char(&mut s, ' ');
        }
        push_char(&mut s, '·');
        proof {
            assert(s@ =~= dots(i + 1));
        }
        i += 1;
    }
    s
}

fn put_rows(ops: &mut Vec<DrawOp>, v: &FrameView, cols: u16, rows: u16)
    requires
        v.wf(),
        fits(*v, cols, rows),
    ensures
        ops_view(final(ops)@) == ops_view(old(ops)@) + rows_ops(*v, v.height as int),
{
    let row = dots_text(v.width);
    let right = (4 + v.width * 2) as u16;
    let mut y: usize = 0;
    assert(ops_view(ops@) =~= ops_view(old(ops)@) + rows_ops(*v, 0));
    while y < v.height
        invariant
            v.wf(),
            fits(*v, cols, rows),
            row@ == dots(v.width as int),
            right == 4 + 2 * v.width,
            y <= v.height,
            ops_view(ops@) == ops_view(old(ops)@) + rows_ops(*v, y as int),
        decreases v.height - y,
    {
        let yy = (6 + y) as u16;
        put(ops, 3, yy, text_of("│"), Tone::Grey);
        put(ops, right, yy, text_of("│"), Tone::Grey);
        put(ops, 4, yy, row.clone(), Tone::Grey);
        y += 1;
        assert(ops_view(ops@) =~= ops_view(old(ops)@) + rows_ops(*v, y as int));
    }
}

/// The trail's arrows, separated by single spaces.
fn trail_line(t: &Vec<Dir>) -> (s: String)
    ensures
        s@ == trail_text(t@),
{
    let mut s = String::new();
    let mut i: usize = 0;
    while i < t.len()
        invariant
            i <= t@.len(),
            s@ == trail_text(t@.take(i as int)),
        decreases t@.len() - i,
    {
        if i > 0 {
            push_text(&mut s, " ");
        }
        push_text(&mut s, trail_glyph(t[i]));
        proof {
            let u = t@.take(i + 1);
            assert(u.drop_last() =~= t@.take(i as int));
            assert(u.last() == t@[i as int]);
            if i == 0 {
                assert(s@ =~= step_glyph(u[0]));
            } else {
                assert(s@ =~= trail_text(u.drop_last()) + " "@ + step_glyph(u.last()));
            }
        }
        i += 1;
    }
    assert(t@.take(t@.len() as int) =~= t@);
    s
}

fn status_line(v: &FrameView) -> (s: String)
    requires
        v.wf(),
    ensures
        s@ == status_text(*v),
{
    let mut s = if v.paused {
        text_of("PAUSED")
    } else if v.game_over {
        text_of("GAME OVER")
    } else {
        text_of("LIVE")
    };
    push_text(&mut s, " · L");
    push_digits(&mut s, (v.speed_level + 1) as u64);
    push_text(&mut s, "/5 · ");
    push_digits(&mut s, v.width as u64);
    push_text(&mut s, "x");
    push_digits(&mut s, v.height as u64);
    s
}

fn put_info(ops: &mut Vec<DrawOp>, v: &FrameView, cols: u16, rows: u16)
    requires
        v.wf(),
        fits(*v, cols, rows),
    ensures
        ops_view(final(ops)@) == ops_view(old(ops)@) + info_ops(*v, cols),
{
    let h = v.height as u16;
    let px = (v.width * 2 + 8) as u16;
    let sx = if cols >= 28 { cols - 28 } else { 0 };
    put(ops, sx, 0, status_line(v), if v.game_over { Tone::Red } else { Tone::Green });
    let mut round = text_of("ROUND ");
    push_padded(&mut round, v.round as u64, 2);
    put(ops, 30, 4, round, Tone::Grey);
    put(ops, px, 2, cat("Laya  ", v.checkpoint.as_str()), Tone::Green);
    let mut model = text_of(v.engine.as_str());
    push_text(&mut model, " · ");
    push_text(&mut model, v.device.as_str());
    push_text(&mut model, " · Local");
    put(ops, px, 3, model, Tone::Grey);
    put(ops, 4, 7 + h, text_of("SCORE"), Tone::Grey);
    put(ops, 16, 7 + h, text_of("LENGTH"), Tone::Grey);
    put(ops, 30, 7 + h, text_of("BEST"), Tone::Grey);
    let mut score = String::new();
    push_padded(&mut score, v.score as u64, 3);
    put(ops, 4, 8 + h, score, Tone::Green);
    let mut length = String::new();
    push_padded(&mut length, v.snake.len() as u64, 3);
    put(ops, 16, 8 + h, length, Tone::White);
    let mut best = String::new();
    push_padded(&mut best, v.best as u64, 3);
    put(ops, 30, 8 + h, best, Tone::Grey);
    put(ops, 4, 10 + h, v.fill_bar.clone(), Tone::Green);
    put(ops, 30, 10 + h, cat(v.fill_pct.as_str(), "%"), Tone::Grey);
    put(ops, 4, 12 + h, trail_line(&v.trail), Tone::Cyan);
    assert(ops_view(ops@) =~= ops_view(old(ops)@) + info_ops(*v, cols));
}

fn put_snake(ops: &mut Vec<DrawOp>, v: &FrameView, cols: u16, rows: u16)
    requires
        v.wf(),
        fits(*v, cols, rows),
    ensures
        ops_view(final(ops)@) == ops_view(old(ops)@) + snake_ops(*v, v.snake@.len() as int),
{
    let n = v.snake.len();
    let mut k: usize = 0;
    assert(ops_view(ops@) =~= ops_view(old(ops)@) + snake_ops(*v, 0));
    while k < n
        invariant
            v.wf(),
            fits(*v, cols, rows),
            n == v.snake@.len(),
            k <= n,
            ops_view(ops@) == ops_view(old(ops)@) + snake_ops(*v, k as int),
        decreases n - k,
    {
        let i = n - 1 - k;
        let p = v.snake[i];
        assert(on_board(*v, v.snake@[i as int]));
        let glyph = if i == 0 {
            text_of(direction_glyph(v.direction))
        } else if i % 2 == 0 {
            text_of("▓")
        } else {
            text_of("█")
        };
        put(ops, 4 + (p.x as u16) * 2, 6 + p.y as u16, glyph, if i == 0 { Tone::White } else { Tone::Green });
        k += 1;
        assert(ops_view(ops@) =~= ops_view(old(ops)@) + snake_ops(*v, k as int));
    }
}

fn put_points(ops: &mut Vec<DrawOp>, v: &FrameView, ps: &Vec<Point>, glyph: &str, tone: Tone, cols: u16, rows: u16)
    requires
        v.wf(),
        fits(*v, cols, rows),
        forall|i: int| 0 <= i < ps@.len() ==> on_board(*v, #[trigger] ps@[i]),
    ensures
        ops_view(final(ops)@) == ops_view(old(ops)@) + points_ops(ps@, ps@.len() as int, glyph@, tone),
{
    let mut k: usize = 0;
    assert(ops_view(ops@) =~= ops_view(old(ops)@) + points_ops(ps@, 0, glyph@, tone));
    while k < ps.len()
        invariant
            v.wf(),
            fits(*v, cols, rows),
            forall|i: int| 0 <= i < ps@.len() ==> on_board(*v, #[trigger] ps@[i]),
            k <= ps@.len(),
            ops_view(ops@) == ops_view(old(ops)@) + points_ops(ps@, k as int, glyph@, tone),
        decreases ps@.len() - k,
    {
        let p = ps[k];
        assert(on_board(*v, ps@[k as int]));
        put(ops, 4 + (p.x as u16) * 2, 6 + p.y as u16, text_of(glyph), tone);
        k += 1;
        assert(ops_view(ops@) =~= ops_view(old(ops)@) + points_ops(ps@, k as int, glyph@, tone));
    }
}

/// A direction's name in capitals.
fn upper(d: Dir) -> (s: String)
    ensures
        s@ == upper_name(d),
{
    match d {
        Dir::Up => text_of("UP"),
        Dir::Down => text_of("DOWN"),
        Dir::Left => text_of("LEFT"),
        Dir::Right => text_of("RIGHT"),
    }
}

fn put_probs(ops: &mut Vec<DrawOp>, v: &FrameView, cols: u16, rows: u16)
    requires
        v.wf(),
        fits(*v, cols, rows),
    ensures
        ops_view(final(ops)@) == ops_view(old(ops)@) + prob_ops(*v, 4),
{
    let px = (v.width * 2 + 8) as u16;
    let mut k: usize = 0;
    assert(ops_view(ops@) =~= ops_view(old(ops)@) + prob_ops(*v, 0));
    while k < 4
        invariant
            v.wf(),
            fits(*v, cols, rows),
            px == panel_x(*v),
            k <= 4,
            ops_view(ops@) == ops_view(old(ops)@) + prob_ops(*v, k as int),
        decreases 4 - k,
    {
        let d = Dir::from_index(k);
        let y = 7 + k as u16;
        let marked = match v.chosen {
            Some(c) => c == d,
            None => false,
        };
        put(ops, px, y, if marked { text_of(">") } else { text_of(" ") }, Tone::White);
        put(ops, px + 2, y, upper(d), Tone::Grey);
        put(ops, px + 10, y, v.prob_bars[k].clone(), Tone::Green);
        put(ops, px + 26, y, v.prob_texts[k].clone(), Tone::White);
        k += 1;
        assert(ops_view(ops@) =~= ops_view(old(ops)@) + prob_ops(*v, k as int));
    }
}

/// The executed move's name and what follows it, each padded to its column.
fn exec_line(v: &FrameView) -> (s: String)
    ensures
        s@ == pad_right(exec_name(v.chosen), 8) + pad_right(exec_suffix(*v), 20),
{
    let name = match v.chosen {
        Some(d) => dir_name(d),
        None => "-",
    };
    let suffix = match &v.thinking {
        Some(t) => {
            let mut x = cat("thinking... ", t.as_str());
            push_text(&mut x, "s");
            x
        },
        None => if v.intervened {
            text_of("shield override")
        } else {
            String::new()
        },
    };
    let mut s = padded_right(name, 8);
    let tail = padded_right(suffix.as_str(), 20);
    push_text(&mut s, tail.as_str());
    s
}

fn put_stats(ops: &mut Vec<DrawOp>, v: &FrameView, cols: u16, rows: u16)
    requires
        v.wf(),
        fits(*v, cols, rows),
    ensures
        ops_view(final(ops)@) == ops_view(old(ops)@) + stats_ops(*v),
{
    let px = (v.width * 2 + 8) as u16;
    put(ops, px, 12, text_of("EXECUTING"), Tone::Grey);
    put(ops, px + 12, 12, exec_line(v), Tone::Green);
    put(ops, px, 14, text_of("DEAD-END RISK"), Tone::Grey);
    put(ops, px, 15, v.risk_bar.clone(), Tone::Yellow);
    put(ops, px + 26, 15, v.risk_text.clone(), Tone::White);
    put(ops, px, 17, text_of("FOOD REACHABLE"), Tone::Grey);
    put(ops, px, 18, v.reach_bar.clone(), Tone::Green);
    put(ops, px + 26, 18, v.reach_text.clone(), Tone::White);
    put(ops, px, 20, text_of("INFERENCE"), Tone::Grey);
    put(ops, px + 16, 20, cat(v.inference_text.as_str(), " ms"), Tone::White);
    put(ops, px, 21, text_of("DECISIONS"), Tone::Grey);
    put(ops, px + 16, 21, cat(v.rate_text.as_str(), " /s"), Tone::White);
    put(ops, px, 22, text_of("OUTPUT TOKENS"), Tone::Grey);
    put(ops, px + 16, 22, text_of("0"), Tone::White);
    put(ops, px, 23, text_of("NETWORK"), Tone::Grey);
    put(ops, px + 16, 23, text_of("OFFLINE"), Tone::Green);
    put(ops, px, 24, text_of("ENGINE"), Tone::Grey);
    let mut engine = text_of(v.engine.as_str());
    push_text(&mut engine, " ");
    push_text(&mut engine, v.device.as_str());
    put(ops, px + 16, 24, engine, Tone::White);
    put(ops, px, 26, text_of("Laya + cycle safety"), Tone::Grey);
    put(ops, px, 27, text_of("Shield"), Tone::Grey);
    if v.shield_enabled {
        put(ops, px + 10, 27, text_of("ON"), Tone::Green);
    } else {
        put(ops, px + 10, 27, text_of("OFF (raw model)"), Tone::Red);
    }
    put(ops, px, 28, text_of("Interventions"), Tone::Grey);
    let mut count = String::new();
    push_padded(&mut count, v.interventions as u64, 4);
    put(ops, px + 22, 28, count, Tone::Yellow);
    assert(ops_view(ops@) =~= ops_view(old(ops)@) + stats_ops(*v));
}

fn put_tail(ops: &mut Vec<DrawOp>, v: &FrameView, cols: u16, rows: u16)
    requires
        v.wf(),
        fits(*v, cols, rows),
    ensures
        ops_view(final(ops)@) == ops_view(old(ops)@) + tail_ops(*v, cols, rows),
{
    let px = (v.width * 2 + 8) as u16;
    match &v.error {
        Some(e) => {
            let len = e.as_str().unicode_len();
            let keep = if len < 32 { len } else { 32 };
            let short = e.as_str().substring_char(0, keep);
            put(ops, px, 30, cat("model error: ", short), Tone::Red);
        },
        None => {},
    }
    let ghost mid = ops_view(ops@);
    if v.game_over {
        let ghost t = " GAME OVER - R restart, Q quit "@;
        ops.push(DrawOp { x: 12, y: 6 + (v.height / 2) as u16, text: text_of(" GAME OVER - R restart, Q quit "), tone: Tone::Red, reverse: true });
        assert(ops_view(ops@) =~= mid.push(OpView { x: 12, y: 6 + v.height / 2, text: t, tone: Tone::Red, reverse: true }));
    }
    let bottom = if rows >= 1 { rows - 1 } else { 0 };
    put(ops, 2, bottom, text_of("SPACE pause  ↑/↓ speed  +/- scale  S shield  O rocks  R reset  Q quit"), Tone::Grey);
    let mut clock = String::new();
    push_padded(&mut clock, v.elapsed_secs / 60, 2);
    push_text(&mut clock, ":");
    push_padded(&mut clock, v.elapsed_secs % 60, 2);
    put(ops, if cols >= 7 { cols - 7 } else { 0 }, bottom, clock, Tone::Grey);
    assert(ops_view(ops@) =~= ops_view(old(ops)@) + tail_ops(*v, cols, rows));
}

/// Lays out one frame of the terminal dashboard for a `cols` x `rows` terminal.
pub fn frame_layout(v: &FrameView, cols: u16, rows: u16) -> (ops: Vec<DrawOp>)
    requires
        v.wf(),
    ensures
        ops_view(ops@) == frame_spec(*v, cols, rows),
{
    let mut ops: Vec<DrawOp> = Vec::new();
    let needed_w = v.width * 2 + 44;
    let needed_h = v.height + 12;
    if (cols as usize) < needed_w || (rows as usize) < needed_h {
        let mut msg = text_of("Terminal too small (");
        push_digits(&mut msg, cols as u64);
        push_text(&mut msg, "x");
        push_digits(&mut msg, rows as u64);
        push_text(&mut msg, "). Need >= ");
        push_digits(&mut msg, needed_w as u64);
        push_text(&mut msg, "x");
        push_digits(&mut msg, needed_h as u64);
        push_text(&mut msg, ". Press '-' or resize. Q quits.");
        put(&mut ops, 0, 0, msg, Tone::White);
        assert(ops_view(ops@) =~= frame_spec(*v, cols, rows));
        return ops;
    }
    let ghost e = ops_view(ops@);
    put_header(&mut ops, v, cols, rows);
    put_rows(&mut ops, v, cols, rows);
    put_info(&mut ops, v, cols, rows);
    put_snake(&mut ops, v, cols, rows);
    put_points(&mut ops, v, &v.obstacles, "▲", Tone::Grey, cols, rows);
    put_points(&mut ops, v, &v.foods, "●", Tone::Yellow, cols, rows);
    let px = (v.width * 2 + 8) as u16;
    put(&mut ops, px, 5, text_of("NEXT MOVE"), Tone::White);
    put(&mut ops, px + 14, 5, text_of("MODEL PROBABILITIES"), Tone::Grey);
    put_probs(&mut ops, v, cols, rows);
    put_stats(&mut ops, v, cols, rows);
    put_tail(&mut ops, v, cols, rows);
    proof {
        assert(e =~= Seq::<OpView>::empty());
        assert(ops_view(ops@) =~= frame_spec(*v, cols, rows));
    }
    ops
}

} // verus!

//! What the player can change while a game runs: the board size that fits a terminal, the
//! keys of the terminal UI, and the commands of the browser dashboard.

use vstd::prelude::*;
use crate::game::{Dir, MAX_FOODS};
use crate::text::{parse_unsigned, parse_unsigned_text, text_is};

verus! {

/// Pause between executed moves, in milliseconds, for each of the five speed levels.
pub const SPEED_LEVELS_MS: [u64; 5] = [1500, 900, 500, 200, 0];

/// The smallest board the game shrinks to.
pub const MIN_W: usize = 10;

pub const MIN_H: usize = 8;

/// The largest board the browser dashboard offers.
pub const MAX_W: usize = 64;

pub const MAX_H: usize = 40;

/// How much one "grow" or "shrink" changes the board.
pub const SCALE_STEP_W: usize = 4;

pub const SCALE_STEP_H: usize = 2;

/// The fastest speed level.
pub const TOP_SPEED: usize = 4;

/// `v` pulled into `lo..=hi`.
pub open spec fn clamp(v: int, lo: int, hi: int) -> int {
    if v < lo {
        lo
    } else if v > hi {
        hi
    } else {
        v
    }
}

/// Board columns the terminal leaves for the board: two terminal columns a cell, after the
/// margins and the side panel.
pub open spec fn avail_w(cols: u16) -> int {
    if cols >= 44 {
        (cols - 44) / 2
    } else {
        0
    }
}

/// Board rows the terminal leaves after the header and footer.
pub open spec fn avail_h(rows: u16) -> int {
    if rows >= 12 {
        rows - 12
    } else {
        0
    }
}

/// A wish of `want` cells brought within `min..=max(avail, min)`; left alone when the terminal
/// gives no room at all (its size is not known yet).
pub open spec fn fit_one(want: int, avail: int, min: int) -> int {
    if avail > 0 {
        clamp(want, min, if avail > min { avail } else { min })
    } else {
        want
    }
}

fn fit_exec(want: usize, avail: usize, min: usize) -> (r: usize)
    ensures
        r == fit_one(want as int, avail as int, min as int),
{
    if avail > 0 {
        let hi = if avail > min { avail } else { min };
        if want < min {
            min
        } else if want > hi {
            hi
        } else {
            want
        }
    } else {
        want
    }
}

/// The board size to use in a terminal of `cols` x `rows`: the wished size shrunk to what fits,
/// never below the minimum board.
pub fn fit_dims(cols: u16, rows: u16, width: usize, height: usize) -> (r: (usize, usize))
    ensures
        r.0 == fit_one(width as int, avail_w(cols), MIN_W as int),
        r.1 == fit_one(height as int, avail_h(rows), MIN_H as int),
        width >= MIN_W ==> r.0 >= MIN_W,
        height >= MIN_H ==> r.1 >= MIN_H,
        avail_w(cols) > 0 ==> r.0 >= MIN_W,
        avail_h(rows) > 0 ==> r.1 >= MIN_H,
        MIN_W <= width <= avail_w(cols) ==> r.0 == width,
        MIN_H <= height <= avail_h(rows) ==> r.1 == height,
{
    let aw: usize = if cols >= 44 { ((cols - 44) / 2) as usize } else { 0 };
    let ah: usize = if rows >= 12 { (rows - 12) as usize } else { 0 };
    (fit_exec(width, aw, MIN_W), fit_exec(height, ah, MIN_H))
}

/// The arrow drawn for the snake's head when it moves in `direction`.
pub fn direction_glyph(direction: Dir) -> (s: &'static str)
    ensures
        s@ == (match direction {
            Dir::Up => "▲"@,
            Dir::Down => "▼"@,
            Dir::Left => "◀"@,
            Dir::Right => "▶"@,
        }),
{
    match direction {
        Dir::Up => "▲",
        Dir::Down => "▼",
        Dir::Left => "◀",
        Dir::Right => "▶",
    }
}

/// The arrow drawn for one past move in the move trail.
pub fn trail_glyph(direction: Dir) -> (s: &'static str)
    ensures
        s@ == (match direction {
            Dir::Up => "↑"@,
            Dir::Down => "↓"@,
            Dir::Left => "←"@,
            Dir::Right => "→"@,
        }),
{
    match direction {
        Dir::Up => "↑",
        Dir::Down => "↓",
        Dir::Left => "←",
        Dir::Right => "→",
    }
}

/// The name the dashboard uses for a direction.
pub fn dir_name(d: Dir) -> (s: &'static str)
    ensures
        s@ == d.spec_name(),
{
    d.name()
}

/// The switches a player flips while the game runs.
#[derive(Clone, Copy, Debug, PartialEq, Eq)]
pub struct Controls {
    pub paused: bool,
    pub shield_enabled: bool,
    /// The dashboard starts the next round by itself a moment after a game ends.
    pub auto_restart: bool,
    /// Index into `SPEED_LEVELS_MS`.
    pub speed_level: usize,
}

impl Controls {
    pub open spec fn wf(self) -> bool {
        self.speed_level <= TOP_SPEED
    }

    /// Running, shield on, auto-restart on, middle speed.
    pub fn new() -> (c: Self)
        ensures
            c == (Controls { paused: false, shield_enabled: true, auto_restart: true, speed_level: 2 }),
            c.wf(),
    {
        Controls { paused: false, shield_enabled: true, auto_restart: true, speed_level: 2 }
    }

    /// The pause between moves at the current speed.
    pub fn move_delay_ms(&self) -> (ms: u64)
        requires
            self.wf(),
        ensures
            ms == SPEED_LEVELS_MS@[self.speed_level as int],
    {
        SPEED_LEVELS_MS[self.speed_level]
    }
}

/// One level faster, up to the fastest.
pub open spec fn faster(level: int) -> int {
    if level < TOP_SPEED {
        level + 1
    } else {
        TOP_SPEED as int
    }
}

/// One level slower, down to the slowest.
pub open spec fn slower(level: int) -> int {
    if level > 0 {
        level - 1
    } else {
        0
    }
}

fn faster_exec(level: usize) -> (r: usize)
    ensures
        r == faster(level as int),
{
    if level < TOP_SPEED {
        level + 1
    } else {
        TOP_SPEED
    }
}

fn slower_exec(level: usize) -> (r: usize)
    ensures
        r == slower(level as int),
{
    if level > 0 {
        level - 1
    } else {
        0
    }
}

/// A key of the terminal UI, as far as the game tells keys apart.
#[derive(Clone, Copy, Debug, PartialEq, Eq)]
pub enum Key {
    Char(char),
    Up,
    Down,
    Esc,
    Other,
}

/// What a key asks of the game beyond the switches it flips itself.
#[derive(Clone, Copy, Debug, PartialEq, Eq, Structural)]
pub enum KeyEffect {
    /// Leave the program.
    Quit,
    /// Nothing more to do.
    Continue,
    /// Start a new round.
    Reset,
    /// A larger board (one scale step).
    Grow,
    /// A smaller board.
    Shrink,
    /// Rocks on or off; a new round starts.
    ToggleObstacles,
}

/// The controls after `key`, and what else it asks for.
pub open spec fn key_outcome(c: Controls, key: Key) -> (Controls, KeyEffect) {
    match key {
        Key::Esc => (c, KeyEffect::Quit),
        Key::Up => (Controls { speed_level: faster(c.speed_level as int) as usize, ..c }, KeyEffect::Continue),
        Key::Down => (Controls { speed_level: slower(c.speed_level as int) as usize, ..c }, KeyEffect::Continue),
        Key::Char(ch) => if ch == 'q' || ch == 'Q' {
            (c, KeyEffect::Quit)
        } else if ch == ' ' {
            (Controls { paused: !c.paused, ..c }, KeyEffect::Continue)
        } else if ch == 'r' || ch == 'R' {
            (c, KeyEffect::Reset)
        } else if ch == 's' || ch == 'S' {
            (Controls { shield_enabled: !c.shield_enabled, ..c }, KeyEffect::Continue)
        } else if ch == '+' || ch == '=' {
            (c, KeyEffect::Grow)
        } else if ch == '-' || ch == '_' {
            (c, KeyEffect::Shrink)
        } else if ch == 'o' || ch == 'O' {
            (c, KeyEffect::ToggleObstacles)
        } else {
            (c, KeyEffect::Continue)
        },
        Key::Other => (c, KeyEffect::Continue),
    }
}

/// Q or Esc quits, space pauses, R resets, S flips the shield, O turns the rocks on or off, the
/// up and down arrows change the speed, `+`/`=` and `-`/`_` change the board size.
pub fn handle_key(c: &mut Controls, key: Key) -> (e: KeyEffect)
    requires
        old(c).wf(),
    ensures
        (*final(c), e) == key_outcome(*old(c), key),
        final(c).wf(),
{
    match key {
        Key::Esc => KeyEffect::Quit,
        Key::Up => {
            c.speed_level = faster_exec(c.speed_level);
            KeyEffect::Continue
        },
        Key::Down => {
            c.speed_level = slower_exec(c.speed_level);
            KeyEffect::Continue
        },
        Key::Char(ch) => {
            if ch == 'q' || ch == 'Q' {
                KeyEffect::Quit
            } else if ch == ' ' {
                c.paused = !c.paused;
                KeyEffect::Continue
            } else if ch == 'r' || ch == 'R' {
                KeyEffect::Reset
            } else if ch == 's' || ch == 'S' {
                c.shield_enabled = !c.shield_enabled;
                KeyEffect::Continue
            } else if ch == '+' || ch == '=' {
                KeyEffect::Grow
            } else if ch == '-' || ch == '_' {
                KeyEffect::Shrink
            } else if ch == 'o' || ch == 'O' {
                KeyEffect::ToggleObstacles
            } else {
                KeyEffect::Continue
            }
        },
        Key::Other => KeyEffect::Continue,
    }
}

/// The size keys: `+` and `=` ask for a larger board, `-` and `_` for a smaller one, and none of
/// them changes the switches, whatever state the controls are in.
pub proof fn lemma_size_keys(c: Controls)
    ensures
        key_outcome(c, Key::Char('+')) == (c, KeyEffect::Grow),
        key_outcome(c, Key::Char('=')) == (c, KeyEffect::Grow),
        key_outcome(c, Key::Char('-')) == (c, KeyEffect::Shrink),
        key_outcome(c, Key::Char('_')) == (c, KeyEffect::Shrink),
{
}

/// The other keys the README lists: `q`/`Q` and Esc quit, `r`/`R` resets, `o`/`O` turns the
/// rocks on or off, all leaving the switches as they are; space flips pause and `s`/`S` the
/// shield, and nothing else.
pub proof fn lemma_command_keys(c: Controls)
    ensures
        key_outcome(c, Key::Char('q')) == (c, KeyEffect::Quit),
        key_outcome(c, Key::Char('Q')) == (c, KeyEffect::Quit),
        key_outcome(c, Key::Esc) == (c, KeyEffect::Quit),
        key_outcome(c, Key::Char('r')) == (c, KeyEffect::Reset),
        key_outcome(c, Key::Char('R')) == (c, KeyEffect::Reset),
        key_outcome(c, Key::Char('o')) == (c, KeyEffect::ToggleObstacles),
        key_outcome(c, Key::Char('O')) == (c, KeyEffect::ToggleObstacles),
        key_outcome(c, Key::Char(' ')) == (Controls { paused: !c.paused, ..c }, KeyEffect::Continue),
        key_outcome(c, Key::Char('s')) == (Controls { shield_enabled: !c.shield_enabled, ..c }, KeyEffect::Continue),
        key_outcome(c, Key::Char('S')) == (Controls { shield_enabled: !c.shield_enabled, ..c }, KeyEffect::Continue),
{
}

/// One scale step larger (`grow`) or smaller in the terminal, never under the minimum board, then
/// fitted to the terminal.
pub fn scaled_dims(cols: u16, rows: u16, width: usize, height: usize, grow: bool) -> (r: (usize, usize))
    requires
        grow ==> width + SCALE_STEP_W <= usize::MAX,
        grow ==> height + SCALE_STEP_H <= usize::MAX,
    ensures
        ({
            let w = if grow { width + SCALE_STEP_W } else { width - SCALE_STEP_W };
            let h = if grow { height + SCALE_STEP_H } else { height - SCALE_STEP_H };
            &&& r.0 == fit_one(if w < MIN_W { MIN_W as int } else { w }, avail_w(cols), MIN_W as int)
            &&& r.1 == fit_one(if h < MIN_H { MIN_H as int } else { h }, avail_h(rows), MIN_H as int)
        }),
{
    let w: usize = if grow {
        if width + SCALE_STEP_W < MIN_W { MIN_W } else { width + SCALE_STEP_W }
    } else if width < MIN_W + SCALE_STEP_W {
        MIN_W
    } else {
        width - SCALE_STEP_W
    };
    let h: usize = if grow {
        if height + SCALE_STEP_H < MIN_H { MIN_H } else { height + SCALE_STEP_H }
    } else if height < MIN_H + SCALE_STEP_H {
        MIN_H
    } else {
        height - SCALE_STEP_H
    };
    fit_dims(cols, rows, w, h)
}

/// Where the segment of `s` that starts at `from` ends: at the first `c` from `from` on, or at
/// the end of `s`.
pub open spec fn seg_end(s: Seq<char>, c: char, from: int) -> int
    decreases s.len() - from,
{
    if from >= s.len() {
        s.len() as int
    } else if s[from] == c {
        from
    } else {
        seg_end(s, c, from + 1)
    }
}

pub(crate) proof fn lemma_seg_end(s: Seq<char>, c: char, from: int)
    requires
        0 <= from <= s.len(),
    ensures
        from <= seg_end(s, c, from) <= s.len(),
        forall|k: int| from <= k < seg_end(s, c, from) ==> s[k] != c,
        seg_end(s, c, from) < s.len() ==> s[seg_end(s, c, from)] == c,
    decreases s.len() - from,
{
    if from < s.len() && s[from] != c {
        lemma_seg_end(s, c, from + 1);
    }
}

/// The position of the first `c` in `text` at or after `from`, or the length of `text`.
pub(crate) fn find_char(text: &str, c: char, from: usize) -> (r: usize)
    requires
        from <= text@.len(),
    ensures
        r == seg_end(text@, c, from as int),
{
    let n = text.unicode_len();
    let mut i = from;
    while i < n
        invariant
            n == text@.len(),
            from <= i <= n,
            seg_end(text@, c, i as int) == seg_end(text@, c, from as int),
        decreases n - i,
    {
        if text.get_char(i) == c {
            return i;
        }
        i += 1;
    }
    i
}

/// A command of the browser dashboard (its keys are those of the terminal, plus auto-restart;
/// its settings panel changes the board size, the speed, the food count and the rocks).
#[derive(Clone, Copy, Debug, PartialEq, Eq, Structural)]
pub enum Command {
    Pause,
    Reset,
    Shield,
    Auto,
    Faster,
    Slower,
    /// Speed level, counted from zero.
    Speed(usize),
    Grow,
    Shrink,
    /// A board size as asked, before it is brought within the dashboard's limits.
    Size(usize, usize),
    /// How many foods lie on the board at once, from 1 to `MAX_FOODS`.
    Food(usize),
    /// Rocks on or off.
    Obstacles,
}

/// The command name: the path up to its first `/`.
pub open spec fn command_name(path: Seq<char>) -> Seq<char> {
    path.subrange(0, seg_end(path, '/', 0))
}

/// The argument: the segment after the first `/`, if there is one.
pub open spec fn command_arg(path: Seq<char>) -> Option<Seq<char>> {
    let e = seg_end(path, '/', 0);
    if e < path.len() {
        Some(path.subrange(e + 1, seg_end(path, '/', e + 1)))
    } else {
        None
    }
}

/// `speed/N` with N from 1 to 5.
pub open spec fn speed_of(arg: Option<Seq<char>>) -> Option<Command> {
    match arg {
        Some(a) => match parse_unsigned(a, usize::MAX as int) {
            Some(l) => if 1 <= l <= 5 {
                Some(Command::Speed((l - 1) as usize))
            } else {
                None
            },
            None => None,
        },
        None => None,
    }
}

/// `size/WxH`: two numbers on either side of the first `x`.
pub open spec fn size_of(arg: Option<Seq<char>>) -> Option<Command> {
    match arg {
        Some(a) => {
            let x = seg_end(a, 'x', 0);
            if x < a.len() {
                match (parse_unsigned(a.subrange(0, x), usize::MAX as int), parse_unsigned(a.subrange(x + 1, a.len() as int), usize::MAX as int)) {
                    (Some(w), Some(h)) => Some(Command::Size(w as usize, h as usize)),
                    _ => None,
                }
            } else {
                None
            }
        },
        None => None,
    }
}

/// `food/N` with N from 1 to `MAX_FOODS`.
pub open spec fn food_of(arg: Option<Seq<char>>) -> Option<Command> {
    match arg {
        Some(a) => match parse_unsigned(a, usize::MAX as int) {
            Some(n) => if 1 <= n <= MAX_FOODS {
                Some(Command::Food(n as usize))
            } else {
                None
            },
            None => None,
        },
        None => None,
    }
}

/// The command a dashboard request path names, if it names one.
pub open spec fn command_of(path: Seq<char>) -> Option<Command> {
    let name = command_name(path);
    let arg = command_arg(path);
    if name == "pause"@ {
        Some(Command::Pause)
    } else if name == "reset"@ {
        Some(Command::Reset)
    } else if name == "shield"@ {
        Some(Command::Shield)
    } else if name == "auto"@ {
        Some(Command::Auto)
    } else if name == "faster"@ {
        Some(Command::Faster)
    } else if name == "slower"@ {
        Some(Command::Slower)
    } else if name == "speed"@ {
        speed_of(arg)
    } else if name == "grow"@ {
        Some(Command::Grow)
    } else if name == "shrink"@ {
        Some(Command::Shrink)
    } else if name == "size"@ {
        size_of(arg)
    } else if name == "food"@ {
        food_of(arg)
    } else if name == "obstacles"@ {
        Some(Command::Obstacles)
    } else {
        None
    }
}

fn parse_speed(arg: Option<&str>) -> (r: Option<Command>)
    ensures
        r == speed_of(match arg {
            Some(a) => Some(a@),
            None => None::<Seq<char>>,
        }),
{
    match arg {
        Some(a) => match parse_unsigned_text(a, usize::MAX as u64) {
            Some(l) => if 1 <= l && l <= 5 {
                Some(Command::Speed((l - 1) as usize))
            } else {
                None
            },
            None => None,
        },
        None => None,
    }
}

fn parse_food(arg: Option<&str>) -> (r: Option<Command>)
    ensures
        r == food_of(match arg {
            Some(a) => Some(a@),
            None => None::<Seq<char>>,
        }),
{
    match arg {
        Some(a) => match parse_unsigned_text(a, usize::MAX as u64) {
            Some(n) => if 1 <= n && n <= MAX_FOODS as u64 {
                Some(Command::Food(n as usize))
            } else {
                None
            },
            None => None,
        },
        None => None,
    }
}

fn parse_size(arg: Option<&str>) -> (r: Option<Command>)
    ensures
        r == size_of(match arg {
            Some(a) => Some(a@),
            None => None::<Seq<char>>,
        }),
{
    match arg {
        Some(a) => {
            let n = a.unicode_len();
            let x = find_char(a, 'x', 0);
            if x < n {
                let w = parse_unsigned_text(a.substring_char(0, x), usize::MAX as u64);
                let h = parse_unsigned_text(a.substring_char(x + 1, n), usize::MAX as u64);
                match (w, h) {
                    (Some(w), Some(h)) => Some(Command::Size(w as usize, h as usize)),
                    _ => None,
                }
            } else {
                None
            }
        },
        None => None,
    }
}

/// The command a dashboard request path (what follows `/api/`) names: `pause`, `reset`,
/// `shield`, `auto`, `faster`, `slower`, `speed/N` (N from 1 to 5), `grow`, `shrink` or
/// `size/WxH`, `food/N` (N from 1 to 12) or `obstacles`; `None` for anything else.
pub fn parse_command(path: &str) -> (r: Option<Command>)
    ensures
        r == command_of(path@),
{
    let n = path.unicode_len();
    let e = find_char(path, '/', 0);
    proof {
        lemma_seg_end(path@, '/', 0);
    }
    let name = path.substring_char(0, e);
    let arg: Option<&str> = if e < n {
        let e2 = find_char(path, '/', e + 1);
        proof {
            lemma_seg_end(path@, '/', e + 1);
        }
        Some(path.substring_char(e + 1, e2))
    } else {
        None
    };
    assert(name@ == command_name(path@));
    assert(match arg {
        Some(a) => Some(a@),
        None => None::<Seq<char>>,
    } == command_arg(path@));
    if text_is(name, "pause") {
        Some(Command::Pause)
    } else if text_is(name, "reset") {
        Some(Command::Reset)
    } else if text_is(name, "shield") {
        Some(Command::Shield)
    } else if text_is(name, "auto") {
        Some(Command::Auto)
    } else if text_is(name, "faster") {
        Some(Command::Faster)
    } else if text_is(name, "slower") {
        Some(Command::Slower)
    } else if text_is(name, "speed") {
        parse_speed(arg)
    } else if text_is(name, "grow") {
        Some(Command::Grow)
    } else if text_is(name, "shrink") {
        Some(Command::Shrink)
    } else if text_is(name, "size") {
        parse_size(arg)
    } else if text_is(name, "food") {
        parse_food(arg)
    } else if text_is(name, "obstacles") {
        Some(Command::Obstacles)
    } else {
        None
    }
}

/// What a dashboard command asks of the game beyond the switches it flips itself.
#[derive(Clone, Copy, Debug, PartialEq, Eq, Structural)]
pub enum Effect {
    Nothing,
    /// Start a new round.
    Reset,
    /// Start a new round on a board of this size.
    Resize(usize, usize),
    /// Keep this many foods on the board.
    Foods(usize),
    /// Rocks on or off; a new round starts.
    ToggleObstacles,
}

/// The dashboard's board limits applied to a wished size.
pub open spec fn web_dims(w: int, h: int) -> (int, int) {
    (clamp(w, MIN_W as int, MAX_W as int), clamp(h, MIN_H as int, MAX_H as int))
}

fn clamp_exec(v: usize, lo: usize, hi: usize) -> (r: usize)
    requires
        lo <= hi,
    ensures
        r == clamp(v as int, lo as int, hi as int),
{
    if v < lo {
        lo
    } else if v > hi {
        hi
    } else {
        v
    }
}

/// The controls after a dashboard command on a `width` x `height` board, and what else it asks.
pub open spec fn command_outcome(c: Controls, width: int, height: int, cmd: Command) -> (Controls, Effect) {
    match cmd {
        Command::Pause => (Controls { paused: !c.paused, ..c }, Effect::Nothing),
        Command::Reset => (c, Effect::Reset),
        Command::Shield => (Controls { shield_enabled: !c.shield_enabled, ..c }, Effect::Nothing),
        Command::Auto => (Controls { auto_restart: !c.auto_restart, ..c }, Effect::Nothing),
        Command::Faster => (Controls { speed_level: faster(c.speed_level as int) as usize, ..c }, Effect::Nothing),
        Command::Slower => (Controls { speed_level: slower(c.speed_level as int) as usize, ..c }, Effect::Nothing),
        Command::Speed(l) => (Controls { speed_level: l, ..c }, Effect::Nothing),
        Command::Grow => {
            let d = web_dims(width + SCALE_STEP_W, height + SCALE_STEP_H);
            (c, Effect::Resize(d.0 as usize, d.1 as usize))
        },
        Command::Shrink => {
            let d = web_dims(width - SCALE_STEP_W, height - SCALE_STEP_H);
            (c, Effect::Resize(d.0 as usize, d.1 as usize))
        },
        Command::Size(w, h) => {
            let d = web_dims(w as int, h as int);
            (c, Effect::Resize(d.0 as usize, d.1 as usize))
        },
        Command::Food(n) => (c, Effect::Foods(n)),
        Command::Obstacles => (c, Effect::ToggleObstacles),
    }
}

/// Carries out a dashboard command on the switches and says what else the game must do.
pub fn apply_command(c: &mut Controls, width: usize, height: usize, cmd: Command) -> (e: Effect)
    requires
        old(c).wf(),
        cmd matches Command::Speed(l) ==> l <= TOP_SPEED,
    ensures
        (*final(c), e) == command_outcome(*old(c), width as int, height as int, cmd),
        final(c).wf(),
{
    match cmd {
        Command::Pause => {
            c.paused = !c.paused;
            Effect::Nothing
        },
        Command::Reset => Effect::Reset,
        Command::Shield => {
            c.shield_enabled = !c.shield_enabled;
            Effect::Nothing
        },
        Command::Auto => {
            c.auto_restart = !c.auto_restart;
            Effect::Nothing
        },
        Command::Faster => {
            c.speed_level = faster_exec(c.speed_level);
            Effect::Nothing
        },
        Command::Slower => {
            c.speed_level = slower_exec(c.speed_level);
            Effect::Nothing
        },
        Command::Speed(l) => {
            c.speed_level = l;
            Effect::Nothing
        },
        Command::Grow => {
            let w = if width > MAX_W { MAX_W } else { clamp_exec(width + SCALE_STEP_W, MIN_W, MAX_W) };
            let h = if height > MAX_H { MAX_H } else { clamp_exec(height + SCALE_STEP_H, MIN_H, MAX_H) };
            Effect::Resize(w, h)
        },
        Command::Shrink => {
            let w = if width < SCALE_STEP_W { MIN_W } else { clamp_exec(width - SCALE_STEP_W, MIN_W, MAX_W) };
            let h = if height < SCALE_STEP_H { MIN_H } else { clamp_exec(height - SCALE_STEP_H, MIN_H, MAX_H) };
            Effect::Resize(w, h)
        },
        Command::Size(w, h) => Effect::Resize(clamp_exec(w, MIN_W, MAX_W), clamp_exec(h, MIN_H, MAX_H)),
        Command::Food(n) => Effect::Foods(n),
        Command::Obstacles => Effect::ToggleObstacles,
    }
}

/// A dashboard request: the command it names carried out, or `None` (and nothing changed) when
/// the path names no command.
pub fn web_command(c: &mut Controls, width: usize, height: usize, path: &str) -> (r: Option<Effect>)
    requires
        old(c).wf(),
    ensures
        final(c).wf(),
        match command_of(path@) {
            Some(cmd) => {
                let (c2, e) = command_outcome(*old(c), width as int, height as int, cmd);
                *final(c) == c2 && r == Some(e)
            },
            None => *final(c) == *old(c) && r is None,
        },
{
    match parse_command(path) {
        Some(cmd) => Some(apply_command(c, width, height, cmd)),
        None => None,
    }
}

/// The arrow keys change only the speed, one level at a time: up one level faster unless the
/// game already runs at the top speed, down one level slower unless it already runs at the
/// slowest.
pub proof fn lemma_speed_keys(c: Controls)
    requires
        c.wf(),
    ensures
        key_outcome(c, Key::Up) == (Controls {
            speed_level: (if c.speed_level < TOP_SPEED { c.speed_level + 1 } else { c.speed_level as int }) as usize,
            ..c
        }, KeyEffect::Continue),
        key_outcome(c, Key::Down) == (Controls {
            speed_level: (if c.speed_level > 0 { c.speed_level - 1 } else { 0 }) as usize,
            ..c
        }, KeyEffect::Continue),
{
}

/// The dashboard's buttons do what the terminal's keys do: pause and shield flip the same
/// switches as space and `s`, faster and slower move the speed as the arrow keys, and reset asks
/// for a new round as `r`; none of them asks anything else.
pub proof fn lemma_commands_match_keys(c: Controls, width: int, height: int)
    ensures
        command_outcome(c, width, height, Command::Pause) == (key_outcome(c, Key::Char(' ')).0, Effect::Nothing),
        command_outcome(c, width, height, Command::Shield) == (key_outcome(c, Key::Char('s')).0, Effect::Nothing),
        command_outcome(c, width, height, Command::Faster) == (key_outcome(c, Key::Up).0, Effect::Nothing),
        command_outcome(c, width, height, Command::Slower) == (key_outcome(c, Key::Down).0, Effect::Nothing),
        command_outcome(c, width, height, Command::Reset) == (key_outcome(c, Key::Char('r')).0, Effect::Reset),
        key_outcome(c, Key::Char('r')).1 == KeyEffect::Reset,
{
}

/// Growing never gives a smaller board and shrinking never a larger one, and either stays
/// within the dashboard's limits, for a board that is within them.
pub proof fn lemma_resize_direction(c: Controls, width: int, height: int)
    requires
        MIN_W <= width <= MAX_W,
        MIN_H <= height <= MAX_H,
    ensures
        command_outcome(c, width, height, Command::Grow).0 == c,
        command_outcome(c, width, height, Command::Shrink).0 == c,
        command_outcome(c, width, height, Command::Grow).1 matches Effect::Resize(w, h) && width <= w <= MAX_W
            && height <= h <= MAX_H,
        command_outcome(c, width, height, Command::Shrink).1 matches Effect::Resize(w, h) && MIN_W <= w <= width
            && MIN_H <= h <= height,
{
}

/// The size keys ask the same of the terminal board as the dashboard's grow and shrink buttons,
/// and the rocks key the same as its rocks button.
pub proof fn lemma_keys_and_buttons_agree(c: Controls, width: int, height: int)
    ensures
        key_outcome(c, Key::Char('+')).0 == command_outcome(c, width, height, Command::Grow).0,
        key_outcome(c, Key::Char('-')).0 == command_outcome(c, width, height, Command::Shrink).0,
        key_outcome(c, Key::Char('o')) == (c, KeyEffect::ToggleObstacles),
        command_outcome(c, width, height, Command::Obstacles) == (c, Effect::ToggleObstacles),
{
}

/// Each dashboard command name gives its command, whatever argument follows: the switches and
/// buttons need none, `speed/N` with `N` from 1 to 5 sets speed level `N - 1`, and `food/N` with
/// `N` from 1 to `MAX_FOODS` keeps `N` foods.
pub proof fn lemma_command_names(path: Seq<char>)
    ensures
        command_name(path) == "pause"@ ==> command_of(path) == Some(Command::Pause),
        command_name(path) == "reset"@ ==> command_of(path) == Some(Command::Reset),
        command_name(path) == "shield"@ ==> command_of(path) == Some(Command::Shield),
        command_name(path) == "auto"@ ==> command_of(path) == Some(Command::Auto),
        command_name(path) == "faster"@ ==> command_of(path) == Some(Command::Faster),
        command_name(path) == "slower"@ ==> command_of(path) == Some(Command::Slower),
        command_name(path) == "grow"@ ==> command_of(path) == Some(Command::Grow),
        command_name(path) == "shrink"@ ==> command_of(path) == Some(Command::Shrink),
        command_name(path) == "obstacles"@ ==> command_of(path) == Some(Command::Obstacles),
        command_name(path) == "speed"@ ==> (command_arg(path) matches Some(a) ==> (parse_unsigned(a, usize::MAX as int) matches Some(
            l,
        ) ==> (1 <= l <= 5 ==> command_of(path) == Some(Command::Speed((l - 1) as usize))))),
        command_name(path) == "food"@ ==> (command_arg(path) matches Some(a) ==> (parse_unsigned(a, usize::MAX as int) matches Some(
            n,
        ) ==> (1 <= n <= MAX_FOODS ==> command_of(path) == Some(Command::Food(n as usize))))),
{
    reveal_strlit("pause");
    reveal_strlit("reset");
    reveal_strlit("shield");
    reveal_strlit("auto");
    reveal_strlit("faster");
    reveal_strlit("slower");
    reveal_strlit("speed");
    reveal_strlit("grow");
    reveal_strlit("shrink");
    reveal_strlit("size");
    reveal_strlit("food");
    reveal_strlit("obstacles");
    assert("pause"@.len() == 5 && "reset"@.len() == 5 && "speed"@.len() == 5);
    assert("shield"@.len() == 6 && "faster"@.len() == 6 && "slower"@.len() == 6 && "shrink"@.len() == 6);
    assert("auto"@.len() == 4 && "grow"@.len() == 4 && "size"@.len() == 4 && "food"@.len() == 4);
    assert("obstacles"@.len() == 9);
    assert("pause"@[0] != "reset"@[0] && "pause"@[0] != "speed"@[0] && "reset"@[0] != "speed"@[0]);
    assert("shield"@[0] != "faster"@[0] && "slower"@[0] != "faster"@[0] && "shrink"@[0] != "faster"@[0]);
    assert("shield"@[1] != "slower"@[1] && "shield"@[2] != "shrink"@[2] && "slower"@[1] != "shrink"@[1]);
    assert("auto"@[0] != "grow"@[0] && "auto"@[0] != "size"@[0] && "auto"@[0] != "food"@[0]);
    assert("grow"@[0] != "size"@[0] && "grow"@[0] != "food"@[0] && "size"@[0] != "food"@[0]);
}

} // verus!

//! The dashboard's few HTTP requests: the request line, the one header that matters, and which
//! page or command a request asks for.

use vstd::prelude::*;
use crate::controls::seg_end;
use crate::text::{parse_unsigned, parse_unsigned_text, text_is};

verus! {

/// Unicode White_Space, what `char::is_whitespace` accepts.
pub open spec fn is_ws(c: char) -> bool {
    ||| ('\u{9}' <= c && c <= '\u{d}')
    ||| c == ' '
    ||| c == '\u{85}'
    ||| c == '\u{a0}'
    ||| c == '\u{1680}'
    ||| ('\u{2000}' <= c && c <= '\u{200a}')
    ||| c == '\u{2028}'
    ||| c == '\u{2029}'
    ||| c == '\u{202f}'
    ||| c == '\u{205f}'
    ||| c == '\u{3000}'
}

fn is_ws_exec(c: char) -> (r: bool)
    ensures
        r == is_ws(c),
{
    ('\u{9}' <= c && c <= '\u{d}') || c == ' ' || c == '\u{85}' || c == '\u{a0}' || c == '\u{1680}' || ('\u{2000}'
        <= c && c <= '\u{200a}') || c == '\u{2028}' || c == '\u{2029}' || c == '\u{202f}' || c == '\u{205f}' || c
        == '\u{3000}'
}

/// The first position from `i` on that is not whitespace (or the end).
pub open spec fn skip_ws(s: Seq<char>, i: int) -> int
    decreases s.len() - i,
{
    if i >= s.len() {
        s.len() as int
    } else if is_ws(s[i]) {
        skip_ws(s, i + 1)
    } else {
        i
    }
}

/// The first position from `i` on that is whitespace (or the end).
pub open spec fn word_end(s: Seq<char>, i: int) -> int
    decreases s.len() - i,
{
    if i >= s.len() {
        s.len() as int
    } else if is_ws(s[i]) {
        i
    } else {
        word_end(s, i + 1)
    }
}

/// The end of `s` without its trailing whitespace, looking at the first `n` characters.
pub open spec fn trim_end_at(s: Seq<char>, n: int) -> int
    decreases n,
{
    if n <= 0 {
        0
    } else if is_ws(s[n - 1]) {
        trim_end_at(s, n - 1)
    } else {
        n
    }
}

/// `s` without leading and trailing whitespace (`str::trim`).
pub open spec fn trimmed(s: Seq<char>) -> Seq<char> {
    let a = skip_ws(s, 0);
    let b = trim_end_at(s, s.len() as int);
    if a < b {
        s.subrange(a, b)
    } else {
        Seq::empty()
    }
}

fn skip_ws_exec(s: &str, i: usize) -> (r: usize)
    requires
        i <= s@.len(),
    ensures
        r == skip_ws(s@, i as int),
{
    let n = s.unicode_len();
    let mut j = i;
    while j < n && is_ws_exec(s.get_char(j))
        invariant
            n == s@.len(),
            i <= j <= n,
            skip_ws(s@, j as int) == skip_ws(s@, i as int),
        decreases n - j,
    {
        j += 1;
    }
    j
}

fn word_end_exec(s: &str, i: usize) -> (r: usize)
    requires
        i <= s@.len(),
    ensures
        r == word_end(s@, i as int),
{
    let n = s.unicode_len();
    let mut j = i;
    while j < n && !is_ws_exec(s.get_char(j))
        invariant
            n == s@.len(),
            i <= j <= n,
            word_end(s@, j as int) == word_end(s@, i as int),
        decreases n - j,
    {
        j += 1;
    }
    j
}

proof fn lemma_skip_ws_bounds(s: Seq<char>, i: int)
    requires
        0 <= i <= s.len(),
    ensures
        i <= skip_ws(s, i) <= s.len(),
    decreases s.len() - i,
{
    if i < s.len() && is_ws(s[i]) {
        lemma_skip_ws_bounds(s, i + 1);
    }
}

proof fn lemma_word_end_bounds(s: Seq<char>, i: int)
    requires
        0 <= i <= s.len(),
    ensures
        i <= word_end(s, i) <= s.len(),
    decreases s.len() - i,
{
    if i < s.len() && !is_ws(s[i]) {
        lemma_word_end_bounds(s, i + 1);
    }
}

proof fn lemma_trim_end_bounds(s: Seq<char>, n: int)
    requires
        0 <= n <= s.len(),
    ensures
        0 <= trim_end_at(s, n) <= n,
    decreases n,
{
    if n > 0 && is_ws(s[n - 1]) {
        lemma_trim_end_bounds(s, n - 1);
    }
}

/// The first two words of a request line (as `split_whitespace` finds them): the method, `""`
/// when there is none, and the target, `"/"` when there is none.
pub open spec fn request_words(line: Seq<char>) -> (Seq<char>, Seq<char>) {
    let a0 = skip_ws(line, 0);
    let a1 = word_end(line, a0);
    let b0 = skip_ws(line, a1);
    let b1 = word_end(line, b0);
    (
        if a0 < line.len() { line.subrange(a0, a1) } else { ""@ },
        if b0 < line.len() { line.subrange(b0, b1) } else { "/"@ },
    )
}

/// The method and target of a request line: its first two words, with `""` and `"/"` standing in
/// for missing ones.
pub fn request_line(line: &str) -> (r: (String, String))
    ensures
        (r.0@, r.1@) == request_words(line@),
{
    let n = line.unicode_len();
    let a0 = skip_ws_exec(line, 0);
    proof { lemma_skip_ws_bounds(line@, 0); }
    let a1 = word_end_exec(line, a0);
    proof { lemma_word_end_bounds(line@, a0 as int); }
    let b0 = skip_ws_exec(line, a1);
    proof { lemma_skip_ws_bounds(line@, a1 as int); }
    let b1 = word_end_exec(line, b0);
    proof { lemma_word_end_bounds(line@, b0 as int); }
    let method = if a0 < n { crate::text::text_of(line.substring_char(a0, a1)) } else { String::new() };
    let target = if b0 < n { crate::text::text_of(line.substring_char(b0, b1)) } else { crate::text::text_of("/") };
    proof {
        reveal_strlit("/");
        reveal_strlit("");
        assert(""@ =~= Seq::<char>::empty());
    }
    (method, target)
}

/// `c` with ASCII upper case letters made lower case.
pub open spec fn ascii_lower(c: char) -> char {
    if 'A' <= c && c <= 'Z' {
        ((c as u32) + 32) as char
    } else {
        c
    }
}

fn ascii_lower_exec(c: char) -> (r: char)
    ensures
        r == ascii_lower(c),
{
    if 'A' <= c && c <= 'Z' {
        ((c as u8) + 32) as char
    } else {
        c
    }
}

/// `a` and `b` are equal but for ASCII case (`str::eq_ignore_ascii_case`).
pub open spec fn eq_ignore_case(a: Seq<char>, b: Seq<char>) -> bool {
    a.len() == b.len() && forall|i: int| 0 <= i < a.len() ==> #[trigger] ascii_lower(a[i]) == ascii_lower(b[i])
}

fn eq_ignore_case_exec(a: &str, b: &str) -> (r: bool)
    ensures
        r == eq_ignore_case(a@, b@),
{
    let n = a.unicode_len();
    if n != b.unicode_len() {
        return false;
    }
    let mut i: usize = 0;
    while i < n
        invariant
            n == a@.len(),
            n == b@.len(),
            i <= n,
            forall|j: int| 0 <= j < i ==> #[trigger] ascii_lower(a@[j]) == ascii_lower(b@[j]),
        decreases n - i,
    {
        if ascii_lower_exec(a.get_char(i)) != ascii_lower_exec(b.get_char(i)) {
            return false;
        }
        i += 1;
    }
    true
}

/// The largest request body the dashboard reads.
pub const MAX_BODY: usize = 4096;

/// What a header line says of the body length: for a `Content-Length` header (any case), its
/// value trimmed and read as a count (0 when it is none), at most `MAX_BODY`; `None` for any
/// other line.
pub open spec fn content_length_of(h: Seq<char>) -> Option<int> {
    let c = seg_end(h, ':', 0);
    if c < h.len() && eq_ignore_case(h.subrange(0, c), "content-length"@) {
        let v = match parse_unsigned(trimmed(h.subrange(c + 1, h.len() as int)), usize::MAX as int) {
            Some(v) => v,
            None => 0,
        };
        Some(if v < MAX_BODY { v } else { MAX_BODY as int })
    } else {
        None
    }
}

/// Reads a header line: the body length a `Content-Length` header gives, if it is one.
pub fn content_length(h: &str) -> (r: Option<usize>)
    ensures
        match r {
            Some(v) => content_length_of(h@) == Some(v as int),
            None => content_length_of(h@) is None,
        },
{
    let n = h.unicode_len();
    let c = crate::controls::find_char(h, ':', 0);
    proof {
        crate::controls::lemma_seg_end(h@, ':', 0);
    }
    if c < n && eq_ignore_case_exec(h.substring_char(0, c), "content-length") {
        let rest = h.substring_char(c + 1, n);
        let a = skip_ws_exec(rest, 0);
        proof {
            lemma_skip_ws_bounds(rest@, 0);
            lemma_trim_end_bounds(rest@, rest@.len() as int);
        }
        let b = trim_end_exec(rest);
        let v: u64 = if a < b {
            match parse_unsigned_text(rest.substring_char(a, b), usize::MAX as u64) {
                Some(v) => v,
                None => 0,
            }
        } else {
            proof {
                assert(trimmed(rest@) =~= Seq::<char>::empty());
            }
            0
        };
        Some(if v < MAX_BODY as u64 { v as usize } else { MAX_BODY })
    } else {
        None
    }
}

fn trim_end_exec(s: &str) -> (r: usize)
    ensures
        r == trim_end_at(s@, s@.len() as int),
{
    let mut n = s.unicode_len();
    while n > 0 && is_ws_exec(s.get_char(n - 1))
        invariant
            n <= s@.len(),
            trim_end_at(s@, n as int) == trim_end_at(s@, s@.len() as int),
        decreases n,
    {
        n -= 1;
    }
    n
}

/// A line that ends the request head: an empty line.
pub fn ends_head(line: &str) -> (r: bool)
    ensures
        r == (line@ == "\r\n"@ || line@ == "\n"@),
{
    text_is(line, "\r\n") || text_is(line, "\n")
}

/// What a request asks for.
#[derive(Clone, Debug, PartialEq, Eq)]
pub enum Route {
    /// The dashboard page.
    Page,
    /// The current state, once.
    State,
    /// The stream of state updates.
    Events,
    /// A command: what follows `/api/cmd/`.
    Command(String),
    /// The site icon: nothing.
    Icon,
    NotFound,
}

/// A route as plain values: which one, and the command text (empty but for a command).
#[derive(PartialEq, Eq, Structural)]
pub enum RouteKind {
    Page,
    State,
    Events,
    Command,
    Icon,
    NotFound,
}

impl View for Route {
    type V = (RouteKind, Seq<char>);

    open spec fn view(&self) -> (RouteKind, Seq<char>) {
        match self {
            Route::Page => (RouteKind::Page, Seq::empty()),
            Route::State => (RouteKind::State, Seq::empty()),
            Route::Events => (RouteKind::Events, Seq::empty()),
            Route::Command(c) => (RouteKind::Command, c@),
            Route::Icon => (RouteKind::Icon, Seq::empty()),
            Route::NotFound => (RouteKind::NotFound, Seq::empty()),
        }
    }
}

/// The path of a request target: up to its first `?`.
pub open spec fn path_of(target: Seq<char>) -> Seq<char> {
    target.subrange(0, seg_end(target, '?', 0))
}

/// `GET /` or `GET /index.html` is the page, `GET /api/state` the state, `GET /api/events` the
/// event stream, `POST /api/cmd/<command>` a command, `GET /favicon.ico` the icon; anything else is
/// not found. The query string is ignored.
pub open spec fn route_of(method: Seq<char>, target: Seq<char>) -> (RouteKind, Seq<char>) {
    let p = path_of(target);
    let get = method == "GET"@;
    if get && (p == "/"@ || p == "/index.html"@) {
        (RouteKind::Page, Seq::empty())
    } else if get && p == "/api/state"@ {
        (RouteKind::State, Seq::empty())
    } else if get && p == "/api/events"@ {
        (RouteKind::Events, Seq::empty())
    } else if method == "POST"@ && p.len() >= 9 && p.subrange(0, 9) == "/api/cmd/"@ {
        (RouteKind::Command, p.subrange(9, p.len() as int))
    } else if get && p == "/favicon.ico"@ {
        (RouteKind::Icon, Seq::empty())
    } else {
        (RouteKind::NotFound, Seq::empty())
    }
}

/// Which page or command a request asks for.
pub fn route(method: &str, target: &str) -> (r: Route)
    ensures
        r@ == route_of(method@, target@),
{
    let q = crate::controls::find_char(target, '?', 0);
    proof {
        crate::controls::lemma_seg_end(target@, '?', 0);
    }
    let p = target.substring_char(0, q);
    let get = text_is(method, "GET");
    if get && (text_is(p, "/") || text_is(p, "/index.html")) {
        Route::Page
    } else if get && text_is(p, "/api/state") {
        Route::State
    } else if get && text_is(p, "/api/events") {
        Route::Events
    } else if text_is(method, "POST") && p.unicode_len() >= 9 && text_is(p.substring_char(0, 9), "/api/cmd/") {
        let n = p.unicode_len();
        Route::Command(crate::text::text_of(p.substring_char(9, n)))
    } else if get && text_is(p, "/favicon.ico") {
        Route::Icon
    } else {
        Route::NotFound
    }
}

/// How many of the latest moves the dashboard's state carries.
pub const MOVES_SENT: usize = 160;

/// The dashboard's one-word state: paused first, then over, else live.
pub fn status_word(paused: bool, game_over: bool) -> (s: &'static str)
    ensures
        s@ == (if paused { "paused"@ } else if game_over { "over"@ } else { "live"@ }),
{
    if paused {
        "paused"
    } else if game_over {
        "over"
    } else {
        "live"
    }
}

/// Where the moves the dashboard is sent start in a history of `len` moves: the last
/// `MOVES_SENT` of them, or all when there are fewer.
pub fn sent_moves_start(len: usize) -> (start: usize)
    ensures
        start == (if len > MOVES_SENT { len - MOVES_SENT } else { 0 }),
        len - start == (if len < MOVES_SENT { len } else { MOVES_SENT }),
{
    if len > MOVES_SENT {
        len - MOVES_SENT
    } else {
        0
    }
}

} // verus!

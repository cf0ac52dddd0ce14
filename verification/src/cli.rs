//! The command line: which model, which board, and which mode to run.

use vstd::prelude::*;
use crate::ai::EnginePref;
use crate::text::{parse_unsigned, parse_unsigned_text, text_is, text_of};

verus! {

/// The options of one run.
#[derive(Clone, Debug)]
pub struct Args {
    /// Hugging Face model id, or a local model directory.
    pub model: String,
    /// `root`, `multilingual` or `typed`.
    pub checkpoint: String,
    pub width: usize,
    pub height: usize,
    /// CPU inference threads; `None` uses every core.
    pub threads: Option<usize>,
    pub engine: EnginePref,
    /// Time this many decisions and exit.
    pub bench: Option<usize>,
    /// Check the fast engine against candle on this many positions and exit.
    pub verify: Option<usize>,
    /// Serve the dashboard on this port.
    pub web: Option<u16>,
    pub host: String,
    /// No model: a labelled heuristic stand-in.
    pub mock: bool,
}

/// The options as plain values.
pub struct ArgsView {
    pub model: Seq<char>,
    pub checkpoint: Seq<char>,
    pub width: usize,
    pub height: usize,
    pub threads: Option<usize>,
    pub engine: EnginePref,
    pub bench: Option<usize>,
    pub verify: Option<usize>,
    pub web: Option<u16>,
    pub host: Seq<char>,
    pub mock: bool,
}

impl View for Args {
    type V = ArgsView;

    open spec fn view(&self) -> ArgsView {
        ArgsView {
            model: self.model@,
            checkpoint: self.checkpoint@,
            width: self.width,
            height: self.height,
            threads: self.threads,
            engine: self.engine,
            bench: self.bench,
            verify: self.verify,
            web: self.web,
            host: self.host@,
            mock: self.mock,
        }
    }
}

/// Something on the command line that was not taken: reported, then the run goes on.
#[derive(Clone, Debug)]
pub enum ArgNote {
    /// `--engine` with a value other than `fast`, `auto` or `candle` (or with none).
    BadEngine(Option<String>),
    /// An argument that is no option.
    Unknown(String),
}

pub enum NoteView {
    BadEngine(Option<Seq<char>>),
    Unknown(Seq<char>),
}

impl View for ArgNote {
    type V = NoteView;

    open spec fn view(&self) -> NoteView {
        match self {
            ArgNote::BadEngine(v) => NoteView::BadEngine(
                match v {
                    Some(s) => Some(s@),
                    None => None,
                },
            ),
            ArgNote::Unknown(s) => NoteView::Unknown(s@),
        }
    }
}

/// The options when the command line gives none.
pub open spec fn default_args() -> ArgsView {
    ArgsView {
        model: "convaiinnovations/laya"@,
        checkpoint: "root"@,
        width: 32,
        height: 20,
        threads: None,
        engine: EnginePref::Auto,
        bench: None,
        verify: None,
        web: None,
        host: "127.0.0.1"@,
        mock: false,
    }
}

/// A count on the command line (`usize` syntax).
pub open spec fn count_of(s: Seq<char>) -> Option<int> {
    parse_unsigned(s, usize::MAX as int)
}

/// One option at `argv[i]` read: where the next option starts, the options so far, what to
/// report, and whether help was asked for.
pub open spec fn arg_step(argv: Seq<Seq<char>>, i: int, st: ArgsView) -> (int, ArgsView, Option<NoteView>, bool) {
    let a = argv[i];
    let has_next = i + 1 < argv.len();
    let next = argv[i + 1];
    if a == "--model"@ {
        if has_next { (i + 2, ArgsView { model: next, ..st }, None, false) } else { (i + 1, st, None, false) }
    } else if a == "--checkpoint"@ {
        if has_next { (i + 2, ArgsView { checkpoint: next, ..st }, None, false) } else { (i + 1, st, None, false) }
    } else if a == "--width"@ {
        if has_next {
            (i + 2, match count_of(next) {
                Some(v) => ArgsView { width: v as usize, ..st },
                None => st,
            }, None, false)
        } else {
            (i + 1, st, None, false)
        }
    } else if a == "--height"@ {
        if has_next {
            (i + 2, match count_of(next) {
                Some(v) => ArgsView { height: v as usize, ..st },
                None => st,
            }, None, false)
        } else {
            (i + 1, st, None, false)
        }
    } else if a == "--threads"@ {
        let threads = if has_next {
            match count_of(next) {
                Some(v) => if v > 0 { Some(v as usize) } else { None },
                None => None,
            }
        } else {
            None
        };
        (if has_next { i + 2 } else { i + 1 }, ArgsView { threads, ..st }, None, false)
    } else if a == "--engine"@ {
        if !has_next {
            (i + 1, st, Some(NoteView::BadEngine(None)), false)
        } else if next == "candle"@ {
            (i + 2, ArgsView { engine: EnginePref::Candle, ..st }, None, false)
        } else if next == "fast"@ || next == "auto"@ {
            (i + 2, ArgsView { engine: EnginePref::Auto, ..st }, None, false)
        } else {
            (i + 2, st, Some(NoteView::BadEngine(Some(next))), false)
        }
    } else if a == "--bench"@ {
        match (if has_next { count_of(next) } else { None }) {
            Some(n) => (i + 2, ArgsView { bench: Some(n as usize), ..st }, None, false),
            None => (i + 1, ArgsView { bench: Some(12), ..st }, None, false),
        }
    } else if a == "--verify"@ {
        match (if has_next { count_of(next) } else { None }) {
            Some(n) => (i + 2, ArgsView { verify: Some(n as usize), ..st }, None, false),
            None => (i + 1, ArgsView { verify: Some(24), ..st }, None, false),
        }
    } else if a == "--web"@ {
        match (if has_next { parse_unsigned(next, u16::MAX as int) } else { None }) {
            Some(n) => (i + 2, ArgsView { web: Some(n as u16), ..st }, None, false),
            None => (i + 1, ArgsView { web: Some(8080), ..st }, None, false),
        }
    } else if a == "--host"@ {
        if has_next { (i + 2, ArgsView { host: next, ..st }, None, false) } else { (i + 1, st, None, false) }
    } else if a == "--mock"@ {
        (i + 1, ArgsView { mock: true, ..st }, None, false)
    } else if a == "--help"@ || a == "-h"@ {
        (i + 1, st, None, true)
    } else {
        (i + 1, st, Some(NoteView::Unknown(a)), false)
    }
}

/// The command line from `argv[i]` on read into `st`, with `notes` reported so far: the
/// options, every note, and whether help was asked for (reading stops there).
pub open spec fn parse_from(argv: Seq<Seq<char>>, i: int, st: ArgsView, notes: Seq<NoteView>) -> (ArgsView, Seq<NoteView>, bool)
    decreases argv.len() - i,
{
    if i < 0 || i >= argv.len() {
        (st, notes, false)
    } else {
        let (j, st2, note, help) = arg_step(argv, i, st);
        let notes2 = match note {
            Some(n) => notes.push(n),
            None => notes,
        };
        if help {
            (st2, notes2, true)
        } else if j <= i {
            (st2, notes2, false)
        } else {
            parse_from(argv, j, st2, notes2)
        }
    }
}

/// Reading `--width N` or `--height N`, with `N` a count, at place `i` sets that one size to `N`,
/// leaves every other option and the notes as they were, and reading goes on two words later.
pub proof fn lemma_size_options(argv: Seq<Seq<char>>, i: int, st: ArgsView, notes: Seq<NoteView>, v: int)
    requires
        0 <= i,
        i + 1 < argv.len(),
        count_of(argv[i + 1]) == Some(v),
    ensures
        argv[i] == "--width"@ ==> parse_from(argv, i, st, notes) == parse_from(argv, i + 2, ArgsView { width: v as usize, ..st }, notes),
        argv[i] == "--height"@ ==> parse_from(argv, i, st, notes) == parse_from(argv, i + 2, ArgsView { height: v as usize, ..st }, notes),
{
    reveal_strlit("--model");
    reveal_strlit("--checkpoint");
    reveal_strlit("--width");
    reveal_strlit("--height");
    if argv[i] == "--width"@ {
        assert(argv[i] != "--model"@) by {
            assert(argv[i][2] != "--model"@[2]);
        }
        assert(argv[i] != "--checkpoint"@) by {
            assert(argv[i].len() == 7);
            assert("--checkpoint"@.len() == 12);
        }
    }
    if argv[i] == "--height"@ {
        assert(argv[i].len() == 8);
        assert(argv[i] != "--model"@) by {
            assert("--model"@.len() == 7);
        }
        assert(argv[i] != "--checkpoint"@) by {
            assert("--checkpoint"@.len() == 12);
        }
        assert(argv[i] != "--width"@) by {
            assert("--width"@.len() == 7);
        }
    }
}

/// The option words tell apart: no two of them are the same text.
proof fn lemma_option_words_differ()
    ensures
        "--model"@ != "--checkpoint"@ && "--model"@ != "--width"@ && "--model"@ != "--height"@,
        "--model"@ != "--threads"@ && "--model"@ != "--engine"@ && "--model"@ != "--bench"@,
        "--model"@ != "--verify"@ && "--model"@ != "--web"@ && "--model"@ != "--host"@,
        "--checkpoint"@ != "--width"@ && "--checkpoint"@ != "--height"@ && "--checkpoint"@ != "--threads"@,
        "--checkpoint"@ != "--engine"@ && "--checkpoint"@ != "--bench"@ && "--checkpoint"@ != "--verify"@,
        "--checkpoint"@ != "--web"@ && "--checkpoint"@ != "--host"@,
        "--width"@ != "--height"@ && "--width"@ != "--threads"@ && "--width"@ != "--engine"@,
        "--width"@ != "--bench"@ && "--width"@ != "--verify"@ && "--width"@ != "--web"@ && "--width"@ != "--host"@,
        "--height"@ != "--threads"@ && "--height"@ != "--engine"@ && "--height"@ != "--bench"@,
        "--height"@ != "--verify"@ && "--height"@ != "--web"@ && "--height"@ != "--host"@,
        "--threads"@ != "--engine"@ && "--threads"@ != "--bench"@ && "--threads"@ != "--verify"@,
        "--threads"@ != "--web"@ && "--threads"@ != "--host"@,
        "--engine"@ != "--bench"@ && "--engine"@ != "--verify"@ && "--engine"@ != "--web"@ && "--engine"@ != "--host"@,
        "--bench"@ != "--verify"@ && "--bench"@ != "--web"@ && "--bench"@ != "--host"@,
        "--verify"@ != "--web"@ && "--verify"@ != "--host"@,
        "--web"@ != "--host"@,
        "--mock"@ != "--model"@ && "--mock"@ != "--checkpoint"@ && "--mock"@ != "--width"@ && "--mock"@ != "--height"@,
        "--mock"@ != "--threads"@ && "--mock"@ != "--engine"@ && "--mock"@ != "--bench"@ && "--mock"@ != "--verify"@,
        "--mock"@ != "--web"@ && "--mock"@ != "--host"@,
        "candle"@ != "fast"@ && "candle"@ != "auto"@,
        "--help"@ != "--model"@ && "--help"@ != "--checkpoint"@ && "--help"@ != "--width"@ && "--help"@ != "--height"@,
        "--help"@ != "--threads"@ && "--help"@ != "--engine"@ && "--help"@ != "--bench"@ && "--help"@ != "--verify"@,
        "--help"@ != "--web"@ && "--help"@ != "--host"@ && "--help"@ != "--mock"@,
        "-h"@ != "--model"@ && "-h"@ != "--checkpoint"@ && "-h"@ != "--width"@ && "-h"@ != "--height"@,
        "-h"@ != "--threads"@ && "-h"@ != "--engine"@ && "-h"@ != "--bench"@ && "-h"@ != "--verify"@,
        "-h"@ != "--web"@ && "-h"@ != "--host"@ && "-h"@ != "--mock"@,
{
    reveal_strlit("--model");
    reveal_strlit("--checkpoint");
    reveal_strlit("--width");
    reveal_strlit("--height");
    reveal_strlit("--threads");
    reveal_strlit("--engine");
    reveal_strlit("--bench");
    reveal_strlit("--verify");
    reveal_strlit("--web");
    reveal_strlit("--host");
    reveal_strlit("--mock");
    reveal_strlit("candle");
    reveal_strlit("fast");
    reveal_strlit("auto");
    reveal_strlit("--help");
    reveal_strlit("-h");
    assert("--help"@.len() == 6 && "-h"@.len() == 2);
    assert("--help"@[3] != "--host"@[3] && "--help"@[2] != "--mock"@[2]);
    assert("--model"@.len() == 7 && "--checkpoint"@.len() == 12 && "--width"@.len() == 7 && "--height"@.len() == 8);
    assert("--threads"@.len() == 9 && "--engine"@.len() == 8 && "--bench"@.len() == 7 && "--verify"@.len() == 8);
    assert("--web"@.len() == 5 && "--host"@.len() == 6 && "--mock"@.len() == 6);
    assert("candle"@.len() == 6 && "fast"@.len() == 4 && "auto"@.len() == 4);
    assert("--model"@[2] != "--width"@[2] && "--model"@[2] != "--bench"@[2] && "--width"@[2] != "--bench"@[2]);
    assert("--height"@[2] != "--engine"@[2] && "--height"@[2] != "--verify"@[2] && "--engine"@[2] != "--verify"@[2]);
    assert("--host"@[2] != "--mock"@[2]);
}

/// What each option does to the options read so far, for any command line: `--model`,
/// `--checkpoint` and `--host` take the next word; `--threads N` takes a count above zero;
/// `--mock` needs no word; `--engine candle` picks candle and `--engine fast` the fast engine;
/// `--bench` and `--verify` take a count, or run 12 and 24 without one; `--web` takes a port,
/// or serves on 8080 without one; every other option and the notes stay as they were, and
/// reading goes on after the words taken.
pub proof fn lemma_options(argv: Seq<Seq<char>>, i: int, st: ArgsView, notes: Seq<NoteView>)
    requires
        0 <= i < argv.len(),
    ensures
        argv[i] == "--model"@ && i + 1 < argv.len() ==> parse_from(argv, i, st, notes) == parse_from(argv, i + 2, ArgsView { model: argv[i + 1], ..st }, notes),
        argv[i] == "--checkpoint"@ && i + 1 < argv.len() ==> parse_from(argv, i, st, notes) == parse_from(argv, i + 2, ArgsView { checkpoint: argv[i + 1], ..st }, notes),
        argv[i] == "--host"@ && i + 1 < argv.len() ==> parse_from(argv, i, st, notes) == parse_from(argv, i + 2, ArgsView { host: argv[i + 1], ..st }, notes),
        argv[i] == "--threads"@ && i + 1 < argv.len() ==> (count_of(argv[i + 1]) matches Some(v) ==> (v > 0 ==> parse_from(argv, i, st, notes) == parse_from(argv, i + 2, ArgsView { threads: Some(v as usize), ..st }, notes))),
        argv[i] == "--mock"@ ==> parse_from(argv, i, st, notes) == parse_from(argv, i + 1, ArgsView { mock: true, ..st }, notes),
        argv[i] == "--engine"@ && i + 1 < argv.len() && argv[i + 1] == "candle"@ ==> parse_from(argv, i, st, notes) == parse_from(argv, i + 2, ArgsView { engine: EnginePref::Candle, ..st }, notes),
        argv[i] == "--engine"@ && i + 1 < argv.len() && argv[i + 1] == "fast"@ ==> parse_from(argv, i, st, notes) == parse_from(argv, i + 2, ArgsView { engine: EnginePref::Auto, ..st }, notes),
        argv[i] == "--bench"@ && i + 1 < argv.len() ==> (count_of(argv[i + 1]) matches Some(n) ==> parse_from(argv, i, st, notes) == parse_from(argv, i + 2, ArgsView { bench: Some(n as usize), ..st }, notes)),
        argv[i] == "--bench"@ && i + 1 == argv.len() ==> parse_from(argv, i, st, notes) == (ArgsView { bench: Some(12), ..st }, notes, false),
        argv[i] == "--verify"@ && i + 1 < argv.len() ==> (count_of(argv[i + 1]) matches Some(n) ==> parse_from(argv, i, st, notes) == parse_from(argv, i + 2, ArgsView { verify: Some(n as usize), ..st }, notes)),
        argv[i] == "--verify"@ && i + 1 == argv.len() ==> parse_from(argv, i, st, notes) == (ArgsView { verify: Some(24), ..st }, notes, false),
        argv[i] == "--web"@ && i + 1 == argv.len() ==> parse_from(argv, i, st, notes) == (ArgsView { web: Some(8080), ..st }, notes, false),
        argv[i] == "--help"@ || argv[i] == "-h"@ ==> parse_from(argv, i, st, notes) == (st, notes, true),
{
    lemma_option_words_differ();
    if i + 1 == argv.len() {
        if argv[i] == "--bench"@ {
            assert(parse_from(argv, i + 1, ArgsView { bench: Some(12), ..st }, notes) == (ArgsView { bench: Some(12), ..st }, notes, false));
        }
        if argv[i] == "--verify"@ {
            assert(parse_from(argv, i + 1, ArgsView { verify: Some(24), ..st }, notes) == (ArgsView { verify: Some(24), ..st }, notes, false));
        }
        if argv[i] == "--web"@ {
            assert(parse_from(argv, i + 1, ArgsView { web: Some(8080), ..st }, notes) == (ArgsView { web: Some(8080), ..st }, notes, false));
        }
    }
}

/// The words of a command line as character sequences.
pub open spec fn words(argv: Seq<String>) -> Seq<Seq<char>> {
    argv.map_values(|s: String| s@)
}

/// A command line read: the options, what to report about the words not taken, and whether
/// help was asked for.
pub struct ParsedArgs {
    pub args: Args,
    pub notes: Vec<ArgNote>,
    pub help: bool,
}

fn copy_text(s: &String) -> (r: String)
    ensures
        r@ == s@,
{
    s.clone()
}

fn read_count(s: &String) -> (r: Option<usize>)
    ensures
        r matches Some(v) ==> count_of(s@) == Some(v as int),
        r is None ==> count_of(s@) is None,
{
    match parse_unsigned_text(s.as_str(), usize::MAX as u64) {
        Some(v) => Some(v as usize),
        None => None,
    }
}

impl Args {
    /// The options of a command line (the words after the program name). Each option takes
    /// the next word when it needs one; a count that does not read as a number leaves the
    /// option as it was (`--threads` then falls back to every core). `--bench`, `--verify`
    /// and `--web` take the next word only when it is a number, and run with 12, 24 or port
    /// 8080 otherwise. Reading stops at `--help`.
    pub fn parse(argv: &Vec<String>) -> (r: ParsedArgs)
        ensures
            (r.args@, r.notes@.map_values(|n: ArgNote| n@), r.help) == parse_from(words(argv@), 0, default_args(), Seq::empty()),
    {
        let ghost w = words(argv@);
        let mut st = Args {
            model: text_of("convaiinnovations/laya"),
            checkpoint: text_of("root"),
            width: 32,
            height: 20,
            threads: None,
            engine: EnginePref::Auto,
            bench: None,
            verify: None,
            web: None,
            host: text_of("127.0.0.1"),
            mock: false,
        };
        let mut notes: Vec<ArgNote> = Vec::new();
        let n = argv.len();
        let mut i: usize = 0;
        proof {
            assert(notes@.map_values(|n: ArgNote| n@) =~= Seq::<NoteView>::empty());
        }
        while i < n
            invariant
                n == argv@.len(),
                w == words(argv@),
                i <= n,
                parse_from(w, i as int, st@, notes@.map_values(|n: ArgNote| n@)) == parse_from(w, 0, default_args(), Seq::empty()),
            decreases n - i,
        {
            let ghost before = notes@.map_values(|n: ArgNote| n@);
            let ghost old_st = st@;
            let a = argv[i].as_str();
            let has_next = i + 1 < n;
            assert(a@ == w[i as int]);
            if has_next {
                assert(argv[i + 1 as int]@ == w[i + 1]);
            }
            let mut note: Option<ArgNote> = None;
            let mut help = false;
            let mut j = i + 1;
            if text_is(a, "--model") {
                if has_next {
                    st.model = copy_text(&argv[i + 1]);
                    j = i + 2;
                }
            } else if text_is(a, "--checkpoint") {
                if has_next {
                    st.checkpoint = copy_text(&argv[i + 1]);
                    j = i + 2;
                }
            } else if text_is(a, "--width") {
                if has_next {
                    if let Some(v) = read_count(&argv[i + 1]) {
                        st.width = v;
                    }
                    j = i + 2;
                }
            } else if text_is(a, "--height") {
                if has_next {
                    if let Some(v) = read_count(&argv[i + 1]) {
                        st.height = v;
                    }
                    j = i + 2;
                }
            } else if text_is(a, "--threads") {
                st.threads = None;
                if has_next {
                    if let Some(v) = read_count(&argv[i + 1]) {
                        if v > 0 {
                            st.threads = Some(v);
                        }
                    }
                    j = i + 2;
                }
            } else if text_is(a, "--engine") {
                if !has_next {
                    note = Some(ArgNote::BadEngine(None));
                } else {
                    let v = argv[i + 1].as_str();
                    if text_is(v, "candle") {
                        st.engine = EnginePref::Candle;
                    } else if text_is(v, "fast") || text_is(v, "auto") {
                        st.engine = EnginePref::Auto;
                    } else {
                        note = Some(ArgNote::BadEngine(Some(copy_text(&argv[i + 1]))));
                    }
                    j = i + 2;
                }
            } else if text_is(a, "--bench") {
                let c = if has_next { read_count(&argv[i + 1]) } else { None };
                match c {
                    Some(v) => {
                        st.bench = Some(v);
                        j = i + 2;
                    },
                    None => st.bench = Some(12),
                }
            } else if text_is(a, "--verify") {
                let c = if has_next { read_count(&argv[i + 1]) } else { None };
                match c {
                    Some(v) => {
                        st.verify = Some(v);
                        j = i + 2;
                    },
                    None => st.verify = Some(24),
                }
            } else if text_is(a, "--web") {
                let c = if has_next { parse_unsigned_text(argv[i + 1].as_str(), u16::MAX as u64) } else { None };
                match c {
                    Some(v) => {
                        st.web = Some(v as u16);
                        j = i + 2;
                    },
                    None => st.web = Some(8080),
                }
            } else if text_is(a, "--host") {
                if has_next {
                    st.host = copy_text(&argv[i + 1]);
                    j = i + 2;
                }
            } else if text_is(a, "--mock") {
                st.mock = true;
            } else if text_is(a, "--help") || text_is(a, "-h") {
                help = true;
            } else {
                note = Some(ArgNote::Unknown(copy_text(&argv[i])));
            }
            let ghost nv: Option<NoteView> = match &note {
                Some(nt) => Some(nt@),
                None => None,
            };
            match note {
                Some(nt) => notes.push(nt),
                None => {},
            }
            proof {
                let notes_after = notes@.map_values(|n: ArgNote| n@);
                match nv {
                    Some(v) => {
                        assert(notes_after =~= before.push(v));
                    },
                    None => {
                        assert(notes_after =~= before);
                    },
                }
                assert(arg_step(w, i as int, old_st) == (j as int, st@, nv, help));
            }
            if help {
                return ParsedArgs { args: st, notes, help: true };
            }
            i = j;
        }
        ParsedArgs { args: st, notes, help: false }
    }
}

} // verus!

//! The question the model is asked about a position, and where its checkpoint lives.

use vstd::prelude::*;
use crate::game::{Dir, GameSnapshot, Point};
use crate::grid::{dir_at, is_order};
use crate::chance::shuffle_dirs;
use crate::text::{decimal, push_decimal, push_text, text_is, text_of};

verus! {

/// Which implementation runs the model.
#[derive(Clone, Copy, Debug, PartialEq, Eq, Structural)]
pub enum EnginePref {
    /// The fast CPU engine when this build/CPU supports it, otherwise candle.
    Auto,
    /// Always the reference candle implementation from the `laya` crate.
    Candle,
}

/// The option keys the model sees; they carry no direction name.
pub const NEUTRAL_KEYS: [&'static str; 4] = ["k0", "k1", "k2", "k3"];

pub open spec fn key_text(k: int) -> Seq<char> {
    if k == 0 {
        "k0"@
    } else if k == 1 {
        "k1"@
    } else if k == 2 {
        "k2"@
    } else {
        "k3"@
    }
}

/// The neutral key of option `k`.
pub fn neutral_key(k: usize) -> (s: &'static str)
    requires
        k < 4,
    ensures
        s@ == key_text(k as int),
{
    if k == 0 {
        "k0"
    } else if k == 1 {
        "k1"
    } else if k == 2 {
        "k2"
    } else {
        "k3"
    }
}

/// The question the model sees for one position, with the direction behind each neutral key.
pub struct Prompt {
    pub instructions: String,
    pub state: String,
    pub key_to_dir: [Dir; 4],
}

#[derive(Clone, Copy, Debug, PartialEq, Eq, Structural)]
pub enum PromptError {
    /// There is no food to steer towards.
    NoFood,
}

/// One option line: `"<key>: moves closer/farther ... . Safe./UNSAFE: ..."`.
pub open spec fn option_line(k: int, toward: bool, fatal: bool) -> Seq<char> {
    key_text(k) + ": "@ + (if toward { "moves closer to the food"@ } else { "moves farther from the food"@ }) + ". "@
        + (if fatal { "UNSAFE: ends the game immediately."@ } else { "Safe."@ })
}

/// The instructions: the task, then the four option lines.
pub open spec fn instructions_text(toward: Seq<bool>, fatal: Seq<bool>) -> Seq<char> {
    "Pick the option that moves closer to the food and is not marked UNSAFE.\n"@ + option_line(0, toward[0], fatal[0])
        + "\n"@ + option_line(1, toward[1], fatal[1]) + "\n"@ + option_line(2, toward[2], fatal[2]) + "\n"@
        + option_line(3, toward[3], fatal[3])
}

/// The state line: head, the food steered to, and the snake length.
pub open spec fn state_text(h: Point, f: Point, len: int) -> Seq<char> {
    "Snake head at ("@ + decimal(h.x as int) + ","@ + decimal(h.y as int) + "). Food at ("@ + decimal(f.x as int)
        + ","@ + decimal(f.y as int) + "). Snake length="@ + decimal(len) + "."@
}

/// Whether option `k` (direction `order[k]`) moves closer to food, per `toward_food`.
pub open spec fn toward_by_key(game: GameSnapshot, order: Seq<Dir>) -> Seq<bool> {
    let t = crate::game::toward_spec(game.spec_board(), game.block_mask(), game.foods@, game.spec_head());
    Seq::new(4, |k: int| t[order[k].spec_index()])
}

/// Whether option `k` (direction `order[k]`) is fatal.
pub open spec fn fatal_by_key(game: GameSnapshot, order: Seq<Dir>) -> Seq<bool> {
    Seq::new(4, |k: int| game.fatal(order[k]))
}

fn option_line_exec(s: &mut String, k: usize, toward: bool, fatal: bool)
    requires
        k < 4,
    ensures
        final(s)@ == old(s)@ + option_line(k as int, toward, fatal),
{
    push_text(s, neutral_key(k));
    push_text(s, ": ");
    if toward {
        push_text(s, "moves closer to the food");
    } else {
        push_text(s, "moves farther from the food");
    }
    push_text(s, ". ");
    if fatal {
        push_text(s, "UNSAFE: ends the game immediately.");
    } else {
        push_text(s, "Safe.");
    }
    proof {
        assert(final(s)@ =~= old(s)@ + option_line(k as int, toward, fatal));
    }
}

/// The question for one position: each neutral key `k{i}` stands for direction `order[i]`, and its
/// line says whether that move gets closer to food and whether it is fatal. Fails when there is no
/// food.
pub fn build_prompt(game: &GameSnapshot, order: [Dir; 4]) -> (r: Result<Prompt, PromptError>)
    requires
        game.wf(),
    ensures
        match r {
            Err(e) => e == PromptError::NoFood && game.foods@.len() == 0,
            Ok(p) => {
                &&& game.foods@.len() > 0
                &&& p.key_to_dir == order
                &&& p.instructions@ == instructions_text(toward_by_key(*game, order@), fatal_by_key(*game, order@))
                &&& exists|f: Point| #[trigger] game.nearest_food_spec(Some(f)) && p.state@ == state_text(game.spec_head(), f, game.snake@.len() as int)
                &&& game.nearest_food_of() matches Some(f) && p.state@ == state_text(game.spec_head(), f, game.snake@.len() as int)
            },
        },
{
    let h = game.head();
    let food = match game.nearest_food() {
        Some(f) => f,
        None => {
            proof {
                game.lemma_nearest_food_none(None);
            }
            return Err(PromptError::NoFood);
        },
    };
    proof {
        game.lemma_nearest_food_none(Some(food));
    }
    let closer = game.toward_food();
    let mut instructions = text_of("Pick the option that moves closer to the food and is not marked UNSAFE.\n");
    let mut k: usize = 0;
    while k < 4
        invariant
            game.wf(),
            k <= 4,
            closer@ == crate::game::toward_spec(game.spec_board(), game.block_mask(), game.foods@, game.spec_head()),
            instructions@ == (if k == 0 {
                "Pick the option that moves closer to the food and is not marked UNSAFE.\n"@
            } else if k == 1 {
                "Pick the option that moves closer to the food and is not marked UNSAFE.\n"@ + option_line(0, toward_by_key(*game, order@)[0], fatal_by_key(*game, order@)[0])
            } else if k == 2 {
                "Pick the option that moves closer to the food and is not marked UNSAFE.\n"@ + option_line(0, toward_by_key(*game, order@)[0], fatal_by_key(*game, order@)[0])
                    + "\n"@ + option_line(1, toward_by_key(*game, order@)[1], fatal_by_key(*game, order@)[1])
            } else if k == 3 {
                "Pick the option that moves closer to the food and is not marked UNSAFE.\n"@ + option_line(0, toward_by_key(*game, order@)[0], fatal_by_key(*game, order@)[0])
                    + "\n"@ + option_line(1, toward_by_key(*game, order@)[1], fatal_by_key(*game, order@)[1])
                    + "\n"@ + option_line(2, toward_by_key(*game, order@)[2], fatal_by_key(*game, order@)[2])
            } else {
                instructions_text(toward_by_key(*game, order@), fatal_by_key(*game, order@))
            }),
        decreases 4 - k,
    {
        let direction = order[k];
        if k > 0 {
            push_text(&mut instructions, "\n");
        }
        let toward = closer[direction.index()];
        let fatal = game.is_fatal(direction);
        option_line_exec(&mut instructions, k, toward, fatal);
        k += 1;
    }
    let mut state = text_of("Snake head at (");
    push_decimal(&mut state, h.x as i64);
    push_text(&mut state, ",");
    push_decimal(&mut state, h.y as i64);
    push_text(&mut state, "). Food at (");
    push_decimal(&mut state, food.x as i64);
    push_text(&mut state, ",");
    push_decimal(&mut state, food.y as i64);
    push_text(&mut state, "). Snake length=");
    crate::text::push_digits(&mut state, game.snake.len() as u64);
    push_text(&mut state, ".");
    proof {
        assert(game.nearest_food_spec(Some(food)));
        assert(state@ == state_text(h, food, game.snake@.len() as int));
    }
    Ok(Prompt { instructions, state, key_to_dir: order })
}

/// The value that lands on direction number `d` when per-key values are spread onto directions:
/// that of the last key naming `d`, or `fill` when no key names it.
pub open spec fn spread<T>(by_key: Seq<T>, key_to_dir: Seq<Dir>, fill: T, d: int) -> T {
    if key_to_dir[3].spec_index() == d {
        by_key[3]
    } else if key_to_dir[2].spec_index() == d {
        by_key[2]
    } else if key_to_dir[1].spec_index() == d {
        by_key[1]
    } else if key_to_dir[0].spec_index() == d {
        by_key[0]
    } else {
        fill
    }
}

/// Per-key values spread onto directions: the value of key `k` goes to direction `key_to_dir[k]`
/// (a later key wins when two keys name one direction); a direction no key names keeps `fill`.
pub fn by_direction<T: Copy>(by_key: &Vec<T>, key_to_dir: [Dir; 4], fill: T) -> (out: [T; 4])
    requires
        by_key@.len() >= 4,
    ensures
        forall|d: int| 0 <= d < 4 ==> #[trigger] out@[d] == spread(by_key@, key_to_dir@, fill, d),
{
    let mut out = [fill, fill, fill, fill];
    let mut key: usize = 0;
    while key < 4
        invariant
            by_key@.len() >= 4,
            key <= 4,
            forall|d: int| 0 <= d < 4 ==> #[trigger] out@[d] == (if key > 3 && key_to_dir@[3].spec_index() == d {
                by_key@[3]
            } else if key > 2 && key_to_dir@[2].spec_index() == d {
                by_key@[2]
            } else if key > 1 && key_to_dir@[1].spec_index() == d {
                by_key@[1]
            } else if key > 0 && key_to_dir@[0].spec_index() == d {
                by_key@[0]
            } else {
                fill
            }),
        decreases 4 - key,
    {
        let d = key_to_dir[key].index();
        out[d] = by_key[key];
        key += 1;
    }
    out
}

/// The local directory of a checkpoint: `models/laya-root` for `root` and for any name it does not
/// know, `models/laya-multilingual`, `models/laya-typed-decisions`.
pub fn checkpoint_dir(checkpoint: &str) -> (dir: String)
    ensures
        dir@ == "models/"@ + (if checkpoint@ == "multilingual"@ {
            "laya-multilingual"@
        } else if checkpoint@ == "typed"@ {
            "laya-typed-decisions"@
        } else {
            "laya-root"@
        }),
{
    proof {
        reveal_strlit("root");
        reveal_strlit("multilingual");
        reveal_strlit("typed");
    }
    let mut dir = text_of("models/");
    if text_is(checkpoint, "root") {
        proof {
            assert("root"@.len() == 4);
            assert("root"@ != "multilingual"@);
            assert("root"@ != "typed"@);
        }
        push_text(&mut dir, "laya-root");
    } else if text_is(checkpoint, "multilingual") {
        push_text(&mut dir, "laya-multilingual");
    } else if text_is(checkpoint, "typed") {
        proof {
            assert("typed"@ != "multilingual"@);
        }
        push_text(&mut dir, "laya-typed-decisions");
    } else {
        push_text(&mut dir, "laya-root");
    }
    dir
}

/// The folder of a checkpoint inside the model repository, or `None` for a name it does not know.
pub fn checkpoint_subfolder(checkpoint: &str) -> (r: Option<&'static str>)
    ensures
        match r {
            Some(f) => (checkpoint@ == "root"@ && f@ == ""@) || (checkpoint@ == "multilingual"@ && f@ == "multilingual/"@)
                || (checkpoint@ == "typed"@ && f@ == "typed-decisions/"@),
            None => checkpoint@ != "root"@ && checkpoint@ != "multilingual"@ && checkpoint@ != "typed"@,
        },
{
    if text_is(checkpoint, "root") {
        Some("")
    } else if text_is(checkpoint, "multilingual") {
        Some("multilingual/")
    } else if text_is(checkpoint, "typed") {
        Some("typed-decisions/")
    } else {
        None
    }
}

/// `s` without its trailing `c` characters.
pub open spec fn trim_end(s: Seq<char>, c: char) -> Seq<char>
    decreases s.len(),
{
    if s.len() > 0 && s.last() == c {
        trim_end(s.drop_last(), c)
    } else {
        s
    }
}

/// Where the checkpoint files are downloaded from:
/// `https://huggingface.co/<model without trailing '/'>/resolve/main/<subfolder>`.
pub fn download_base(model: &str, subfolder: &str) -> (url: String)
    ensures
        url@ == "https://huggingface.co/"@ + trim_end(model@, '/') + "/resolve/main/"@ + subfolder@,
{
    let mut n = model.unicode_len();
    proof {
        assert(model@.subrange(0, n as int) =~= model@);
    }
    while n > 0 && model.get_char(n - 1) == '/'
        invariant
            n <= model@.len(),
            trim_end(model@.subrange(0, n as int), '/') == trim_end(model@, '/'),
        decreases n,
    {
        proof {
            assert(model@.subrange(0, n as int).drop_last() =~= model@.subrange(0, n - 1));
        }
        n -= 1;
    }
    proof {
        assert(model@.subrange(0, model@.len() as int) =~= model@);
    }
    let kept = model.substring_char(0, n);
    proof {
        if n > 0 {
            assert(model@.subrange(0, n as int).last() != '/');
        }
        assert(trim_end(model@.subrange(0, n as int), '/') == model@.subrange(0, n as int));
    }
    let mut url = text_of("https://huggingface.co/");
    push_text(&mut url, kept);
    push_text(&mut url, "/resolve/main/");
    push_text(&mut url, subfolder);
    url
}

/// Why the fast engine cannot be used on this machine, if it cannot: it needs a CPU with AVX2,
/// FMA and F16C (`supported`).
pub fn unavailable_reason(supported: bool) -> (r: Option<&'static str>)
    ensures
        supported ==> r is None,
        !supported ==> (r matches Some(s) && s@ == "CPU lacks AVX2/FMA/F16C"@),
{
    if !supported {
        Some("CPU lacks AVX2/FMA/F16C")
    } else {
        None
    }
}

/// A fresh random key order for one request: the model's neutral option keys are re-mapped to
/// the directions at random every time, so any habit of favouring one key cancels out. Which
/// order comes out is left to chance; it always holds each direction once.
pub fn random_key_order() -> (order: [Dir; 4])
    ensures
        is_order(order@),
{
    let mut order = Dir::ALL;
    proof {
        assert(order@ == Dir::ALL@);
        assert(order@[0] == Dir::Up && order@[1] == Dir::Down && order@[2] == Dir::Left && order@[3] == Dir::Right);
        assert(is_order(order@));
        order@.lemma_multiset_has_no_duplicates();
    }
    let ghost before = order@;
    shuffle_dirs(&mut order);
    proof {
        broadcast use vstd::seq_lib::group_to_multiset_ensures;
        assert(order@.len() == before.len()) by {
            vstd::seq_lib::to_multiset_len(order@);
            vstd::seq_lib::to_multiset_len(before);
        }
        assert forall|x: Dir| order@.to_multiset().contains(x) implies order@.to_multiset().count(x) == 1 by {
            assert(before.to_multiset().contains(x));
        }
        order@.lemma_multiset_has_no_duplicates_conv();
    }
    order
}

/// The model's answers come back to the right directions: when the keys stand for the four
/// directions in some order, the value of key `k` lands on direction `order[k]`.
pub proof fn lemma_answers_map_back<T>(by_key: Seq<T>, order: Seq<Dir>, fill: T)
    requires
        is_order(order),
    ensures
        forall|k: int| 0 <= k < 4 ==> spread(by_key, order, fill, #[trigger] order[k].spec_index()) == by_key[k],
{
    assert forall|k: int| 0 <= k < 4 implies spread(by_key, order, fill, #[trigger] order[k].spec_index()) == by_key[k] by {
        assert forall|j: int| 0 <= j < 4 && j != k implies order[j].spec_index() != order[k].spec_index() by {
            assert(order[j] != order[k]);
            crate::grid::lemma_dir_at_index(order[j]);
            crate::grid::lemma_dir_at_index(order[k]);
        }
    }
}

/// An option line says `Safe.` at its end exactly when the move is not fatal, and `closer`
/// (rather than `farther`) exactly when the move heads for the food.
pub proof fn lemma_option_line_says(k: int, toward: bool, fatal: bool)
    requires
        0 <= k < 4,
    ensures
        ({
            let l = option_line(k, toward, fatal);
            &&& (l.subrange(l.len() - 5, l.len() as int) == "Safe."@ <==> !fatal)
            &&& (l[10] == 'c' <==> toward)
            &&& l.subrange(0, 2) == key_text(k)
        }),
{
    reveal_strlit("k0");
    reveal_strlit("k1");
    reveal_strlit("k2");
    reveal_strlit("k3");
    reveal_strlit(": ");
    reveal_strlit("moves closer to the food");
    reveal_strlit("moves farther from the food");
    reveal_strlit(". ");
    reveal_strlit("UNSAFE: ends the game immediately.");
    reveal_strlit("Safe.");
    let l = option_line(k, toward, fatal);
    let tail = if fatal { "UNSAFE: ends the game immediately."@ } else { "Safe."@ };
    let head = key_text(k) + ": "@ + (if toward { "moves closer to the food"@ } else { "moves farther from the food"@ }) + ". "@;
    assert(l == head + tail);
    assert(key_text(k).len() == 2);
    assert(l.subrange(l.len() - 5, l.len() as int) =~= tail.subrange(tail.len() - 5, tail.len() as int));
    if fatal {
        assert(tail.subrange(tail.len() - 5, tail.len() as int)[0] != "Safe."@[0]);
    } else {
        assert(tail.subrange(tail.len() - 5, tail.len() as int) =~= "Safe."@);
    }
    assert(l[10] == (if toward { "moves closer to the food"@ } else { "moves farther from the food"@ })[6]);
    assert(l.subrange(0, 2) =~= key_text(k));
}

} // verus!

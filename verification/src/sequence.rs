//! The encoder input for a `choice` question:
//! `[CLS] choice question: <instructions> [SEP] [MASK] opt0 [MASK] opt1 ... [SEP] <state> [SEP]`.
//! The `[MASK]` before each option is the marker position the decision head scores.

use vstd::prelude::*;
use crate::text::{push_char, push_text, text_of};

verus! {

#[verifier::external_type_specification]
#[verifier::external_body]
pub struct ExTokenizer(tokenizers::Tokenizer);

/// Per-option text budget in tokens.
pub const MAX_OPTION_TOKENS: usize = 48;

/// The ids of the special tokens the sequence is built from.
#[derive(Clone, Copy, Debug, PartialEq, Eq, Structural)]
pub struct Specials {
    pub cls: u32,
    pub sep: u32,
    pub mask: u32,
}

/// One of the special tokens a tokenizer must know.
#[derive(Clone, Copy, Debug, PartialEq, Eq, Structural)]
pub enum SpecialToken {
    Cls,
    Sep,
    Mask,
}

#[derive(Clone, Debug, PartialEq, Eq)]
pub enum SequenceError {
    /// The tokenizer has no id for this special token.
    MissingToken(SpecialToken),
    /// A choice question needs at least one option.
    NoOptions,
    /// The tokenizer failed; its message.
    Tokenize(String),
    /// Not every option marker fits in the sequence.
    OptionsDoNotFit { head_max_len: usize, kept: usize, total: usize },
}

/// The id of `token` in `tok`'s vocabulary (`Tokenizer::token_to_id`). The vocabulary is loaded
/// from a file at run time, so nothing is claimed of the answer.
#[verifier::external_body]
fn token_id(tok: &tokenizers::Tokenizer, token: &str) -> Option<u32> {
    tok.token_to_id(token)
}

/// The token ids of `text` without special tokens (`Tokenizer::encode(text, false)`, then
/// `Encoding::get_ids`). The ids depend on the vocabulary loaded at run time, so nothing is claimed
/// of them; a failure comes back as its message.
#[verifier::external_body]
fn encode_plain(tok: &tokenizers::Tokenizer, text: &str) -> Result<Vec<u32>, String> {
    match tok.encode(text, false) {
        Ok(e) => Ok(e.get_ids().to_vec()),
        Err(e) => Err(format!("tokenization failed: {e}")),
    }
}

impl Specials {
    /// The specials from the ids found for `[CLS]`, `[SEP]` and `[MASK]`; the first missing one is
    /// the error.
    pub fn from_ids(cls: Option<u32>, sep: Option<u32>, mask: Option<u32>) -> (r: Result<Specials, SequenceError>)
        ensures
            match r {
                Ok(sp) => cls == Some(sp.cls) && sep == Some(sp.sep) && mask == Some(sp.mask),
                Err(e) => {
                    ||| (cls is None && e == SequenceError::MissingToken(SpecialToken::Cls))
                    ||| (cls is Some && sep is None && e == SequenceError::MissingToken(SpecialToken::Sep))
                    ||| (cls is Some && sep is Some && mask is None && e == SequenceError::MissingToken(SpecialToken::Mask))
                },
            },
    {
        match (cls, sep, mask) {
            (Some(cls), Some(sep), Some(mask)) => Ok(Specials { cls, sep, mask }),
            (None, _, _) => Err(SequenceError::MissingToken(SpecialToken::Cls)),
            (Some(_), None, _) => Err(SequenceError::MissingToken(SpecialToken::Sep)),
            (Some(_), Some(_), None) => Err(SequenceError::MissingToken(SpecialToken::Mask)),
        }
    }

    /// Looks the special tokens up in `tok`.
    pub fn resolve(tok: &tokenizers::Tokenizer) -> (r: Result<Specials, SequenceError>)
        ensures
            r matches Err(e) ==> e is MissingToken,
    {
        let cls = token_id(tok, "[CLS]");
        let sep = token_id(tok, "[SEP]");
        let mask = token_id(tok, "[MASK]");
        Self::from_ids(cls, sep, mask)
    }
}

pub struct Encoded {
    pub ids: Vec<u32>,
    /// Position of each option's `[MASK]` marker.
    pub markers: Vec<usize>,
}

/// The characters of `[MASK]`.
pub open spec fn mask_text() -> Seq<char> {
    seq!['[', 'M', 'A', 'S', 'K', ']']
}

/// `s` with every `[MASK]`, left to right, replaced by a space (so user text cannot pose as a
/// marker).
pub open spec fn scrub(s: Seq<char>) -> Seq<char>
    decreases s.len(),
{
    if s.len() == 0 {
        s
    } else if s.len() >= 6 && s.subrange(0, 6) == mask_text() {
        seq![' '] + scrub(s.subrange(6, s.len() as int))
    } else {
        seq![s[0]] + scrub(s.subrange(1, s.len() as int))
    }
}

/// Appends `scrub(t)`.
fn push_scrubbed(s: &mut String, t: &str)
    ensures
        final(s)@ == old(s)@ + scrub(t@),
{
    let n = t.unicode_len();
    let mut i: usize = 0;
    let ghost start = s@;
    proof {
        assert(t@.subrange(0, n as int) =~= t@);
    }
    while i < n
        invariant
            n == t@.len(),
            i <= n,
            s@ + scrub(t@.subrange(i as int, n as int)) == start + scrub(t@),
        decreases n - i,
    {
        let ghost rest = t@.subrange(i as int, n as int);
        let is_mask = n - i >= 6 && t.get_char(i) == '[' && t.get_char(i + 1) == 'M' && t.get_char(i + 2) == 'A'
            && t.get_char(i + 3) == 'S' && t.get_char(i + 4) == 'K' && t.get_char(i + 5) == ']';
        let ghost before = s@;
        if is_mask {
            proof {
                assert(rest.subrange(0, 6) =~= mask_text());
                assert(rest.subrange(6, rest.len() as int) =~= t@.subrange(i + 6, n as int));
            }
            push_char(s, ' ');
            i += 6;
            proof {
                assert(before + scrub(rest) =~= s@ + scrub(t@.subrange(i as int, n as int)));
            }
        } else {
            proof {
                if rest.len() >= 6 && rest.subrange(0, 6) == mask_text() {
                    assert(rest.subrange(0, 6)[0] == '[');
                    assert(rest.subrange(0, 6)[1] == 'M');
                    assert(rest.subrange(0, 6)[2] == 'A');
                    assert(rest.subrange(0, 6)[3] == 'S');
                    assert(rest.subrange(0, 6)[4] == 'K');
                    assert(rest.subrange(0, 6)[5] == ']');
                }
                assert(rest.subrange(1, rest.len() as int) =~= t@.subrange(i + 1, n as int));
            }
            let c = t.get_char(i);
            push_char(s, c);
            i += 1;
            proof {
                assert(before + scrub(rest) =~= s@ + scrub(t@.subrange(i as int, n as int)));
            }
        }
    }
    proof {
        assert(t@.subrange(n as int, n as int) =~= Seq::<char>::empty());
    }
}

/// The first `n` elements of `s` (all of it when it is shorter).
pub open spec fn take_n(s: Seq<u32>, n: int) -> Seq<u32> {
    if n < s.len() {
        s.subrange(0, if n < 0 { 0 } else { n })
    } else {
        s
    }
}

/// Total length of the option token runs.
pub open spec fn total_len(opts: Seq<Seq<u32>>) -> int
    decreases opts.len(),
{
    if opts.len() == 0 {
        0
    } else {
        total_len(opts.drop_last()) + opts.last().len()
    }
}

/// All option token runs, one after the other.
pub open spec fn joined(opts: Seq<Seq<u32>>) -> Seq<u32>
    decreases opts.len(),
{
    if opts.len() == 0 {
        Seq::empty()
    } else {
        joined(opts.drop_last()) + opts.last()
    }
}

/// Each option: its marker, then at most `MAX_OPTION_TOKENS` of its tokens.
pub open spec fn marked_options(mask: u32, bodies: Seq<Seq<u32>>) -> Seq<Seq<u32>> {
    Seq::new(bodies.len(), |i: int| seq![mask] + take_n(bodies[i], MAX_OPTION_TOKENS as int))
}

/// The options after the budget check: when they leave fewer than 16 tokens of `head_max_len`
/// for the instructions, each is cut to `max(4, (head_max_len - 16) / n)` tokens.
pub open spec fn budget_options(mask: u32, bodies: Seq<Seq<u32>>, head_max_len: int) -> Seq<Seq<u32>> {
    let opts = marked_options(mask, bodies);
    if head_max_len - total_len(opts) < 16 {
        let room = if head_max_len >= 16 { head_max_len - 16 } else { 0 };
        let per0 = room / (if opts.len() > 1 { opts.len() as int } else { 1 });
        let per = if per0 > 4 { per0 } else { 4 };
        Seq::new(opts.len(), |i: int| take_n(opts[i], per))
    } else {
        opts
    }
}

/// How many instruction tokens are kept: what the options leave of `head_max_len`, at least 8.
pub open spec fn head_keep(opts: Seq<Seq<u32>>, head_max_len: int) -> int {
    let budget = head_max_len - total_len(opts);
    if budget > 8 { budget } else { 8 }
}

/// `[CLS] instructions [SEP]`.
pub open spec fn head_part(sp: Specials, head: Seq<u32>, opts: Seq<Seq<u32>>, head_max_len: int) -> Seq<u32> {
    seq![sp.cls] + take_n(head, head_keep(opts, head_max_len)) + seq![sp.sep]
}

/// The marker position of option `i`.
pub open spec fn marker_at(sp: Specials, head: Seq<u32>, opts: Seq<Seq<u32>>, head_max_len: int, i: int) -> int {
    head_part(sp, head, opts, head_max_len).len() + total_len(opts.subrange(0, i))
}

/// The full sequence: head, options, `[SEP]`, as much state as fits, `[SEP]`, cut to `max_len`.
pub open spec fn choice_ids(sp: Specials, head: Seq<u32>, bodies: Seq<Seq<u32>>, state: Seq<u32>, max_len: int, head_max_len: int) -> Seq<u32> {
    let opts = budget_options(sp.mask, bodies, head_max_len);
    let mid = head_part(sp, head, opts, head_max_len) + joined(opts) + seq![sp.sep];
    let room = if max_len >= mid.len() + 1 { max_len - (mid.len() + 1) } else { 0 };
    take_n(mid + take_n(state, room) + seq![sp.sep], max_len)
}

/// Every option marker lies inside `max_len`.
pub open spec fn markers_fit(sp: Specials, head: Seq<u32>, bodies: Seq<Seq<u32>>, max_len: int, head_max_len: int) -> bool {
    let opts = budget_options(sp.mask, bodies, head_max_len);
    forall|i: int| 0 <= i < bodies.len() ==> #[trigger] marker_at(sp, head, opts, head_max_len, i) < max_len
}

/// The sequence built from already tokenized parts: `head` (the instructions), one token run per
/// option, and the state. `Ok` exactly when there is an option and every marker fits.
pub open spec fn assembled(sp: Specials, head: Seq<u32>, bodies: Seq<Seq<u32>>, state: Seq<u32>, max_len: int, head_max_len: int, e: Encoded) -> bool {
    let opts = budget_options(sp.mask, bodies, head_max_len);
    &&& e.ids@ == choice_ids(sp, head, bodies, state, max_len, head_max_len)
    &&& e.markers@.len() == bodies.len()
    &&& forall|i: int| 0 <= i < bodies.len() ==> #[trigger] e.markers@[i] == marker_at(sp, head, opts, head_max_len, i)
}

/// The token runs held by a vector of vectors.
pub open spec fn runs(v: Seq<Vec<u32>>) -> Seq<Seq<u32>> {
    Seq::new(v.len(), |i: int| v[i]@)
}

proof fn lemma_total_step(s: Seq<Seq<u32>>, i: int)
    requires
        0 <= i < s.len(),
    ensures
        total_len(s.subrange(0, i + 1)) == total_len(s.subrange(0, i)) + s[i].len(),
        joined(s.subrange(0, i + 1)) == joined(s.subrange(0, i)) + s[i],
{
    assert(s.subrange(0, i + 1).drop_last() =~= s.subrange(0, i));
}

proof fn lemma_total_nonneg(s: Seq<Seq<u32>>)
    ensures
        total_len(s) >= 0,
        joined(s).len() == total_len(s),
    decreases s.len(),
{
    if s.len() > 0 {
        lemma_total_nonneg(s.drop_last());
    }
}

/// Appends all of `src` to `dst`.
fn append_ids(dst: &mut Vec<u32>, src: &Vec<u32>)
    ensures
        final(dst)@ == old(dst)@ + src@,
{
    let mut i: usize = 0;
    let ghost start = dst@;
    while i < src.len()
        invariant
            i <= src@.len(),
            dst@ == start + src@.subrange(0, i as int),
        decreases src.len() - i,
    {
        dst.push(src[i]);
        proof {
            assert(src@.subrange(0, i + 1) =~= src@.subrange(0, i as int).push(src@[i as int]));
        }
        i += 1;
    }
    proof {
        assert(src@.subrange(0, src@.len() as int) =~= src@);
    }
}

/// The sum of the run lengths, exactly (as a `u128`, which cannot overflow here).
fn runs_len(opts: &Vec<Vec<u32>>) -> (n: u128)
    ensures
        n == total_len(runs(opts@)),
        n <= 0xFFFF_FFFF_FFFF_FFFF_0000_0000_0000_0000u128,
{
    let mut n: u128 = 0;
    let mut i: usize = 0;
    proof {
        assert(runs(opts@).subrange(0, 0) =~= Seq::<Seq<u32>>::empty());
    }
    while i < opts.len()
        invariant
            i <= opts@.len(),
            n == total_len(runs(opts@).subrange(0, i as int)),
            n <= i * 0x1_0000_0000_0000_0000u128,
        decreases opts.len() - i,
    {
        proof {
            lemma_total_step(runs(opts@), i as int);
        }
        n = n + opts[i].len() as u128;
        i += 1;
    }
    proof {
        assert(runs(opts@).subrange(0, opts@.len() as int) =~= runs(opts@));
        let len = opts@.len();
        assert(len <= usize::MAX);
        assert(n <= 0xFFFF_FFFF_FFFF_FFFF_0000_0000_0000_0000u128) by (nonlinear_arith)
            requires
                n <= len * 0x1_0000_0000_0000_0000u128,
                len <= 0xFFFF_FFFF_FFFF_FFFFu64,
        ;
    }
    n
}

/// Each option: its marker, then at most `MAX_OPTION_TOKENS` of its tokens.
fn mark_options(mask: u32, bodies: &Vec<Vec<u32>>) -> (opts: Vec<Vec<u32>>)
    ensures
        runs(opts@) == marked_options(mask, runs(bodies@)),
{
    let n = bodies.len();
    let ghost b = runs(bodies@);
    let mut opts: Vec<Vec<u32>> = Vec::new();
    let mut i: usize = 0;
    while i < n
        invariant
            n == bodies@.len(),
            b == runs(bodies@),
            i <= n,
            opts@.len() == i,
            forall|j: int| 0 <= j < i ==> (#[trigger] opts@[j])@ == marked_options(mask, b)[j],
        decreases n - i,
    {
        let mut ids: Vec<u32> = Vec::new();
        ids.push(mask);
        let mut body: Vec<u32> = Vec::new();
        append_ids(&mut body, &bodies[i]);
        body.truncate(MAX_OPTION_TOKENS);
        append_ids(&mut ids, &body);
        proof {
            assert(ids@ =~= seq![mask] + take_n(b[i as int], MAX_OPTION_TOKENS as int));
        }
        opts.push(ids);
        i += 1;
    }
    proof {
        assert(runs(opts@) =~= marked_options(mask, b));
    }
    opts
}

/// When the options leave fewer than 16 of `head_max_len` tokens, cuts each to the even share.
fn fit_options(opts: &mut Vec<Vec<u32>>, head_max_len: usize, Ghost(mask): Ghost<u32>, Ghost(b): Ghost<Seq<Seq<u32>>>)
    requires
        runs(old(opts)@) == marked_options(mask, b),
    ensures
        runs(final(opts)@) == budget_options(mask, b, head_max_len as int),
{
    let n = opts.len();
    let ghost opts1 = marked_options(mask, b);
    let used = runs_len(opts);
    if used + 16 > head_max_len as u128 {
        let room = if head_max_len >= 16 { head_max_len - 16 } else { 0 };
        let per0 = room / (if n > 1 { n } else { 1 });
        let per = if per0 > 4 { per0 } else { 4 };
        let mut k: usize = 0;
        let ghost before = opts@;
        while k < n
            invariant
                opts@.len() == n,
                before.len() == n,
                k <= n,
                runs(before) == opts1,
                forall|j: int| 0 <= j < k ==> (#[trigger] opts@[j])@ == take_n(opts1[j], per as int),
                forall|j: int| k <= j < n ==> #[trigger] opts@[j] == before[j],
            decreases n - k,
        {
            let mut o = opts.remove(k);
            o.truncate(per);
            opts.insert(k, o);
            proof {
                assert(opts1[k as int] == before[k as int]@);
                assert forall|j: int| 0 <= j < k + 1 implies (#[trigger] opts@[j])@ == take_n(opts1[j], per as int) by {}
            }
            k += 1;
        }
        proof {
            assert(head_max_len - total_len(opts1) < 16);
            assert(runs(opts@) =~= budget_options(mask, b, head_max_len as int));
        }
    } else {
        proof {
            assert(runs(opts@) =~= budget_options(mask, b, head_max_len as int));
        }
    }
}

/// `[CLS] head [SEP]`, the options with their marker positions, `[SEP]`, as much state as fits,
/// `[SEP]`, cut to `max_len`.
fn lay_out(
    sp: &Specials,
    head: Vec<u32>,
    opts: &Vec<Vec<u32>>,
    state: Vec<u32>,
    max_len: usize,
    head_max_len: usize,
    Ghost(b): Ghost<Seq<Seq<u32>>>,
) -> (r: (Vec<u32>, Vec<usize>))
    requires
        runs(opts@) == budget_options(sp.mask, b, head_max_len as int),
    ensures
        r.0@ == choice_ids(*sp, head@, b, state@, max_len as int, head_max_len as int),
        r.1@.len() == opts@.len(),
        forall|m: int| 0 <= m < opts@.len() ==> #[trigger] r.1@[m] == marker_at(*sp, head@, runs(opts@), head_max_len as int, m),
{
    let n = opts.len();
    let ghost opts2 = runs(opts@);
    let used2 = runs_len(opts);
    let keep: usize = if (head_max_len as u128) > used2 + 8 { (head_max_len as u128 - used2) as usize } else { 8 };
    proof {
        assert(keep == head_keep(opts2, head_max_len as int));
    }
    let mut head_ids = head;
    head_ids.truncate(keep);
    let mut ids: Vec<u32> = Vec::new();
    ids.push(sp.cls);
    append_ids(&mut ids, &head_ids);
    ids.push(sp.sep);
    proof {
        assert(ids@ =~= head_part(*sp, head@, opts2, head_max_len as int));
    }
    let ghost hp = ids@;
    let mut markers: Vec<usize> = Vec::new();
    let mut j: usize = 0;
    proof {
        assert(opts2.subrange(0, 0) =~= Seq::<Seq<u32>>::empty());
    }
    while j < n
        invariant
            opts@.len() == n,
            runs(opts@) == opts2,
            opts2.len() == n,
            j <= n,
            ids@ == hp + joined(opts2.subrange(0, j as int)),
            hp == head_part(*sp, head@, opts2, head_max_len as int),
            markers@.len() == j,
            forall|m: int| 0 <= m < j ==> #[trigger] markers@[m] == marker_at(*sp, head@, opts2, head_max_len as int, m),
        decreases n - j,
    {
        proof {
            lemma_total_nonneg(opts2.subrange(0, j as int));
            lemma_total_step(opts2, j as int);
            assert(opts2[j as int] == opts@[j as int]@);
        }
        markers.push(ids.len());
        append_ids(&mut ids, &opts[j]);
        j += 1;
    }
    proof {
        assert(opts2.subrange(0, n as int) =~= opts2);
    }
    ids.push(sp.sep);
    let room = if ids.len() < max_len { max_len - ids.len() - 1 } else { 0 };
    let mut st = state;
    st.truncate(room);
    append_ids(&mut ids, &st);
    ids.push(sp.sep);
    ids.truncate(max_len);
    proof {
        assert(ids@ =~= choice_ids(*sp, head@, b, state@, max_len as int, head_max_len as int));
    }
    (ids, markers)
}

/// Builds the sequence from already tokenized parts: `head` holds the instruction tokens, `bodies`
/// the tokens of each option, `state` the state tokens. Fails when an option marker would fall
/// outside `max_len`.
pub fn assemble_choice_sequence(
    sp: &Specials,
    head: Vec<u32>,
    bodies: Vec<Vec<u32>>,
    state: Vec<u32>,
    max_len: usize,
    head_max_len: usize,
) -> (r: Result<Encoded, SequenceError>)
    ensures
        match r {
            Ok(e) => markers_fit(*sp, head@, runs(bodies@), max_len as int, head_max_len as int)
                && assembled(*sp, head@, runs(bodies@), state@, max_len as int, head_max_len as int, e),
            Err(e) => !markers_fit(*sp, head@, runs(bodies@), max_len as int, head_max_len as int) && match e {
                SequenceError::OptionsDoNotFit { head_max_len: h, kept, total } => {
                    let opts = budget_options(sp.mask, runs(bodies@), head_max_len as int);
                    &&& h == head_max_len
                    &&& total == bodies@.len()
                    &&& kept < total
                    &&& forall|i: int| 0 <= i < kept ==> #[trigger] marker_at(*sp, head@, opts, head_max_len as int, i) < max_len
                    &&& marker_at(*sp, head@, opts, head_max_len as int, kept as int) >= max_len
                },
                _ => false,
            },
        },
{
    let n = bodies.len();
    let ghost b = runs(bodies@);
    let ghost h = head@;
    let mut opts = mark_options(sp.mask, &bodies);
    fit_options(&mut opts, head_max_len, Ghost(sp.mask), Ghost(b));
    let ghost opts2 = budget_options(sp.mask, b, head_max_len as int);
    let (ids, markers) = lay_out(sp, head, &opts, state, max_len, head_max_len, Ghost(b));
    // Markers grow with the option index, so they fit exactly when the last one does.
    let mut kept: usize = 0;
    while kept < n && markers[kept] < max_len
        invariant
            n == bodies@.len(),
            markers@.len() == n,
            kept <= n,
            forall|m: int| 0 <= m < kept ==> #[trigger] markers@[m] < max_len,
        decreases n - kept,
    {
        kept += 1;
    }
    if kept < n {
        proof {
            assert(markers@[kept as int] >= max_len);
            assert(marker_at(*sp, h, opts2, head_max_len as int, kept as int) >= max_len);
            assert forall|i: int| 0 <= i < kept implies #[trigger] marker_at(*sp, h, opts2, head_max_len as int, i) < max_len by {
                assert(markers@[i] < max_len);
            }
        }
        return Err(SequenceError::OptionsDoNotFit { head_max_len, kept, total: n });
    }
    proof {
        assert forall|i: int| 0 <= i < b.len() implies #[trigger] marker_at(*sp, h, opts2, head_max_len as int, i) < max_len by {
            assert(markers@[i] < max_len);
        }
    }
    Ok(Encoded { ids, markers })
}

proof fn lemma_joined_index(s: Seq<Seq<u32>>, i: int, k: int)
    requires
        0 <= i < s.len(),
        0 <= k < s[i].len(),
    ensures
        total_len(s.subrange(0, i)) + k < joined(s).len(),
        joined(s)[total_len(s.subrange(0, i)) + k] == s[i][k],
    decreases s.len(),
{
    lemma_total_nonneg(s.subrange(0, i));
    lemma_total_nonneg(s.drop_last());
    lemma_total_nonneg(s);
    if i == s.len() - 1 {
        assert(s.subrange(0, i) =~= s.drop_last());
    } else {
        assert(s.drop_last().subrange(0, i) =~= s.subrange(0, i));
        lemma_joined_index(s.drop_last(), i, k);
    }
}

proof fn lemma_total_prefix_grows(s: Seq<Seq<u32>>, i: int, j: int)
    requires
        0 <= i < j <= s.len(),
        forall|m: int| 0 <= m < s.len() ==> (#[trigger] s[m]).len() >= 1,
    ensures
        total_len(s.subrange(0, i)) < total_len(s.subrange(0, j)),
    decreases j - i,
{
    lemma_total_step(s, j - 1);
    if i < j - 1 {
        lemma_total_prefix_grows(s, i, j - 1);
    }
}

/// Every option of the budgeted options starts with its marker.
proof fn lemma_options_start_with_mask(mask: u32, b: Seq<Seq<u32>>, head_max_len: int, i: int)
    requires
        0 <= i < b.len(),
    ensures
        budget_options(mask, b, head_max_len)[i].len() >= 1,
        budget_options(mask, b, head_max_len)[i][0] == mask,
{
    let opts = marked_options(mask, b);
    assert(opts[i][0] == mask);
}

/// The sequence holds at most `max_len` ids, starts with `[CLS]`, and when every marker fits, the
/// markers grow with the option index and each points at a `[MASK]` id: the position the decision
/// head reads that option from.
pub proof fn lemma_markers_point_at_mask(
    sp: Specials,
    head: Seq<u32>,
    b: Seq<Seq<u32>>,
    state: Seq<u32>,
    max_len: int,
    head_max_len: int,
)
    requires
        markers_fit(sp, head, b, max_len, head_max_len),
    ensures
        choice_ids(sp, head, b, state, max_len, head_max_len).len() <= if max_len > 0 { max_len } else { 0 },
        max_len > 0 ==> choice_ids(sp, head, b, state, max_len, head_max_len)[0] == sp.cls,
        forall|i: int| 0 <= i < b.len() ==> #[trigger] choice_ids(sp, head, b, state, max_len, head_max_len)[marker_at(
            sp,
            head,
            budget_options(sp.mask, b, head_max_len),
            head_max_len,
            i,
        )] == sp.mask,
        forall|i: int, j: int| 0 <= i < j < b.len() ==> #[trigger] marker_at(sp, head, budget_options(sp.mask, b, head_max_len), head_max_len, i)
            < #[trigger] marker_at(sp, head, budget_options(sp.mask, b, head_max_len), head_max_len, j),
{
    let opts = budget_options(sp.mask, b, head_max_len);
    let hp = head_part(sp, head, opts, head_max_len);
    let mid = hp + joined(opts) + seq![sp.sep];
    let room = if max_len >= mid.len() + 1 { max_len - (mid.len() + 1) } else { 0 };
    let full = mid + take_n(state, room) + seq![sp.sep];
    let ids = choice_ids(sp, head, b, state, max_len, head_max_len);
    assert(ids == take_n(full, max_len));
    assert(hp[0] == sp.cls);
    assert forall|i: int| 0 <= i < b.len() implies #[trigger] ids[marker_at(sp, head, opts, head_max_len, i)] == sp.mask by {
        lemma_options_start_with_mask(sp.mask, b, head_max_len, i);
        lemma_joined_index(opts, i, 0);
        lemma_total_nonneg(opts.subrange(0, i));
        let m = marker_at(sp, head, opts, head_max_len, i);
        assert(m < max_len);
        assert(full[m] == joined(opts)[total_len(opts.subrange(0, i))]);
    }
    assert forall|i: int, j: int| 0 <= i < j < b.len() implies #[trigger] marker_at(sp, head, opts, head_max_len, i)
        < #[trigger] marker_at(sp, head, opts, head_max_len, j) by {
        assert forall|m: int| 0 <= m < opts.len() implies (#[trigger] opts[m]).len() >= 1 by {
            lemma_options_start_with_mask(sp.mask, b, head_max_len, m);
        }
        lemma_total_prefix_grows(opts, i, j);
    }
}

/// The three texts of a `choice` question before tokenizing: the instructions prefixed with
/// `choice question: `, each option after a space, and the state; `[MASK]` in any of them is
/// replaced by a space.
pub struct ChoiceTexts {
    pub head: String,
    pub options: Vec<String>,
    pub state: String,
}

/// The texts `build_choice_sequence` tokenizes.
pub fn choice_texts(instructions: &str, options: &[&str], state: &str) -> (t: ChoiceTexts)
    ensures
        t.head@ == "choice question: "@ + scrub(instructions@),
        t.options@.len() == options@.len(),
        forall|i: int| 0 <= i < options@.len() ==> (#[trigger] t.options@[i])@ == " "@ + scrub(options@[i]@),
        t.state@ == scrub(state@),
{
    let mut head = text_of("choice question: ");
    push_scrubbed(&mut head, instructions);
    let mut texts: Vec<String> = Vec::new();
    let mut i: usize = 0;
    while i < options.len()
        invariant
            i <= options@.len(),
            texts@.len() == i,
            forall|j: int| 0 <= j < i ==> (#[trigger] texts@[j])@ == " "@ + scrub(options@[j]@),
        decreases options@.len() - i,
    {
        let mut text = text_of(" ");
        push_scrubbed(&mut text, options[i]);
        texts.push(text);
        i += 1;
    }
    let mut st = String::new();
    push_scrubbed(&mut st, state);
    assert(st@ == scrub(state@));
    ChoiceTexts { head, options: texts, state: st }
}

/// The encoder input for one `choice` question about `state`: the texts of `choice_texts` are
/// tokenized, and the token runs are laid out by `assemble_choice_sequence`. Fails without
/// options, when the tokenizer fails, or when an option marker would fall outside `max_len`.
pub fn build_choice_sequence(
    tok: &tokenizers::Tokenizer,
    sp: &Specials,
    instructions: &str,
    options: &[&str],
    state: &str,
    max_len: usize,
    head_max_len: usize,
) -> (r: Result<Encoded, SequenceError>)
    ensures
        options@.len() == 0 <==> r matches Err(SequenceError::NoOptions),
        r matches Err(e) ==> (e is NoOptions || e is Tokenize || e is OptionsDoNotFit),
        r matches Ok(e) ==> options@.len() > 0 && exists|h: Seq<u32>, b: Seq<Seq<u32>>, st: Seq<u32>|
            #[trigger] assembled(*sp, h, b, st, max_len as int, head_max_len as int, e)
                && b.len() == options@.len() && markers_fit(*sp, h, b, max_len as int, head_max_len as int),
        r matches Err(SequenceError::OptionsDoNotFit { .. }) ==> exists|h: Seq<u32>, b: Seq<Seq<u32>>|
            b.len() == options@.len() && !#[trigger] markers_fit(*sp, h, b, max_len as int, head_max_len as int),
{
    if options.len() == 0 {
        return Err(SequenceError::NoOptions);
    }
    let texts = choice_texts(instructions, options, state);
    let head_ids = match encode_plain(tok, texts.head.as_str()) {
        Ok(ids) => ids,
        Err(msg) => return Err(SequenceError::Tokenize(msg)),
    };
    let mut bodies: Vec<Vec<u32>> = Vec::new();
    let mut i: usize = 0;
    while i < texts.options.len()
        invariant
            texts.options@.len() == options@.len(),
            i <= options@.len(),
            bodies@.len() == i,
        decreases options@.len() - i,
    {
        match encode_plain(tok, texts.options[i].as_str()) {
            Ok(ids) => bodies.push(ids),
            Err(msg) => return Err(SequenceError::Tokenize(msg)),
        }
        i += 1;
    }
    let state_ids = match encode_plain(tok, texts.state.as_str()) {
        Ok(ids) => ids,
        Err(msg) => return Err(SequenceError::Tokenize(msg)),
    };
    let ghost h = head_ids@;
    let ghost b = runs(bodies@);
    let ghost st = state_ids@;
    let r = assemble_choice_sequence(sp, head_ids, bodies, state_ids, max_len, head_max_len);
    assert(r matches Ok(e) ==> assembled(*sp, h, b, st, max_len as int, head_max_len as int, e));
    assert(r is Err ==> !markers_fit(*sp, h, b, max_len as int, head_max_len as int));
    r
}

} // verus!

//! The layout of a safetensors checkpoint: an 8-byte little-endian header length, a JSON header
//! naming each tensor's dtype, shape and byte range, then the data. What is checked here is what
//! makes reading a tensor out of the mapped file safe: every range lies inside the file, and a
//! matrix handed to the kernels is aligned and holds exactly the values its shape says.

use vstd::prelude::*;
use crate::text::text_is;

verus! {

/// The value of eight bytes read as a little-endian unsigned number.
pub open spec fn le_u64(b: Seq<u8>) -> int {
    b[0] + 256 * (b[1] + 256 * (b[2] + 256 * (b[3] + 256 * (b[4] + 256 * (b[5] + 256 * (b[6] + 256 * b[7] as int))))))
}

/// `le_u64` of the bytes from `i` on, up to the eighth.
pub open spec fn le_tail(b: Seq<u8>, i: int) -> int
    decreases 8 - i,
{
    if i >= 8 {
        0
    } else {
        b[i] + 256 * le_tail(b, i + 1)
    }
}

pub open spec fn pow256(n: nat) -> int
    decreases n,
{
    if n == 0 {
        1
    } else {
        256 * pow256((n - 1) as nat)
    }
}

/// What the header says of one tensor.
#[derive(Clone, Debug)]
pub struct TensorInfo {
    pub dtype: String,
    pub shape: Vec<usize>,
    /// Byte range of the data, from the end of the header.
    pub start: usize,
    pub end: usize,
}

/// Why a checkpoint or a tensor in it cannot be used.
#[derive(Clone, Debug)]
pub enum WeightsError {
    /// The file is shorter than the 8-byte header length.
    TooSmall,
    /// The header length runs past the end of the file.
    BadHeaderLength,
    /// The header is not a JSON object; the parser's message.
    Header(String),
    /// A tensor without a string `dtype`.
    NoDtype(String),
    /// A tensor without a `shape` list.
    NoShape(String),
    /// A tensor without a `data_offsets` list.
    NoOffsets(String),
    /// `data_offsets` without two numbers.
    BadOffsets(String),
    /// The byte range is reversed or runs past the end of the file.
    OutsideFile(String),
    /// No tensor of this name.
    Missing(String),
    /// A matrix that is not stored as F16.
    NotF16(String),
    /// A tensor of another shape than asked for.
    WrongShape(String),
    /// A matrix at an odd offset or of another size than its shape says.
    Misaligned(String),
    /// A vector stored neither as F16 nor as F32.
    UnsupportedDtype(String),
}

/// Where the data starts: after the 8-byte length and the header it gives; an error when the
/// file is too short for either.
pub fn header_base(bytes: &[u8]) -> (r: Result<usize, WeightsError>)
    ensures
        bytes@.len() < 8 ==> r matches Err(WeightsError::TooSmall),
        bytes@.len() >= 8 ==> {
            let base = 8 + le_u64(bytes@);
            &&& base <= bytes@.len() ==> r == Ok::<usize, WeightsError>(base as usize)
            &&& base > bytes@.len() ==> r matches Err(WeightsError::BadHeaderLength)
        },
{
    let n = bytes.len();
    if n < 8 {
        return Err(WeightsError::TooSmall);
    }
    let mut v: u64 = 0;
    let mut i: usize = 8;
    while i > 0
        invariant
            i <= 8,
            bytes@.len() >= 8,
            v == le_tail(bytes@, i as int),
            v < pow256((8 - i) as nat),
        decreases i,
    {
        i -= 1;
        proof {
            assert(pow256((8 - i) as nat) == 256 * pow256((7 - i) as nat));
            assert(pow256(8) == 0x1_0000_0000_0000_0000) by {
                reveal_with_fuel(pow256, 9);
            }
            lemma_pow256_le8((8 - i) as nat);
        }
        v = v * 256 + bytes[i] as u64;
    }
    proof {
        assert(le_tail(bytes@, 0) == le_u64(bytes@)) by {
            reveal_with_fuel(le_tail, 9);
        }
    }
    if v > (n - 8) as u64 {
        Err(WeightsError::BadHeaderLength)
    } else {
        Ok(8 + v as usize)
    }
}

proof fn lemma_pow256_pos(n: nat)
    ensures
        pow256(n) >= 1,
    decreases n,
{
    if n > 0 {
        lemma_pow256_pos((n - 1) as nat);
    }
}

proof fn lemma_pow256_le8(n: nat)
    requires
        n <= 8,
    ensures
        pow256(n) <= pow256(8),
    decreases 8 - n,
{
    if n < 8 {
        lemma_pow256_le8(n + 1);
        lemma_pow256_pos(n);
        assert(pow256(n + 1) == 256 * pow256(n));
    }
}

/// One member of the header as the JSON holds it: its name, its `dtype` member when that is a
/// string, and its `shape` and `data_offsets` members when they are arrays (each element kept
/// when it is an unsigned integer).
pub struct RawMember {
    pub name: String,
    pub dtype: Option<String>,
    pub shape: Option<Vec<Option<u64>>>,
    pub offsets: Option<Vec<Option<u64>>>,
}

impl View for RawMember {
    type V = (Seq<char>, Option<Seq<char>>, Option<Seq<Option<u64>>>, Option<Seq<Option<u64>>>);

    open spec fn view(&self) -> (Seq<char>, Option<Seq<char>>, Option<Seq<Option<u64>>>, Option<Seq<Option<u64>>>) {
        (
            self.name@,
            match &self.dtype {
                Some(d) => Some(d@),
                None => None,
            },
            match &self.shape {
                Some(v) => Some(v@),
                None => None,
            },
            match &self.offsets {
                Some(v) => Some(v@),
                None => None,
            },
        )
    }
}

/// The members of the JSON object that `serde_json::from_slice` reads from `bytes` (into a
/// `serde_json::Map<String, serde_json::Value>`, in the map's order), each as its name, its
/// `dtype` member through `Value::as_str`, and its `shape` and `data_offsets` members through
/// `Value::as_array` with each element through `Value::as_u64`; `None` when the parse fails.
pub uninterp spec fn json_header(bytes: Seq<u8>) -> Option<Seq<(Seq<char>, Option<Seq<char>>, Option<Seq<Option<u64>>>, Option<Seq<Option<u64>>>)>>;

/// Parses bytes `from..to` of `bytes` as a JSON object (`serde_json::from_slice` into a
/// `serde_json::Map<String, serde_json::Value>`) and reads each member's `dtype` (`as_str`),
/// `shape` and `data_offsets` (`as_array`, each element `as_u64`); a parse failure comes back as
/// the parser's message. Claimed: the members are the header's, as `json_header` names them.
#[verifier::external_body]
fn parse_header(bytes: &[u8], from: usize, to: usize) -> (r: Result<Vec<RawMember>, String>)
    requires
        from <= to <= bytes@.len(),
    ensures
        match r {
            Ok(m) => json_header(bytes@.subrange(from as int, to as int)) == Some(m@.map_values(|x: RawMember| x@)),
            Err(_) => json_header(bytes@.subrange(from as int, to as int)) is None,
        },
{
    let list = |v: &serde_json::Value| v.as_array().map(|a| a.iter().map(serde_json::Value::as_u64).collect());
    match serde_json::from_slice::<serde_json::Map<String, serde_json::Value>>(&bytes[from..to]) {
        Ok(m) => Ok(m.into_iter().map(|(name, v)| RawMember {
            dtype: v["dtype"].as_str().map(String::from),
            shape: list(&v["shape"]),
            offsets: list(&v["data_offsets"]),
            name,
        }).collect()),
        Err(e) => Err(e.to_string()),
    }
}

/// Every tensor of the index lies inside a file of `file_len` bytes whose data starts at `base`.
pub open spec fn index_ok(index: Seq<(String, TensorInfo)>, base: int, file_len: int) -> bool {
    forall|i: int| 0 <= i < index.len() ==> #[trigger] index[i].1.start <= index[i].1.end && base + index[i].1.end <= file_len
}

/// What is wrong with a header member.
#[derive(PartialEq, Eq, Structural)]
pub enum Fault {
    NoDtype,
    NoShape,
    NoOffsets,
    BadOffsets,
    OutsideFile,
}

/// A tensor as plain values: name, dtype, shape, start and end of its bytes.
pub open spec fn info_view(e: (String, TensorInfo)) -> (Seq<char>, Seq<char>, Seq<usize>, int, int) {
    (e.0@, e.1.dtype@, e.1.shape@, e.1.start as int, e.1.end as int)
}

/// A shape element as a count: an element that is no unsigned integer counts as 0.
pub open spec fn dim_of(x: Option<u64>) -> usize {
    (match x {
        Some(v) => v,
        None => 0u64,
    }) as usize
}

/// What one header member gives, with `room` bytes of data after the header: nothing for
/// `__metadata__`, a tensor, or what is wrong with it.
pub open spec fn member_entry(
    m: (Seq<char>, Option<Seq<char>>, Option<Seq<Option<u64>>>, Option<Seq<Option<u64>>>),
    room: int,
) -> Result<Option<(Seq<char>, Seq<char>, Seq<usize>, int, int)>, Fault> {
    if m.0 == "__metadata__"@ {
        Ok(None)
    } else {
        match (m.1, m.2, m.3) {
            (None, _, _) => Err(Fault::NoDtype),
            (Some(_), None, _) => Err(Fault::NoShape),
            (Some(_), Some(_), None) => Err(Fault::NoOffsets),
            (Some(d), Some(sh), Some(o)) => if o.len() < 2 || o[0] is None || o[1] is None {
                Err(Fault::BadOffsets)
            } else if o[0]->0 > o[1]->0 || o[1]->0 > room {
                Err(Fault::OutsideFile)
            } else {
                Ok(Some((m.0, d, sh.map_values(|x: Option<u64>| dim_of(x)), o[0]->0 as int, o[1]->0 as int)))
            },
        }
    }
}

/// The index the first `n` members give: their tensors in order, or the first fault with the
/// member's name.
pub open spec fn index_spec(
    ms: Seq<(Seq<char>, Option<Seq<char>>, Option<Seq<Option<u64>>>, Option<Seq<Option<u64>>>)>,
    room: int,
    n: int,
) -> Result<Seq<(Seq<char>, Seq<char>, Seq<usize>, int, int)>, (Fault, Seq<char>)>
    decreases n,
{
    if n <= 0 {
        Ok(Seq::empty())
    } else {
        match index_spec(ms, room, n - 1) {
            Err(e) => Err(e),
            Ok(acc) => match member_entry(ms[n - 1], room) {
                Err(f) => Err((f, ms[n - 1].0)),
                Ok(None) => Ok(acc),
                Ok(Some(t)) => Ok(acc.push(t)),
            },
        }
    }
}

proof fn lemma_index_error_stays(
    ms: Seq<(Seq<char>, Option<Seq<char>>, Option<Seq<Option<u64>>>, Option<Seq<Option<u64>>>)>,
    room: int,
    k: int,
    n: int,
)
    requires
        0 <= k <= n,
        index_spec(ms, room, k) is Err,
    ensures
        index_spec(ms, room, n) == index_spec(ms, room, k),
    decreases n - k,
{
    if n > k {
        lemma_index_error_stays(ms, room, k, n - 1);
    }
}

/// The error `e` is fault `f` of the member called `name`.
pub open spec fn fault_error(f: Fault, name: Seq<char>, e: WeightsError) -> bool {
    match e {
        WeightsError::NoDtype(n) => f == Fault::NoDtype && n@ == name,
        WeightsError::NoShape(n) => f == Fault::NoShape && n@ == name,
        WeightsError::NoOffsets(n) => f == Fault::NoOffsets && n@ == name,
        WeightsError::BadOffsets(n) => f == Fault::BadOffsets && n@ == name,
        WeightsError::OutsideFile(n) => f == Fault::OutsideFile && n@ == name,
        _ => false,
    }
}

fn shape_of(raw: &Vec<Option<u64>>) -> (shape: Vec<usize>)
    ensures
        shape@ == raw@.map_values(|x: Option<u64>| dim_of(x)),
{
    let mut shape: Vec<usize> = Vec::new();
    let mut i: usize = 0;
    while i < raw.len()
        invariant
            i <= raw@.len(),
            shape@ == raw@.subrange(0, i as int).map_values(|x: Option<u64>| dim_of(x)),
        decreases raw@.len() - i,
    {
        let d: u64 = match raw[i] {
            Some(x) => x,
            None => 0,
        };
        shape.push(d as usize);
        proof {
            assert(raw@.subrange(0, i + 1).map_values(|x: Option<u64>| dim_of(x)) =~= raw@.subrange(0, i as int).map_values(
                |x: Option<u64>| dim_of(x),
            ).push(dim_of(raw@[i as int])));
        }
        i += 1;
    }
    assert(raw@.subrange(0, raw@.len() as int) =~= raw@);
    shape
}

/// The tensors of a checkpoint, read from its header: `bytes` is the whole file and `base` where
/// its data starts (`header_base`). Each member other than `__metadata__` gives a tensor, in the
/// header's order, with the member's dtype, its shape (an element that is no unsigned integer
/// counts as 0) and its data offsets, which must lie inside the file; the first member that lacks
/// one of them, or points outside the file, is the error.
pub fn read_index(bytes: &[u8], base: usize) -> (r: Result<Vec<(String, TensorInfo)>, WeightsError>)
    requires
        8 <= base <= bytes@.len(),
    ensures
        match json_header(bytes@.subrange(8, base as int)) {
            None => r matches Err(WeightsError::Header(_)),
            Some(ms) => match index_spec(ms, bytes@.len() - base, ms.len() as int) {
                Ok(entries) => r matches Ok(index) && index@.map_values(|e: (String, TensorInfo)| info_view(e)) == entries,
                Err((f, name)) => r matches Err(e) && fault_error(f, name, e),
            },
        },
        r matches Ok(index) ==> index_ok(index@, base as int, bytes@.len() as int),
{
    let members = match parse_header(bytes, 8, base) {
        Ok(m) => m,
        Err(msg) => return Err(WeightsError::Header(msg)),
    };
    let ghost ms = members@.map_values(|x: RawMember| x@);
    let ghost room = bytes@.len() - base;
    let file_len = bytes.len() as u64;
    let mut index: Vec<(String, TensorInfo)> = Vec::new();
    let mut i: usize = 0;
    proof {
        assert(index@.map_values(|e: (String, TensorInfo)| info_view(e)) =~= Seq::<(Seq<char>, Seq<char>, Seq<usize>, int, int)>::empty());
    }
    while i < members.len()
        invariant
            base <= bytes@.len(),
            bytes@.len() <= usize::MAX,
            file_len == bytes@.len(),
            room == bytes@.len() - base,
            i <= members@.len(),
            ms == members@.map_values(|x: RawMember| x@),
            json_header(bytes@.subrange(8, base as int)) == Some(ms),
            index_ok(index@, base as int, bytes@.len() as int),
            index_spec(ms, room, i as int) == Ok::<Seq<(Seq<char>, Seq<char>, Seq<usize>, int, int)>, (Fault, Seq<char>)>(
                index@.map_values(|e: (String, TensorInfo)| info_view(e)),
            ),
        decreases members@.len() - i,
    {
        let m = &members[i];
        let ghost before = index@;
        let ghost mv = ms[i as int];
        assert(mv == m@);
        let ghost k = i as int;
        i += 1;
        if text_is(m.name.as_str(), "__metadata__") {
            continue;
        }
        let dtype = match &m.dtype {
            Some(d) => d.clone(),
            None => {
                proof { lemma_index_error_stays(ms, room, k + 1, ms.len() as int); }
                return Err(WeightsError::NoDtype(m.name.clone()));
            },
        };
        let shape = match &m.shape {
            Some(s) => shape_of(s),
            None => {
                proof { lemma_index_error_stays(ms, room, k + 1, ms.len() as int); }
                return Err(WeightsError::NoShape(m.name.clone()));
            },
        };
        let offsets = match &m.offsets {
            Some(o) => o,
            None => {
                proof { lemma_index_error_stays(ms, room, k + 1, ms.len() as int); }
                return Err(WeightsError::NoOffsets(m.name.clone()));
            },
        };
        if offsets.len() < 2 {
            proof { lemma_index_error_stays(ms, room, k + 1, ms.len() as int); }
            return Err(WeightsError::BadOffsets(m.name.clone()));
        }
        let (start, end) = match (offsets[0], offsets[1]) {
            (Some(s), Some(e)) => (s, e),
            _ => {
                proof { lemma_index_error_stays(ms, room, k + 1, ms.len() as int); }
                return Err(WeightsError::BadOffsets(m.name.clone()));
            },
        };
        if start > end || end > file_len - base as u64 {
            proof { lemma_index_error_stays(ms, room, k + 1, ms.len() as int); }
            return Err(WeightsError::OutsideFile(m.name.clone()));
        }
        proof {
            assert(end <= bytes@.len());
        }
        let info = TensorInfo { dtype, shape, start: start as usize, end: end as usize };
        assert(info.start == start && info.end == end);
        let entry_name = m.name.clone();
        index.push((entry_name, info));
        proof {
            assert(index@.map_values(|e: (String, TensorInfo)| info_view(e)) =~= before.map_values(
                |e: (String, TensorInfo)| info_view(e),
            ).push(info_view(index@.last())));
        }
    }
    proof {
        assert(ms.len() == members@.len());
    }
    Ok(index)
}

/// The position of the tensor called `name` in the index (the first such), if there is one.
pub fn find_tensor(index: &Vec<(String, TensorInfo)>, name: &str) -> (r: Option<usize>)
    ensures
        match r {
            Some(i) => i < index@.len() && index@[i as int].0@ == name@ && forall|j: int| 0 <= j < i ==> #[trigger] index@[j].0@ != name@,
            None => forall|j: int| 0 <= j < index@.len() ==> #[trigger] index@[j].0@ != name@,
        },
{
    let mut i: usize = 0;
    while i < index.len()
        invariant
            i <= index@.len(),
            forall|j: int| 0 <= j < i ==> #[trigger] index@[j].0@ != name@,
        decreases index@.len() - i,
    {
        if text_is(index[i].0.as_str(), name) {
            return Some(i);
        }
        i += 1;
    }
    None
}

fn shape_is(shape: &Vec<usize>, want: &[usize]) -> (r: bool)
    ensures
        r == (shape@ == want@),
{
    if shape.len() != want.len() {
        return false;
    }
    let mut i: usize = 0;
    while i < shape.len()
        invariant
            shape@.len() == want@.len(),
            i <= shape@.len(),
            forall|j: int| 0 <= j < i ==> shape@[j] == want@[j],
        decreases shape@.len() - i,
    {
        if shape[i] != want[i] {
            return false;
        }
        i += 1;
    }
    assert(shape@ =~= want@);
    true
}

/// Where the data of an `n` x `k` f16 matrix starts in the file: it must be stored as F16 with
/// shape `[n, k]`, start at an even offset and hold exactly `n * k` two-byte values. The matrix
/// then lies inside the file.
pub fn matrix_offset(info: &TensorInfo, name: &str, base: usize, file_len: usize, n: usize, k: usize) -> (r: Result<usize, WeightsError>)
    requires
        info.start <= info.end,
        base + info.end <= file_len,
    ensures
        match r {
            Ok(off) => {
                &&& info.dtype@ == "F16"@
                &&& info.shape@ == seq![n, k]
                &&& off == base + info.start
                &&& off % 2 == 0
                &&& info.end - info.start == 2 * (n * k)
                &&& off + 2 * (n * k) <= file_len
            },
            Err(e) => {
                ||| (info.dtype@ != "F16"@ && e is NotF16)
                ||| (info.dtype@ == "F16"@ && info.shape@ != seq![n, k] && e is WrongShape)
                ||| (info.dtype@ == "F16"@ && info.shape@ == seq![n, k] && ((base + info.start) % 2 != 0
                    || info.end - info.start != 2 * (n * k)) && e is Misaligned)
            },
        },
{
    if !text_is(info.dtype.as_str(), "F16") {
        return Err(WeightsError::NotF16(text_copy(name)));
    }
    let want = [n, k];
    assert(want@ =~= seq![n, k]);
    if !shape_is(&info.shape, &want) {
        return Err(WeightsError::WrongShape(text_copy(name)));
    }
    let off = base + info.start;
    let size = info.end - info.start;
    let expect: Option<usize> = match n.checked_mul(k) {
        Some(nk) => nk.checked_mul(2),
        None => None,
    };
    let fits = match expect {
        Some(e) => size == e,
        None => false,
    };
    if off % 2 != 0 || !fits {
        return Err(WeightsError::Misaligned(text_copy(name)));
    }
    Ok(off)
}

/// How a vector's values are stored.
#[derive(Clone, Copy, Debug, PartialEq, Eq, Structural)]
pub enum VectorKind {
    F16,
    F32,
}

/// Where the data of a vector of `len` values lies in the file, and how it is stored: shape
/// `[len]`, stored as F16 or F32.
pub fn vector_span(info: &TensorInfo, name: &str, base: usize, len: usize) -> (r: Result<(usize, usize, VectorKind), WeightsError>)
    requires
        info.start <= info.end,
        base + info.end <= usize::MAX,
    ensures
        match r {
            Ok((from, to, kind)) => {
                &&& info.shape@ == seq![len]
                &&& from == base + info.start
                &&& to == base + info.end
                &&& (kind == VectorKind::F16 <==> info.dtype@ == "F16"@)
                &&& (kind == VectorKind::F32 <==> info.dtype@ == "F32"@)
            },
            Err(e) => {
                ||| (info.shape@ != seq![len] && e is WrongShape)
                ||| (info.shape@ == seq![len] && info.dtype@ != "F16"@ && info.dtype@ != "F32"@ && e is UnsupportedDtype)
            },
        },
{
    proof {
        reveal_strlit("F16");
        reveal_strlit("F32");
        assert("F16"@[1] != "F32"@[1]);
    }
    let want = [len];
    assert(want@ =~= seq![len]);
    if !shape_is(&info.shape, &want) {
        return Err(WeightsError::WrongShape(text_copy(name)));
    }
    let kind = if text_is(info.dtype.as_str(), "F16") {
        VectorKind::F16
    } else if text_is(info.dtype.as_str(), "F32") {
        VectorKind::F32
    } else {
        return Err(WeightsError::UnsupportedDtype(text_copy(name)));
    };
    Ok((base + info.start, base + info.end, kind))
}

fn text_copy(s: &str) -> (r: String)
    ensures
        r@ == s@,
{
    crate::text::text_of(s)
}

/// The width of one attention head in the fast engine.
pub const HEAD_DIM: usize = 64;

/// Why the fast engine cannot run an encoder of the given sizes.
#[derive(Clone, Copy, Debug, PartialEq, Eq, Structural)]
pub enum SizeError {
    /// The hidden size is not the number of heads times the head width.
    HeadSize,
    /// The hidden or the intermediate size is not a multiple of eight (the kernels' lane count).
    NotEightWide,
}

/// The encoder sizes the fast engine runs: the hidden size is `heads` heads of `HEAD_DIM`, and
/// the hidden and intermediate sizes are multiples of eight. The head size is checked first.
pub fn check_encoder_sizes(hidden: usize, heads: usize, intermediate: usize) -> (r: Result<(), SizeError>)
    ensures
        r matches Err(SizeError::HeadSize) <==> hidden != heads * HEAD_DIM,
        r matches Err(SizeError::NotEightWide) <==> hidden == heads * HEAD_DIM && (hidden % 8 != 0
            || intermediate % 8 != 0),
        r is Ok <==> hidden == heads * HEAD_DIM && hidden % 8 == 0 && intermediate % 8 == 0,
{
    let same = match heads.checked_mul(HEAD_DIM) {
        Some(n) => n == hidden,
        None => false,
    };
    if !same {
        return Err(SizeError::HeadSize);
    }
    if hidden % 8 != 0 || intermediate % 8 != 0 {
        return Err(SizeError::NotEightWide);
    }
    Ok(())
}

} // verus!

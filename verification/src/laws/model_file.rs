//! What a model file says is what was written into it.
use crate::float::{Double, Single};
use crate::gguf::{alignment_at, data_start, entries_at, entries_of};
use crate::gguf::{little, number_at, string_at, table_of, tensor_at, tensors_at, value_at};
use crate::gguf::{GgufError, Value};
use crate::text;
use vstd::prelude::*;

verus! {

/// `n` in `k` bytes, the lowest first.
pub open spec fn bytes_of(n: int, k: nat) -> Seq<u8>
    decreases k,
{
    if k == 0 {
        Seq::empty()
    } else {
        seq![(n % 256) as u8] + bytes_of(n / 256, (k - 1) as nat)
    }
}

/// How many numbers `k` bytes tell apart.
pub open spec fn numbers_in_bytes(k: nat) -> int
    decreases k,
{
    if k == 0 {
        1
    } else {
        256 * numbers_in_bytes((k - 1) as nat)
    }
}

proof fn lemma_bytes_len(n: int, k: nat)
    ensures
        bytes_of(n, k).len() == k,
    decreases k,
{
    if k > 0 {
        lemma_bytes_len(n / 256, (k - 1) as nat);
    }
}

/// A number that was written in some bytes reads as itself wherever they stand.
pub proof fn numbers_read_back(before: Seq<u8>, n: int, k: nat, rest: Seq<u8>)
    requires
        0 <= n < numbers_in_bytes(k),
    ensures
        bytes_of(n, k).len() == k,
        number_at(before + bytes_of(n, k) + rest, before.len() as int, k) == Ok::<
            (int, int),
            GgufError,
        >((n, before.len() as int + k)),
    decreases k,
{
    lemma_bytes_len(n, k);
    lemma_little_reads(before, n, k, rest);
}

proof fn lemma_little_reads(before: Seq<u8>, n: int, k: nat, rest: Seq<u8>)
    requires
        0 <= n < numbers_in_bytes(k),
    ensures
        little(before + bytes_of(n, k) + rest, before.len() as int, k) == n,
    decreases k,
{
    if k > 0 {
        let b = (n % 256) as u8;
        let more = bytes_of(n / 256, (k - 1) as nat);
        let all = before + bytes_of(n, k) + rest;
        lemma_little_reads(before.push(b), n / 256, (k - 1) as nat, rest);
        assert(all =~= before.push(b) + more + rest);
        assert(all[before.len() as int] == b);
    }
}

proof fn lemma_sizes()
    ensures
        numbers_in_bytes(1) == 0x100,
        numbers_in_bytes(2) == 0x1_0000,
        numbers_in_bytes(4) == 0x1_0000_0000,
        numbers_in_bytes(8) == 0x1_0000_0000_0000_0000,
{
    reveal_with_fuel(numbers_in_bytes, 9);
}

/// A value as it is written into a file.
pub enum Written {
    U8(u8),
    I8(i8),
    U16(u16),
    I16(i16),
    U32(u32),
    I32(i32),
    F32(Single),
    Bool(bool),
    Text(Seq<u8>),
    U64(u64),
    I64(i64),
    F64(Double),
}

/// The bit pattern of a signed number, one of `size`.
pub open spec fn pattern(n: int, size: int) -> int {
    if n < 0 {
        n + size
    } else {
        n
    }
}

/// A text is written with its length, and may take up to a million bytes.
pub open spec fn text_bytes(s: Seq<u8>) -> Seq<u8> {
    bytes_of(s.len() as int, 8) + s
}

impl Written {
    /// The number that stands for the type.
    pub open spec fn code(self) -> int {
        match self {
            Written::U8(_) => 0,
            Written::I8(_) => 1,
            Written::U16(_) => 2,
            Written::I16(_) => 3,
            Written::U32(_) => 4,
            Written::I32(_) => 5,
            Written::F32(_) => 6,
            Written::Bool(_) => 7,
            Written::Text(_) => 8,
            Written::U64(_) => 10,
            Written::I64(_) => 11,
            Written::F64(_) => 12,
        }
    }

    pub open spec fn bytes(self) -> Seq<u8> {
        match self {
            Written::U8(n) => bytes_of(n as int, 1),
            Written::I8(n) => bytes_of(pattern(n as int, 0x100), 1),
            Written::U16(n) => bytes_of(n as int, 2),
            Written::I16(n) => bytes_of(pattern(n as int, 0x1_0000), 2),
            Written::U32(n) => bytes_of(n as int, 4),
            Written::I32(n) => bytes_of(pattern(n as int, 0x1_0000_0000), 4),
            Written::F32(x) => bytes_of(x.bits as int, 4),
            Written::Bool(b) => bytes_of(
                if b {
                    1
                } else {
                    0
                },
                1,
            ),
            Written::Text(s) => text_bytes(s),
            Written::U64(n) => bytes_of(n as int, 8),
            Written::I64(n) => bytes_of(pattern(n as int, 0x1_0000_0000_0000_0000), 8),
            Written::F64(x) => bytes_of(x.bits as int, 8),
        }
    }

    /// What the value is.
    pub open spec fn value(self) -> Value {
        match self {
            Written::U8(n) => Value::U(n as u64),
            Written::I8(n) => Value::I(n as i64),
            Written::U16(n) => Value::U(n as u64),
            Written::I16(n) => Value::I(n as i64),
            Written::U32(n) => Value::U(n as u64),
            Written::I32(n) => Value::I(n as i64),
            Written::F32(x) => Value::F32(x),
            Written::Bool(b) => Value::B(b),
            Written::Text(s) => Value::S(text::utf8_lossy(s)),
            Written::U64(n) => Value::U(n),
            Written::I64(n) => Value::I(n),
            Written::F64(x) => Value::F64(x),
        }
    }

    /// The value can be written.
    pub open spec fn fits(self) -> bool {
        self matches Written::Text(s) ==> s.len() <= 1_000_000
    }
}

/// A text that was written reads as what its bytes say.
pub proof fn texts_read_back(before: Seq<u8>, s: Seq<u8>, rest: Seq<u8>)
    requires
        s.len() <= 1_000_000,
    ensures
        text_bytes(s).len() == 8 + s.len(),
        string_at(before + text_bytes(s) + rest, before.len() as int) == Ok::<
            (Seq<char>, int),
            GgufError,
        >((text::utf8_lossy(s), before.len() as int + 8 + s.len())),
{
    lemma_sizes();
    let all = before + text_bytes(s) + rest;
    numbers_read_back(before, s.len() as int, 8, s + rest);
    assert(all =~= before + bytes_of(s.len() as int, 8) + (s + rest));
    let p = before.len() as int + 8;
    assert(all.subrange(p, p + s.len()) =~= s);
}

/// A value that was written reads as itself, whatever its type.
pub proof fn values_read_back(before: Seq<u8>, v: Written, rest: Seq<u8>)
    requires
        v.fits(),
    ensures
        value_at(before + v.bytes() + rest, before.len() as int, v.code()) == Ok::<
            (Value, int),
            GgufError,
        >((v.value(), before.len() as int + v.bytes().len())),
{
    lemma_sizes();
    match v {
        Written::U8(n) => numbers_read_back(before, n as int, 1, rest),
        Written::I8(n) => numbers_read_back(before, pattern(n as int, 0x100), 1, rest),
        Written::U16(n) => numbers_read_back(before, n as int, 2, rest),
        Written::I16(n) => numbers_read_back(before, pattern(n as int, 0x1_0000), 2, rest),
        Written::U32(n) => numbers_read_back(before, n as int, 4, rest),
        Written::I32(n) => numbers_read_back(before, pattern(n as int, 0x1_0000_0000), 4, rest),
        Written::F32(x) => numbers_read_back(before, x.bits as int, 4, rest),
        Written::Bool(b) => numbers_read_back(
            before,
            if b {
                1
            } else {
                0
            },
            1,
            rest,
        ),
        Written::Text(s) => texts_read_back(before, s, rest),
        Written::U64(n) => numbers_read_back(before, n as int, 8, rest),
        Written::I64(n) => numbers_read_back(
            before,
            pattern(n as int, 0x1_0000_0000_0000_0000),
            8,
            rest,
        ),
        Written::F64(x) => numbers_read_back(before, x.bits as int, 8, rest),
    }
}

/// An entry: its key, the code of its type, its value.
pub open spec fn entry_bytes(e: (Seq<u8>, Written)) -> Seq<u8> {
    text_bytes(e.0) + bytes_of(e.1.code(), 4) + e.1.bytes()
}

/// The entries from `i` on, one after the other.
pub open spec fn entries_bytes(entries: Seq<(Seq<u8>, Written)>, i: int) -> Seq<u8>
    decreases entries.len() - i,
{
    if i >= entries.len() {
        Seq::empty()
    } else {
        entry_bytes(entries[i]) + entries_bytes(entries, i + 1)
    }
}

/// What an entry says.
pub open spec fn entry_of(e: (Seq<u8>, Written)) -> (Seq<char>, Value) {
    (text::utf8_lossy(e.0), e.1.value())
}

/// An entry can be written.
pub open spec fn entry_fits(e: (Seq<u8>, Written)) -> bool {
    e.0.len() <= 1_000_000 && e.1.fits()
}

/// The start of a file: the mark, the version, how many tensors and how many entries
/// follow.
pub open spec fn start_bytes(version: int, tensors: int, entries: int) -> Seq<u8> {
    seq![71u8, 71, 85, 70] + bytes_of(version, 4) + bytes_of(tensors, 8) + bytes_of(entries, 8)
}

proof fn lemma_start(version: int, tensors: int, entries: int, rest: Seq<u8>)
    requires
        2 <= version < 0x1_0000_0000,
        0 <= tensors < 0x1_0000_0000_0000_0000,
        0 <= entries < 0x1_0000_0000_0000_0000,
    ensures
        start_bytes(version, tensors, entries).len() == 24,
        crate::gguf::start_of(start_bytes(version, tensors, entries) + rest) == Ok::<
            (int, int, int),
            GgufError,
        >((tensors, entries, 24)),
{
    lemma_sizes();
    let mark = seq![71u8, 71, 85, 70];
    let v = bytes_of(version, 4);
    let t = bytes_of(tensors, 8);
    let e = bytes_of(entries, 8);
    let b = start_bytes(version, tensors, entries) + rest;
    numbers_read_back(mark, version, 4, t + e + rest);
    assert(b =~= mark + v + (t + e + rest));
    numbers_read_back(mark + v, tensors, 8, e + rest);
    assert(b =~= (mark + v) + t + (e + rest));
    numbers_read_back(mark + v + t, entries, 8, rest);
    assert(b =~= (mark + v + t) + e + rest);
    assert(b.take(4) =~= seq![0x47u8, 0x47, 0x55, 0x46]);
}

/// The entry before the rest of a file reads as what it says.
proof fn lemma_entry(before: Seq<u8>, e: (Seq<u8>, Written), rest: Seq<u8>)
    requires
        entry_fits(e),
    ensures
        ({
            let b = before + entry_bytes(e) + rest;
            let p = before.len() as int + 8 + e.0.len();
            &&& entry_bytes(e).len() == 12 + e.0.len() + e.1.bytes().len()
            &&& string_at(b, before.len() as int) == Ok::<(Seq<char>, int), GgufError>(
                (text::utf8_lossy(e.0), p),
            )
            &&& number_at(b, p, 4) == Ok::<(int, int), GgufError>((e.1.code(), p + 4))
            &&& value_at(b, p + 4, e.1.code()) == Ok::<(Value, int), GgufError>(
                (e.1.value(), (before.len() + entry_bytes(e).len()) as int),
            )
        }),
{
    lemma_sizes();
    let b = before + entry_bytes(e) + rest;
    let key = text_bytes(e.0);
    let code = bytes_of(e.1.code(), 4);
    let value = e.1.bytes();
    texts_read_back(before, e.0, code + value + rest);
    assert(b =~= before + key + (code + value + rest));
    numbers_read_back(before + key, e.1.code(), 4, value + rest);
    assert(b =~= (before + key) + code + (value + rest));
    values_read_back(before + key + code, e.1, rest);
    assert(b =~= (before + key + code) + value + rest);
}

/// The key of an entry is one of the tokenizer's.
pub open spec fn of_tokenizer(e: (Seq<u8>, Written)) -> bool {
    text::has_prefix(text::utf8_lossy(e.0), "tokenizer."@)
}

proof fn lemma_entries_step(
    b: Seq<u8>,
    at: int,
    n: int,
    key: Seq<char>,
    p: int,
    ty: int,
    v: Value,
    r: int,
)
    requires
        n > 0,
        string_at(b, at) == Ok::<(Seq<char>, int), GgufError>((key, p)),
        number_at(b, p, 4) == Ok::<(int, int), GgufError>((ty, p + 4)),
        value_at(b, p + 4, ty) == Ok::<(Value, int), GgufError>((v, r)),
    ensures
        text::has_prefix(key, "tokenizer."@) ==> entries_at(b, at, n) == Ok::<
            Seq<(Seq<char>, Value)>,
            GgufError,
        >(Seq::empty()),
        !text::has_prefix(key, "tokenizer."@) ==> (entries_at(b, r, n - 1) matches Ok(more)
            ==> entries_at(b, at, n) == Ok::<Seq<(Seq<char>, Value)>, GgufError>(
            seq![(key, v)] + more,
        )),
{
}

proof fn lemma_join(a: Seq<u8>, b: Seq<u8>, c: Seq<u8>, d: Seq<u8>)
    ensures
        a + (b + c) + d == a + b + (c + d),
        a + (b + c) + d == (a + b) + c + d,
{
    assert(a + (b + c) + d =~= a + b + (c + d));
    assert(a + (b + c) + d =~= (a + b) + c + d);
}

proof fn lemma_entries(
    before: Seq<u8>,
    entries: Seq<(Seq<u8>, Written)>,
    i: int,
    stop: int,
    rest: Seq<u8>,
)
    requires
        0 <= i <= stop <= entries.len(),
        forall|k: int| 0 <= k < entries.len() ==> entry_fits(#[trigger] entries[k]),
        forall|k: int| 0 <= k < stop ==> !of_tokenizer(#[trigger] entries[k]),
        stop < entries.len() ==> of_tokenizer(entries[stop]),
    ensures
        entries_at(
            before + entries_bytes(entries, i) + rest,
            before.len() as int,
            entries.len() - i,
        ) == Ok::<Seq<(Seq<char>, Value)>, GgufError>(
            Seq::new((stop - i) as nat, |k: int| entry_of(entries[i + k])),
        ),
    decreases entries.len() - i,
{
    let b = before + entries_bytes(entries, i) + rest;
    let said = Seq::new((stop - i) as nat, |k: int| entry_of(entries[i + k]));
    if i < entries.len() {
        let e = entries[i];
        let eb = entry_bytes(e);
        let more = entries_bytes(entries, i + 1);
        lemma_join(before, eb, more, rest);
        lemma_entry(before, e, more + rest);
        let p = before.len() as int + 8 + e.0.len();
        let r = before.len() as int + eb.len();
        lemma_entries_step(
            b,
            before.len() as int,
            entries.len() - i,
            text::utf8_lossy(e.0),
            p,
            e.1.code(),
            e.1.value(),
            r,
        );
        if i < stop {
            assert(!of_tokenizer(entries[i]));
            lemma_entries(before + eb, entries, i + 1, stop, rest);
            let later = Seq::new((stop - i - 1) as nat, |k: int| entry_of(entries[i + 1 + k]));
            assert(seq![entry_of(e)] + later =~= said);
            assert(Seq::new((stop - (i + 1)) as nat, |k: int| entry_of(entries[(i + 1) + k]))
                =~= later);
            assert((before + eb).len() == r);
        } else {
            assert(said =~= Seq::empty());
        }
    } else {
        assert(said =~= Seq::empty());
    }
}

/// The entries of a file read as they were written, in their order, up to the first one
/// of the tokenizer.
pub proof fn entries_read_back(
    version: int,
    tensors: int,
    entries: Seq<(Seq<u8>, Written)>,
    stop: int,
    rest: Seq<u8>,
)
    requires
        2 <= version < 0x1_0000_0000,
        0 <= tensors < 0x1_0000_0000_0000_0000,
        entries.len() < 0x1_0000_0000_0000_0000,
        forall|k: int| 0 <= k < entries.len() ==> entry_fits(#[trigger] entries[k]),
        0 <= stop <= entries.len(),
        forall|k: int| 0 <= k < stop ==> !of_tokenizer(#[trigger] entries[k]),
        stop < entries.len() ==> of_tokenizer(entries[stop]),
    ensures
        entries_of(
            start_bytes(version, tensors, entries.len() as int) + entries_bytes(entries, 0) + rest,
        ) == Ok::<Seq<(Seq<char>, Value)>, GgufError>(
            Seq::new(stop as nat, |k: int| entry_of(entries[k])),
        ),
{
    let start = start_bytes(version, tensors, entries.len() as int);
    let body = entries_bytes(entries, 0);
    lemma_start(version, tensors, entries.len() as int, body + rest);
    assert(start + body + rest =~= start + (body + rest));
    lemma_entries(start, entries, 0, stop, rest);
    assert(Seq::new((stop - 0) as nat, |k: int| entry_of(entries[0 + k])) =~= Seq::new(
        stop as nat,
        |k: int| entry_of(entries[k]),
    ));
}

/// What an entry sets the alignment of the data to, if it does.
pub open spec fn aligns(e: (Seq<u8>, Written)) -> Option<u64> {
    if text::utf8_lossy(e.0) == "general.alignment"@ && e.1.value() is U && e.1.value()->U_0 > 0 {
        Some(e.1.value()->U_0)
    } else {
        None
    }
}

/// The alignment that the entries from `i` on leave.
spec fn alignment_left(entries: Seq<(Seq<u8>, Written)>, i: int, so_far: u64) -> u64
    decreases entries.len() - i,
{
    if i >= entries.len() {
        so_far
    } else {
        alignment_left(
            entries,
            i + 1,
            if aligns(entries[i]) is Some {
                aligns(entries[i])->0
            } else {
                so_far
            },
        )
    }
}

proof fn lemma_alignment_left(
    entries: Seq<(Seq<u8>, Written)>,
    i: int,
    so_far: u64,
)
    requires
        0 <= i <= entries.len(),
    ensures
        (forall|k: int| i <= k < entries.len() ==> aligns(#[trigger] entries[k]) is None)
            ==> alignment_left(entries, i, so_far) == so_far,
        forall|j: int|
            i <= j < entries.len() && aligns(#[trigger] entries[j]) is Some && (forall|k: int|
                j < k < entries.len() ==> aligns(#[trigger] entries[k]) is None)
                ==> alignment_left(entries, i, so_far) == aligns(entries[j])->0,
    decreases entries.len() - i,
{
    if i < entries.len() {
        let next = if aligns(entries[i]) is Some {
            aligns(entries[i])->0
        } else {
            so_far
        };
        lemma_alignment_left(entries, i + 1, next);
    }
}

proof fn lemma_alignment_step(
    b: Seq<u8>,
    at: int,
    n: int,
    key: Seq<char>,
    p: int,
    ty: int,
    v: Value,
    r: int,
    so_far: u64,
)
    requires
        n > 0,
        string_at(b, at) == Ok::<(Seq<char>, int), GgufError>((key, p)),
        number_at(b, p, 4) == Ok::<(int, int), GgufError>((ty, p + 4)),
        value_at(b, p + 4, ty) == Ok::<(Value, int), GgufError>((v, r)),
    ensures
        alignment_at(b, at, n, so_far) == alignment_at(
            b,
            r,
            n - 1,
            crate::gguf::alignment_after(so_far, key, v),
        ),
{
}

proof fn lemma_alignment(
    before: Seq<u8>,
    entries: Seq<(Seq<u8>, Written)>,
    i: int,
    rest: Seq<u8>,
    so_far: u64,
)
    requires
        0 <= i <= entries.len(),
        forall|k: int| 0 <= k < entries.len() ==> entry_fits(#[trigger] entries[k]),
    ensures
        alignment_at(
            before + entries_bytes(entries, i) + rest,
            before.len() as int,
            entries.len() - i,
            so_far,
        ) == Ok::<(u64, int), GgufError>(
            (
                alignment_left(entries, i, so_far),
                before.len() as int + entries_bytes(entries, i).len(),
            ),
        ),
    decreases entries.len() - i,
{
    let b = before + entries_bytes(entries, i) + rest;
    if i < entries.len() {
        let e = entries[i];
        let eb = entry_bytes(e);
        let more = entries_bytes(entries, i + 1);
        lemma_join(before, eb, more, rest);
        lemma_entry(before, e, more + rest);
        let next = if aligns(e) is Some {
            aligns(e)->0
        } else {
            so_far
        };
        lemma_alignment_step(
            b,
            before.len() as int,
            entries.len() - i,
            text::utf8_lossy(e.0),
            before.len() as int + 8 + e.0.len(),
            e.1.code(),
            e.1.value(),
            before.len() as int + eb.len(),
            so_far,
        );
        lemma_alignment(before + eb, entries, i + 1, rest, next);
        assert((before + eb).len() == before.len() + eb.len());
        assert((eb + more).len() == eb.len() + more.len());
    }
}

/// A row of the tensor table: the name, the dimensions, the type, and where in the data
/// the tensor starts.
pub struct Row {
    pub name: Seq<u8>,
    pub dims: Seq<u64>,
    pub ty: u32,
    pub offset: u64,
}

/// The dimensions from `i` on.
pub open spec fn dims_bytes(dims: Seq<u64>, i: int) -> Seq<u8>
    decreases dims.len() - i,
{
    if i >= dims.len() {
        Seq::empty()
    } else {
        bytes_of(dims[i] as int, 8) + dims_bytes(dims, i + 1)
    }
}

impl Row {
    pub open spec fn bytes(self) -> Seq<u8> {
        text_bytes(self.name) + bytes_of(self.dims.len() as int, 4) + dims_bytes(self.dims, 0)
            + bytes_of(self.ty as int, 4) + bytes_of(self.offset as int, 8)
    }

    /// The row can be written: a tensor has up to eight dimensions.
    pub open spec fn fits(self) -> bool {
        self.name.len() <= 1_000_000 && self.dims.len() <= 8
    }

    /// What is read of the row.
    pub open spec fn tensor(self) -> (Seq<char>, u64) {
        (text::utf8_lossy(self.name), self.offset)
    }
}

proof fn lemma_dims_len(dims: Seq<u64>, i: int)
    requires
        0 <= i <= dims.len(),
    ensures
        dims_bytes(dims, i).len() == 8 * (dims.len() - i),
    decreases dims.len() - i,
{
    if i < dims.len() {
        lemma_bytes_len(dims[i] as int, 8);
        lemma_dims_len(dims, i + 1);
    }
}

/// A row of the tensor table reads as what was written: the name and where the tensor
/// starts, whatever its dimensions and its type.
pub proof fn tensor_rows_read_back(before: Seq<u8>, row: Row, rest: Seq<u8>)
    requires
        row.fits(),
    ensures
        tensor_at(before + row.bytes() + rest, before.len() as int) == Ok::<
            ((Seq<char>, u64), int),
            GgufError,
        >((row.tensor(), before.len() as int + row.bytes().len())),
{
    lemma_sizes();
    let b = before + row.bytes() + rest;
    let name = text_bytes(row.name);
    let count = bytes_of(row.dims.len() as int, 4);
    let dims = dims_bytes(row.dims, 0);
    let ty = bytes_of(row.ty as int, 4);
    let offset = bytes_of(row.offset as int, 8);
    texts_read_back(before, row.name, count + dims + ty + offset + rest);
    assert(b =~= before + name + (count + dims + ty + offset + rest));
    numbers_read_back(before + name, row.dims.len() as int, 4, dims + ty + offset + rest);
    assert(b =~= (before + name) + count + (dims + ty + offset + rest));
    lemma_dims_len(row.dims, 0);
    lemma_bytes_len(row.ty as int, 4);
    let front = before + name + count + dims + ty;
    numbers_read_back(front, row.offset as int, 8, rest);
    assert(b =~= front + offset + rest);
}

/// The rows from `i` on, one after the other.
pub open spec fn rows_bytes(rows: Seq<Row>, i: int) -> Seq<u8>
    decreases rows.len() - i,
{
    if i >= rows.len() {
        Seq::empty()
    } else {
        rows[i].bytes() + rows_bytes(rows, i + 1)
    }
}

proof fn lemma_tensors_step(
    b: Seq<u8>,
    at: int,
    n: int,
    t: (Seq<char>, u64),
    p: int,
)
    requires
        n > 0,
        tensor_at(b, at) == Ok::<((Seq<char>, u64), int), GgufError>((t, p)),
    ensures
        tensors_at(b, p, n - 1) matches Ok((more, end)) ==> tensors_at(b, at, n) == Ok::<
            (Seq<(Seq<char>, u64)>, int),
            GgufError,
        >((seq![t] + more, end)),
{
}

proof fn lemma_rows(before: Seq<u8>, rows: Seq<Row>, i: int, rest: Seq<u8>)
    requires
        0 <= i <= rows.len(),
        forall|k: int| 0 <= k < rows.len() ==> (#[trigger] rows[k]).fits(),
    ensures
        tensors_at(
            before + rows_bytes(rows, i) + rest,
            before.len() as int,
            rows.len() - i,
        ) == Ok::<(Seq<(Seq<char>, u64)>, int), GgufError>(
            (
                Seq::new((rows.len() - i) as nat, |k: int| rows[i + k].tensor()),
                before.len() as int + rows_bytes(rows, i).len(),
            ),
        ),
    decreases rows.len() - i,
{
    let b = before + rows_bytes(rows, i) + rest;
    let said = Seq::new((rows.len() - i) as nat, |k: int| rows[i + k].tensor());
    if i < rows.len() {
        let rb = rows[i].bytes();
        let more = rows_bytes(rows, i + 1);
        lemma_join(before, rb, more, rest);
        tensor_rows_read_back(before, rows[i], more + rest);
        lemma_tensors_step(
            b,
            before.len() as int,
            rows.len() - i,
            rows[i].tensor(),
            before.len() as int + rb.len(),
        );
        lemma_rows(before + rb, rows, i + 1, rest);
        assert((before + rb).len() == before.len() + rb.len());
        assert((rb + more).len() == rb.len() + more.len());
        assert(seq![rows[i].tensor()] + Seq::new(
            (rows.len() - (i + 1)) as nat,
            |k: int| rows[(i + 1) + k].tensor(),
        ) =~= said);
    } else {
        assert(said =~= Seq::empty());
    }
}

/// The tensor table of a file reads as it was written, behind all the entries. The data
/// are aligned as the last entry on it says, or to 32 bytes.
pub proof fn tensor_tables_read_back(
    version: int,
    entries: Seq<(Seq<u8>, Written)>,
    rows: Seq<Row>,
    rest: Seq<u8>,
)
    requires
        2 <= version < 0x1_0000_0000,
        rows.len() < 0x1_0000_0000_0000_0000,
        entries.len() < 0x1_0000_0000_0000_0000,
        forall|k: int| 0 <= k < entries.len() ==> entry_fits(#[trigger] entries[k]),
        forall|k: int| 0 <= k < rows.len() ==> (#[trigger] rows[k]).fits(),
    ensures
        ({
            let start = start_bytes(version, rows.len() as int, entries.len() as int);
            let head = start + entries_bytes(entries, 0) + rows_bytes(rows, 0);
            let read = table_of(head + rest);
            &&& read is Ok
            &&& read->Ok_0.1 == Seq::new(rows.len(), |k: int| rows[k].tensor())
            &&& read->Ok_0.2 == head.len()
            &&& (forall|k: int| 0 <= k < entries.len() ==> aligns(#[trigger] entries[k]) is None)
                ==> read->Ok_0.0 == 32
            &&& forall|j: int|
                0 <= j < entries.len() && aligns(#[trigger] entries[j]) is Some && (forall|k: int|
                    j < k < entries.len() ==> aligns(#[trigger] entries[k]) is None)
                    ==> read->Ok_0.0 == aligns(entries[j])->0
        }),
{
    let start = start_bytes(version, rows.len() as int, entries.len() as int);
    let eb = entries_bytes(entries, 0);
    let rb = rows_bytes(rows, 0);
    let b = start + eb + rb + rest;
    lemma_start(version, rows.len() as int, entries.len() as int, eb + rb + rest);
    assert(b =~= start + (eb + rb + rest));
    lemma_alignment(start, entries, 0, rb + rest, 32);
    assert(b =~= start + eb + (rb + rest));
    lemma_rows(start + eb, rows, 0, rest);
    lemma_alignment_left(entries, 0, 32);
    assert(Seq::new((rows.len() - 0) as nat, |k: int| rows[0 + k].tensor()) =~= Seq::new(
        rows.len(),
        |k: int| rows[k].tensor(),
    ));
}

/// The data start at the first multiple of the alignment at or behind the header.
pub proof fn data_start_at_the_next_multiple(end: int, alignment: int)
    requires
        0 <= end,
        0 < alignment,
    ensures
        end <= data_start(end, alignment) < end + alignment,
        data_start(end, alignment) % alignment == 0,
{
    let n = end + alignment - 1;
    vstd::arithmetic::div_mod::lemma_fundamental_div_mod(n, alignment);
    vstd::arithmetic::div_mod::lemma_mod_pos_bound(n, alignment);
    let q = n / alignment;
    assert(q * alignment == alignment * q) by (nonlinear_arith);
    vstd::arithmetic::div_mod::lemma_mod_multiples_basic(q, alignment);
}

/// A file that does not start with the mark is none, and one of a version before the
/// second cannot be read; both are told from the first bytes alone.
pub proof fn other_files_are_refused(b: Seq<u8>, version: int, rest: Seq<u8>)
    requires
        0 <= version < 2,
        b.len() >= 4,
        b[0] != 71 || b[1] != 71 || b[2] != 85 || b[3] != 70,
    ensures
        entries_of(b) == Err::<Seq<(Seq<char>, Value)>, GgufError>(GgufError::NotGguf),
        table_of(b) == Err::<(u64, Seq<(Seq<char>, u64)>, int), GgufError>(GgufError::NotGguf),
        entries_of(seq![71u8, 71, 85, 70] + bytes_of(version, 4) + rest) == Err::<
            Seq<(Seq<char>, Value)>,
            GgufError,
        >(GgufError::UnsupportedVersion(version as u32)),
        table_of(seq![71u8, 71, 85, 70] + bytes_of(version, 4) + rest) == Err::<
            (u64, Seq<(Seq<char>, u64)>, int),
            GgufError,
        >(GgufError::UnsupportedVersion(version as u32)),
{
    lemma_sizes();
    let mark = seq![71u8, 71, 85, 70];
    let old_file = mark + bytes_of(version, 4) + rest;
    numbers_read_back(mark, version, 4, rest);
    assert(old_file.take(4) =~= seq![0x47u8, 0x47, 0x55, 0x46]);
    if b.take(4) == seq![0x47u8, 0x47, 0x55, 0x46] {
        let front = b.take(4);
        assert(front[0] == 71 && front[1] == 71 && front[2] == 85 && front[3] == 70);
        assert(b[0] == 71 && b[1] == 71 && b[2] == 85 && b[3] == 70);
    }
}

/// A text of more than a million bytes is refused by its length, a type without a meaning
/// by its code, and a tensor by its number of dimensions where that is more than eight.
pub proof fn what_cannot_be_is_refused(
    before: Seq<u8>,
    n: u64,
    code: u32,
    name: Seq<u8>,
    dims: u32,
    rest: Seq<u8>,
)
    requires
        n > 1_000_000,
        code > 12,
        name.len() <= 1_000_000,
        dims > 8,
    ensures
        string_at(before + bytes_of(n as int, 8) + rest, before.len() as int) == Err::<
            (Seq<char>, int),
            GgufError,
        >(GgufError::StringTooLarge),
        value_at(before, before.len() as int, code as int) == Err::<(Value, int), GgufError>(
            GgufError::UnknownValueType(code),
        ),
        tensor_at(
            before + (text_bytes(name) + bytes_of(dims as int, 4)) + rest,
            before.len() as int,
        ) == Err::<((Seq<char>, u64), int), GgufError>(GgufError::BadDimensionCount),
{
    lemma_sizes();
    numbers_read_back(before, n as int, 8, rest);
    let count = bytes_of(dims as int, 4);
    let b = before + (text_bytes(name) + count) + rest;
    texts_read_back(before, name, count + rest);
    assert(b =~= before + text_bytes(name) + (count + rest));
    numbers_read_back(before + text_bytes(name), dims as int, 4, rest);
    assert(b =~= (before + text_bytes(name)) + count + rest);
}

/// The items of an array from `i` on.
pub open spec fn items_bytes(items: Seq<Written>, i: int) -> Seq<u8>
    decreases items.len() - i,
{
    if i >= items.len() {
        Seq::empty()
    } else {
        items[i].bytes() + items_bytes(items, i + 1)
    }
}

proof fn lemma_values_step(b: Seq<u8>, at: int, ty: int, n: int, v: Value, p: int)
    requires
        n > 0,
        value_at(b, at, ty) == Ok::<(Value, int), GgufError>((v, p)),
        at < p <= b.len(),
    ensures
        crate::gguf::values_end(b, at, ty, n) == crate::gguf::values_end(b, p, ty, n - 1),
{
}

proof fn lemma_value_takes_bytes(v: Written)
    requires
        v.fits(),
    ensures
        v.bytes().len() > 0,
{
    match v {
        Written::Text(s) => lemma_bytes_len(s.len() as int, 8),
        Written::U8(n) => lemma_bytes_len(n as int, 1),
        Written::I8(n) => lemma_bytes_len(pattern(n as int, 0x100), 1),
        Written::U16(n) => lemma_bytes_len(n as int, 2),
        Written::I16(n) => lemma_bytes_len(pattern(n as int, 0x1_0000), 2),
        Written::U32(n) => lemma_bytes_len(n as int, 4),
        Written::I32(n) => lemma_bytes_len(pattern(n as int, 0x1_0000_0000), 4),
        Written::F32(x) => lemma_bytes_len(x.bits as int, 4),
        Written::Bool(b) => lemma_bytes_len(
            if b {
                1
            } else {
                0
            },
            1,
        ),
        Written::U64(n) => lemma_bytes_len(n as int, 8),
        Written::I64(n) => lemma_bytes_len(pattern(n as int, 0x1_0000_0000_0000_0000), 8),
        Written::F64(x) => lemma_bytes_len(x.bits as int, 8),
    }
}

proof fn lemma_items(before: Seq<u8>, items: Seq<Written>, code: int, i: int, rest: Seq<u8>)
    requires
        0 <= i <= items.len(),
        forall|k: int|
            0 <= k < items.len() ==> (#[trigger] items[k]).fits() && items[k].code() == code,
    ensures
        crate::gguf::values_end(
            before + items_bytes(items, i) + rest,
            before.len() as int,
            code,
            items.len() - i,
        ) == Ok::<int, GgufError>(before.len() as int + items_bytes(items, i).len()),
    decreases items.len() - i,
{
    let b = before + items_bytes(items, i) + rest;
    if i < items.len() {
        let ib = items[i].bytes();
        let more = items_bytes(items, i + 1);
        lemma_join(before, ib, more, rest);
        values_read_back(before, items[i], more + rest);
        lemma_value_takes_bytes(items[i]);
        let p = before.len() as int + ib.len();
        assert((before + ib + (more + rest)).len() >= p);
        lemma_values_step(
            b,
            before.len() as int,
            code,
            items.len() - i,
            items[i].value(),
            p,
        );
        lemma_items(before + ib, items, code, i + 1, rest);
        assert((before + ib).len() == before.len() + ib.len());
        assert((ib + more).len() == ib.len() + more.len());
    }
}

/// An array is passed over as a whole: what follows it is read from where it ends.
pub proof fn arrays_are_passed_over(
    before: Seq<u8>,
    items: Seq<Written>,
    code: int,
    rest: Seq<u8>,
)
    requires
        0 <= code < 0x1_0000_0000,
        items.len() < 0x1_0000_0000_0000_0000,
        forall|k: int|
            0 <= k < items.len() ==> (#[trigger] items[k]).fits() && items[k].code() == code,
    ensures
        ({
            let array = bytes_of(code, 4) + bytes_of(items.len() as int, 8) + items_bytes(items, 0);
            value_at(before + array + rest, before.len() as int, 9) == Ok::<
                (Value, int),
                GgufError,
            >((Value::Other, before.len() as int + array.len()))
        }),
{
    lemma_sizes();
    let head = bytes_of(code, 4);
    let count = bytes_of(items.len() as int, 8);
    let body = items_bytes(items, 0);
    let b = before + (head + count + body) + rest;
    numbers_read_back(before, code, 4, count + body + rest);
    assert(b =~= before + head + (count + body + rest));
    numbers_read_back(before + head, items.len() as int, 8, body + rest);
    assert(b =~= (before + head) + count + (body + rest));
    lemma_items(before + head + count, items, code, 0, rest);
    assert(b =~= (before + head + count) + body + rest);
}

} // verus!

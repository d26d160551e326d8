//! The header of a GGUF model file: architecture fields and the tensor table.
//!
//! A header is read from a prefix of the file. A prefix that is too short gives
//! `GgufError::Truncated`; any other outcome is that of the whole file.
use crate::float::{Double, Single};
use crate::micro;
use crate::order;
use crate::path;
use crate::text;
use vstd::prelude::*;

verus! {

/// Why a header could not be read.
#[derive(Clone, Copy, Debug, PartialEq, Eq, Structural)]
pub enum GgufError {
    /// The bytes end before the header does.
    Truncated,
    NotGguf,
    UnsupportedVersion(u32),
    StringTooLarge,
    UnknownValueType(u32),
    BadDimensionCount,
}

impl GgufError {
    pub open spec fn text(self) -> Seq<char> {
        match self {
            GgufError::Truncated => "failed to fill whole buffer"@,
            GgufError::NotGguf => "not a GGUF file"@,
            GgufError::UnsupportedVersion(v) => "unsupported GGUF version "@ + text::decimal(
                v as nat,
            ),
            GgufError::StringTooLarge => "GGUF string too large"@,
            GgufError::UnknownValueType(t) => "unknown GGUF value type "@ + text::decimal(t as nat),
            GgufError::BadDimensionCount => "bad tensor dimension count"@,
        }
    }

    /// The error in words.
    pub fn message(self) -> (r: String)
        ensures
            r@ == self.text(),
    {
        let mut out: Vec<char> = Vec::new();
        match self {
            GgufError::Truncated => text::add_str(&mut out, "failed to fill whole buffer"),
            GgufError::NotGguf => text::add_str(&mut out, "not a GGUF file"),
            GgufError::UnsupportedVersion(v) => {
                text::add_str(&mut out, "unsupported GGUF version ");
                text::add_number(&mut out, v as u64);
            },
            GgufError::StringTooLarge => text::add_str(&mut out, "GGUF string too large"),
            GgufError::UnknownValueType(t) => {
                text::add_str(&mut out, "unknown GGUF value type ");
                text::add_number(&mut out, t as u64);
            },
            GgufError::BadDimensionCount => text::add_str(&mut out, "bad tensor dimension count"),
        }
        let s = text::string_of(&out);
        assert(s@ =~= self.text());
        s
    }
}

/// The longest string that a header may hold, in bytes.
pub const MAX_STRING: u64 = 1_000_000;

/// The most dimensions that a tensor may have.
pub const MAX_DIMS: u32 = 8;

/// One more than the highest block number that is counted.
pub const MAX_BLOCKS: usize = 4096;

/// The `n` bytes from `at` as a little-endian number.
pub open spec fn little(b: Seq<u8>, at: int, n: nat) -> int
    decreases n,
{
    if n == 0 {
        0
    } else {
        b[at] + 256 * little(b, at + 1, (n - 1) as nat)
    }
}

/// A number of `n` bytes at `at`, and where the bytes after it start.
pub open spec fn number_at(b: Seq<u8>, at: int, n: nat) -> Result<(int, int), GgufError> {
    if at + n <= b.len() {
        Ok((little(b, at, n), at + n))
    } else {
        Err(GgufError::Truncated)
    }
}

/// The two's complement reading of one of `size` bit patterns.
pub open spec fn signed(n: int, size: int) -> int {
    if 2 * n < size {
        n
    } else {
        n - size
    }
}

/// A string: its length in eight bytes, then that many bytes of text.
pub open spec fn string_at(b: Seq<u8>, at: int) -> Result<(Seq<char>, int), GgufError> {
    match number_at(b, at, 8) {
        Err(e) => Err(e),
        Ok((n, p)) => if n > MAX_STRING {
            Err(GgufError::StringTooLarge)
        } else if p + n <= b.len() {
            Ok((text::utf8_lossy(b.subrange(p, p + n)), p + n))
        } else {
            Err(GgufError::Truncated)
        },
    }
}

/// A metadata value.
pub enum Value {
    U(u64),
    I(i64),
    F32(Single),
    F64(Double),
    B(bool),
    S(Seq<char>),
    Other,
}

/// How many bytes a value of a fixed-size type takes.
pub open spec fn fixed_size(ty: int) -> Option<nat> {
    if ty == 0 || ty == 1 || ty == 7 {
        Some(1)
    } else if ty == 2 || ty == 3 {
        Some(2)
    } else if 4 <= ty <= 6 {
        Some(4)
    } else if 10 <= ty <= 12 {
        Some(8)
    } else {
        None
    }
}

/// The value of fixed-size type `ty` whose bytes read as `n`.
pub open spec fn fixed_value(ty: int, n: int) -> Value {
    if ty == 0 || ty == 2 || ty == 4 || ty == 10 {
        Value::U(n as u64)
    } else if ty == 1 {
        Value::I(signed(n, 0x100) as i64)
    } else if ty == 3 {
        Value::I(signed(n, 0x1_0000) as i64)
    } else if ty == 5 {
        Value::I(signed(n, 0x1_0000_0000) as i64)
    } else if ty == 11 {
        Value::I(signed(n, 0x1_0000_0000_0000_0000) as i64)
    } else if ty == 6 {
        Value::F32(Single { bits: n as u32 })
    } else if ty == 12 {
        Value::F64(Double { bits: n as u64 })
    } else {
        Value::B(n != 0)
    }
}

/// A value of type `ty` at `at`, and where the bytes after it start.
pub open spec fn value_at(b: Seq<u8>, at: int, ty: int) -> Result<(Value, int), GgufError>
    decreases b.len() - at, 0int,
{
    match fixed_size(ty) {
        Some(size) => match number_at(b, at, size) {
            Ok((n, p)) => Ok((fixed_value(ty, n), p)),
            Err(e) => Err(e),
        },
        None => if ty == 8 {
            match string_at(b, at) {
                Ok((s, p)) => Ok((Value::S(s), p)),
                Err(e) => Err(e),
            }
        } else if ty == 9 {
            match number_at(b, at, 4) {
                Err(e) => Err(e),
                Ok((of, p)) => match number_at(b, p, 8) {
                    Err(e) => Err(e),
                    Ok((n, q)) => match values_end(b, q, of, n) {
                        Err(e) => Err(e),
                        Ok(r) => Ok((Value::Other, r)),
                    },
                },
            }
        } else {
            Err(GgufError::UnknownValueType(ty as u32))
        },
    }
}

/// Where `n` values of type `ty` that start at `at` end. A value takes at least
/// one byte.
pub open spec fn values_end(b: Seq<u8>, at: int, ty: int, n: int) -> Result<int, GgufError>
    decreases b.len() - at, 1int,
{
    if n <= 0 {
        Ok(at)
    } else {
        match value_at(b, at, ty) {
            Ok((_, p)) if at < p <= b.len() => values_end(b, p, ty, n - 1),
            Ok((_, p)) => Err(GgufError::Truncated),
            Err(e) => Err(e),
        }
    }
}

/// A value takes at least one byte, and lies within the bytes.
proof fn lemma_value_ends(b: Seq<u8>, at: int, ty: int)
    ensures
        value_at(b, at, ty) matches Ok((_, p)) ==> at < p <= b.len(),
    decreases b.len() - at, 0int,
{
    if ty == 9 {
        if let Ok((of, p)) = number_at(b, at, 4) {
            if let Ok((n, q)) = number_at(b, p, 8) {
                lemma_values_end(b, q, of, n);
            }
        }
    } else if ty == 8 {
        if let Ok((n, p)) = number_at(b, at, 8) {
            lemma_little_not_negative(b, at, 8);
        }
    }
}

proof fn lemma_values_end(b: Seq<u8>, at: int, ty: int, n: int)
    requires
        at <= b.len(),
    ensures
        values_end(b, at, ty, n) matches Ok(p) ==> at <= p <= b.len(),
    decreases b.len() - at, 1int,
{
    if n > 0 {
        lemma_value_ends(b, at, ty);
        if let Ok((_, p)) = value_at(b, at, ty) {
            lemma_values_end(b, p, ty, n - 1);
        }
    }
}

proof fn lemma_little_not_negative(b: Seq<u8>, at: int, n: nat)
    ensures
        little(b, at, n) >= 0,
    decreases n,
{
    if n > 0 {
        lemma_little_not_negative(b, at + 1, (n - 1) as nat);
    }
}

/// The bytes before `at + n` alone decide the number there.
proof fn lemma_little_prefix(b: Seq<u8>, more: Seq<u8>, at: int, n: nat)
    requires
        0 <= at,
        at + n <= b.len(),
    ensures
        little(b + more, at, n) == little(b, at, n),
    decreases n,
{
    if n > 0 {
        lemma_little_prefix(b, more, at + 1, (n - 1) as nat);
    }
}

fn byte_at(b: &[u8], at: usize) -> (r: Result<u8, GgufError>)
    ensures
        r matches Ok(v) ==> number_at(b@, at as int, 1) == Ok::<(int, int), GgufError>(
            (v as int, at + 1),
        ),
        r matches Err(e) ==> number_at(b@, at as int, 1) == Err::<(int, int), GgufError>(e),
{
    reveal_with_fuel(little, 2);
    if at >= b.len() {
        return Err(GgufError::Truncated);
    }
    Ok(b[at])
}

fn read_u16(b: &[u8], at: usize) -> (r: Result<u16, GgufError>)
    ensures
        r matches Ok(v) ==> number_at(b@, at as int, 2) == Ok::<(int, int), GgufError>(
            (v as int, at + 2),
        ),
        r matches Err(e) ==> number_at(b@, at as int, 2) == Err::<(int, int), GgufError>(e),
{
    reveal_with_fuel(little, 3);
    if b.len() < 2 || at > b.len() - 2 {
        return Err(GgufError::Truncated);
    }
    Ok(b[at] as u16 + 0x100 * (b[at + 1] as u16))
}

fn read_u32(b: &[u8], at: usize) -> (r: Result<u32, GgufError>)
    ensures
        r matches Ok(v) ==> number_at(b@, at as int, 4) == Ok::<(int, int), GgufError>(
            (v as int, at + 4),
        ),
        r matches Err(e) ==> number_at(b@, at as int, 4) == Err::<(int, int), GgufError>(e),
{
    reveal_with_fuel(little, 5);
    if b.len() < 4 || at > b.len() - 4 {
        return Err(GgufError::Truncated);
    }
    Ok(
        b[at] as u32 + 0x100 * (b[at + 1] as u32) + 0x1_0000 * (b[at + 2] as u32) + 0x100_0000 * (
        b[at + 3] as u32),
    )
}

fn read_u64(b: &[u8], at: usize) -> (r: Result<u64, GgufError>)
    ensures
        r matches Ok(v) ==> number_at(b@, at as int, 8) == Ok::<(int, int), GgufError>(
            (v as int, at + 8),
        ),
        r matches Err(e) ==> number_at(b@, at as int, 8) == Err::<(int, int), GgufError>(e),
        r is Ok ==> at + 8 <= b.len(),
{
    reveal_with_fuel(little, 9);
    if b.len() < 8 || at > b.len() - 8 {
        return Err(GgufError::Truncated);
    }
    Ok(
        b[at] as u64 + 0x100 * (b[at + 1] as u64) + 0x1_0000 * (b[at + 2] as u64) + 0x100_0000 * (
        b[at + 3] as u64) + 0x1_0000_0000 * (b[at + 4] as u64) + 0x100_0000_0000 * (
        b[at + 5] as u64) + 0x1_0000_0000_0000 * (b[at + 6] as u64) + 0x100_0000_0000_0000 * (
        b[at + 7] as u64),
    )
}

/// Reads a string and gives the position after it.
fn read_string(b: &[u8], at: usize) -> (r: Result<(String, usize), GgufError>)
    ensures
        r matches Ok((s, p)) ==> string_at(b@, at as int) == Ok::<(Seq<char>, int), GgufError>(
            (s@, p as int),
        ),
        r matches Err(e) ==> string_at(b@, at as int) == Err::<(Seq<char>, int), GgufError>(e),
        r matches Ok((s, p)) ==> at < p <= b.len(),
{
    let n = match read_u64(b, at) {
        Ok(n) => n,
        Err(e) => return Err(e),
    };
    if n > MAX_STRING {
        return Err(GgufError::StringTooLarge);
    }
    let from: usize = at + 8;
    let n: usize = n as usize;
    if n > b.len() - from {
        return Err(GgufError::Truncated);
    }
    let bytes = vstd::slice::slice_subrange(b, from, from + n);
    Ok((text::from_utf8_lossy(bytes), from + n))
}

/// A metadata value as it was read.
#[derive(Clone, Debug)]
pub enum Val {
    U(u64),
    I(i64),
    F32(Single),
    F64(Double),
    B(bool),
    S(String),
    Other,
}

impl View for Val {
    type V = Value;

    open spec fn view(&self) -> Value {
        match *self {
            Val::U(n) => Value::U(n),
            Val::I(n) => Value::I(n),
            Val::F32(x) => Value::F32(x),
            Val::F64(x) => Value::F64(x),
            Val::B(x) => Value::B(x),
            Val::S(s) => Value::S(s@),
            Val::Other => Value::Other,
        }
    }
}

/// Reads a value of type `ty` and gives the position after it.
fn read_value(b: &[u8], at: usize, ty: u32) -> (r: Result<(Val, usize), GgufError>)
    ensures
        r matches Ok((v, p)) ==> value_at(b@, at as int, ty as int) == Ok::<
            (Value, int),
            GgufError,
        >((v@, p as int)),
        r matches Err(e) ==> value_at(b@, at as int, ty as int) == Err::<(Value, int), GgufError>(e),
        r matches Ok((v, p)) ==> at < p <= b.len(),
    decreases b.len() - at, 1int,
{
    if ty == 0 || ty == 1 || ty == 7 {
        let n = match byte_at(b, at) {
            Ok(n) => n,
            Err(e) => return Err(e),
        };
        let v = if ty == 0 {
            Val::U(n as u64)
        } else if ty == 1 {
            Val::I(if n < 0x80 {
                n as i64
            } else {
                n as i64 - 0x100
            })
        } else {
            Val::B(n != 0)
        };
        Ok((v, at + 1))
    } else if ty == 2 || ty == 3 {
        let n = match read_u16(b, at) {
            Ok(n) => n,
            Err(e) => return Err(e),
        };
        let v = if ty == 2 {
            Val::U(n as u64)
        } else {
            Val::I(if n < 0x8000 {
                n as i64
            } else {
                n as i64 - 0x1_0000
            })
        };
        Ok((v, at + 2))
    } else if ty == 4 || ty == 5 || ty == 6 {
        let n = match read_u32(b, at) {
            Ok(n) => n,
            Err(e) => return Err(e),
        };
        let v = if ty == 4 {
            Val::U(n as u64)
        } else if ty == 5 {
            Val::I(if n < 0x8000_0000 {
                n as i64
            } else {
                n as i64 - 0x1_0000_0000
            })
        } else {
            Val::F32(Single { bits: n })
        };
        Ok((v, at + 4))
    } else if ty == 8 {
        match read_string(b, at) {
            Ok((s, p)) => Ok((Val::S(s), p)),
            Err(e) => Err(e),
        }
    } else if ty == 9 {
        match skip_array(b, at) {
            Ok(p) => Ok((Val::Other, p)),
            Err(e) => Err(e),
        }
    } else if ty == 10 || ty == 11 || ty == 12 {
        let n = match read_u64(b, at) {
            Ok(n) => n,
            Err(e) => return Err(e),
        };
        let v = if ty == 10 {
            Val::U(n)
        } else if ty == 11 {
            Val::I(if n < 0x8000_0000_0000_0000 {
                n as i64
            } else {
                -((u64::MAX - n) as i64) - 1
            })
        } else {
            Val::F64(Double { bits: n })
        };
        Ok((v, at + 8))
    } else {
        Err(GgufError::UnknownValueType(ty))
    }
}

/// Walks over the values of an array and gives the position after them.
fn skip_array(b: &[u8], at: usize) -> (r: Result<usize, GgufError>)
    ensures
        r matches Ok(p) ==> value_at(b@, at as int, 9) == Ok::<(Value, int), GgufError>(
            (Value::Other, p as int),
        ),
        r matches Err(e) ==> value_at(b@, at as int, 9) == Err::<(Value, int), GgufError>(e),
        r matches Ok(p) ==> at < p <= b.len(),
    decreases b.len() - at, 0int,
{
    let of = match read_u32(b, at) {
        Ok(of) => of,
        Err(e) => return Err(e),
    };
    let n = match read_u64(b, at + 4) {
        Ok(n) => n,
        Err(e) => return Err(e),
    };
    let start: usize = at + 12;
    let mut p: usize = start;
    let mut left: u64 = n;
    while left > 0
        invariant
            at + 12 == start,
            start <= p <= b.len(),
            values_end(b@, p as int, of as int, left as int) == values_end(
                b@,
                start as int,
                of as int,
                n as int,
            ),
            value_at(b@, at as int, 9) == (match values_end(
                b@,
                start as int,
                of as int,
                n as int,
            ) {
                Err(e) => Err::<(Value, int), GgufError>(e),
                Ok(r) => Ok((Value::Other, r)),
            }),
        decreases left,
    {
        match read_value(b, p, of) {
            Ok((_, q)) => {
                p = q;
                left -= 1;
            },
            Err(e) => return Err(e),
        }
    }
    Ok(p)
}

/// The start of a header: the number of tensors, the number of metadata entries,
/// and where the entries start.
pub open spec fn start_of(b: Seq<u8>) -> Result<(int, int, int), GgufError> {
    if b.len() < 4 {
        Err(GgufError::Truncated)
    } else if b.take(4) != seq![0x47u8, 0x47, 0x55, 0x46] {
        Err(GgufError::NotGguf)
    } else {
        match number_at(b, 4, 4) {
            Err(e) => Err(e),
            Ok((version, _)) => if version < 2 {
                Err(GgufError::UnsupportedVersion(version as u32))
            } else {
                match number_at(b, 8, 8) {
                    Err(e) => Err(e),
                    Ok((tensors, _)) => match number_at(b, 16, 8) {
                        Err(e) => Err(e),
                        Ok((entries, p)) => Ok((tensors, entries, p)),
                    },
                }
            },
        }
    }
}

/// The `n` metadata entries from `at` on, as far as the first one of the
/// tokenizer.
pub open spec fn entries_at(b: Seq<u8>, at: int, n: int) -> Result<
    Seq<(Seq<char>, Value)>,
    GgufError,
>
    decreases n,
{
    if n <= 0 {
        Ok(Seq::empty())
    } else {
        match string_at(b, at) {
            Err(e) => Err(e),
            Ok((key, p)) => match number_at(b, p, 4) {
                Err(e) => Err(e),
                Ok((ty, q)) => if text::has_prefix(key, "tokenizer."@) {
                    Ok(Seq::empty())
                } else {
                    match value_at(b, q, ty) {
                        Err(e) => Err(e),
                        Ok((v, r)) => match entries_at(b, r, n - 1) {
                            Err(e) => Err(e),
                            Ok(rest) => Ok(seq![(key, v)] + rest),
                        },
                    }
                },
            },
        }
    }
}

/// The metadata entries of a header before those of the tokenizer.
pub open spec fn entries_of(b: Seq<u8>) -> Result<Seq<(Seq<char>, Value)>, GgufError> {
    match start_of(b) {
        Err(e) => Err(e),
        Ok((_, n, p)) => entries_at(b, p, n),
    }
}

/// The value of the first entry with that key.
pub open spec fn first_value(entries: Seq<(Seq<char>, Value)>, key: Seq<char>) -> Option<Value>
    decreases entries.len(),
{
    if entries.len() == 0 {
        None
    } else if entries[0].0 == key {
        Some(entries[0].1)
    } else {
        first_value(entries.drop_first(), key)
    }
}

/// The text under a key, where its first value is a text.
pub open spec fn text_under(entries: Seq<(Seq<char>, Value)>, key: Seq<char>) -> Option<Seq<char>> {
    match first_value(entries, key) {
        Some(Value::S(s)) => Some(s),
        _ => None,
    }
}

/// The largest `usize` that is no larger than `n`.
pub open spec fn at_most_usize(n: int) -> usize {
    if n > usize::MAX {
        usize::MAX
    } else {
        n as usize
    }
}

/// The count under a key, where its first value is a number that is not negative.
pub open spec fn count_under(entries: Seq<(Seq<char>, Value)>, key: Seq<char>) -> Option<usize> {
    match first_value(entries, key) {
        Some(Value::U(n)) => Some(n as usize),
        Some(Value::I(n)) => if n >= 0 {
            Some(n as usize)
        } else {
            None
        },
        Some(Value::F32(x)) => if x.at_least(Single { bits: 0 }) {
            Some(at_most_usize(x.whole()))
        } else {
            None
        },
        Some(Value::F64(x)) => if x.not_negative() {
            Some(at_most_usize(x.whole()))
        } else {
            None
        },
        _ => None,
    }
}

pub open spec fn or_zero(n: Option<usize>) -> usize {
    match n {
        Some(n) => n,
        None => 0,
    }
}

pub open spec fn architecture_in(entries: Seq<(Seq<char>, Value)>) -> Seq<char> {
    match text_under(entries, "general.architecture"@) {
        Some(s) => s,
        None => Seq::empty(),
    }
}

/// The key of an architecture's own field.
pub open spec fn arch_key(entries: Seq<(Seq<char>, Value)>, field: Seq<char>) -> Seq<char> {
    let arch = architecture_in(entries);
    if arch.len() == 0 {
        field
    } else {
        arch + "."@ + field
    }
}

/// The count in one of the architecture's own fields, if it is there.
pub open spec fn field_in(entries: Seq<(Seq<char>, Value)>, field: Seq<char>) -> Option<usize> {
    count_under(entries, arch_key(entries, field))
}

/// A model's name: its own, else its base name, else that of the file.
pub open spec fn name_in(entries: Seq<(Seq<char>, Value)>, path: Seq<char>) -> Seq<char> {
    match text_under(entries, "general.name"@) {
        Some(s) => s,
        None => match text_under(entries, "general.basename"@) {
            Some(s) => s,
            None => match path::file_stem(path) {
                Some(s) => s,
                None => Seq::empty(),
            },
        },
    }
}

/// Architecture fields from a GGUF header (no tensors loaded).
#[derive(Clone, Debug)]
pub struct GgufInfo {
    pub name: String,
    pub architecture: String,
    pub n_layers: usize,
    pub n_heads: usize,
    pub n_kv_heads: usize,
    pub n_experts: usize,
    pub n_experts_used: usize,
    pub ctx_train: usize,
    pub n_embd: usize,
    /// llama.cpp `nextn_predict_layers` (MTP draft depth). 0 if not MTP.
    pub n_mtp: usize,
}

impl Default for GgufInfo {
    fn default() -> (r: GgufInfo)
        ensures
            r.name@ == Seq::<char>::empty(),
            r.architecture@ == Seq::<char>::empty(),
            r.n_layers == 0,
            r.n_heads == 0,
            r.n_kv_heads == 0,
            r.n_experts == 0,
            r.n_experts_used == 0,
            r.ctx_train == 0,
            r.n_embd == 0,
            r.n_mtp == 0,
    {
        GgufInfo {
            name: String::new(),
            architecture: String::new(),
            n_layers: 0,
            n_heads: 0,
            n_kv_heads: 0,
            n_experts: 0,
            n_experts_used: 0,
            ctx_train: 0,
            n_embd: 0,
            n_mtp: 0,
        }
    }
}

impl GgufInfo {
    /// The fields are those that the entries of the file at `path` give.
    pub open spec fn describes(self, entries: Seq<(Seq<char>, Value)>, path: Seq<char>) -> bool {
        &&& self.name@ == name_in(entries, path)
        &&& self.architecture@ == architecture_in(entries)
        &&& self.n_layers == (match field_in(entries, "block_count"@) {
            Some(n) => n,
            None => or_zero(count_under(entries, "llama.block_count"@)),
        })
        &&& self.n_heads == or_zero(field_in(entries, "attention.head_count"@))
        &&& self.n_kv_heads == (match field_in(entries, "attention.head_count_kv"@) {
            Some(n) => n,
            None => self.n_heads,
        })
        &&& self.n_experts == or_zero(field_in(entries, "expert_count"@))
        &&& self.n_experts_used == or_zero(field_in(entries, "expert_used_count"@))
        &&& self.ctx_train == or_zero(field_in(entries, "context_length"@))
        &&& self.n_embd == or_zero(field_in(entries, "embedding_length"@))
        &&& self.n_mtp == or_zero(field_in(entries, "nextn_predict_layers"@))
    }

    pub fn is_moe(&self) -> (r: bool)
        ensures
            r == (self.n_experts > 1),
    {
        self.n_experts > 1
    }
}

/// The entries as the model of them.
pub open spec fn entries_view(map: Seq<(String, Val)>) -> Seq<(Seq<char>, Value)> {
    Seq::new(map.len(), |i: int| (map[i].0@, map[i].1@))
}

/// The position of the first entry with that key.
fn find_key(map: &Vec<(String, Val)>, key: &str) -> (r: Option<usize>)
    ensures
        r is Some <==> first_value(entries_view(map@), key@) is Some,
        r matches Some(i) ==> i < map.len() && first_value(entries_view(map@), key@) == Some(
            map@[i as int].1@,
        ),
{
    let ghost all = entries_view(map@);
    let mut i: usize = 0;
    assert(all.skip(0) =~= all);
    while i < map.len()
        invariant
            i <= map.len(),
            all == entries_view(map@),
            first_value(all.skip(i as int), key@) == first_value(all, key@),
        decreases map.len() - i,
    {
        assert(all.skip(i as int)[0] == all[i as int]);
        if text::same_str(map[i].0.as_str(), key) {
            return Some(i);
        }
        assert(all.skip(i as int).drop_first() =~= all.skip(i + 1));
        i += 1;
    }
    None
}

fn kv_str(map: &Vec<(String, Val)>, key: &str) -> (r: Option<String>)
    ensures
        r is Some <==> text_under(entries_view(map@), key@) is Some,
        r matches Some(s) ==> text_under(entries_view(map@), key@) == Some(s@),
{
    match find_key(map, key) {
        None => None,
        Some(i) => match &map[i].1 {
            Val::S(s) => Some(s.clone()),
            _ => None,
        },
    }
}

fn saturating_usize(n: u64) -> (r: usize)
    ensures
        r == at_most_usize(n as int),
{
    if n > usize::MAX as u64 {
        usize::MAX
    } else {
        n as usize
    }
}

fn kv_usize(map: &Vec<(String, Val)>, key: &[char]) -> (r: Option<usize>)
    ensures
        r == count_under(entries_view(map@), key@),
{
    let key = text::string_of(key);
    match find_key(map, key.as_str()) {
        None => None,
        Some(i) => match &map[i].1 {
            Val::U(n) => Some(*n as usize),
            Val::I(n) => if *n >= 0 {
                Some(*n as usize)
            } else {
                None
            },
            Val::F32(x) => if x.ge(Single::zero()) {
                Some(saturating_usize(x.to_whole()))
            } else {
                None
            },
            Val::F64(x) => if x.is_not_negative() {
                Some(saturating_usize(x.to_whole()))
            } else {
                None
            },
            _ => None,
        },
    }
}

/// The count in one of the architecture's own fields.
fn field(map: &Vec<(String, Val)>, architecture: &String, name: &str) -> (r: Option<usize>)
    requires
        architecture@ == architecture_in(entries_view(map@)),
    ensures
        r == field_in(entries_view(map@), name@),
{
    let mut key = text::chars_of(architecture.as_str());
    if key.len() > 0 {
        text::add_str(&mut key, ".");
    }
    text::add_str(&mut key, name);
    assert(key@ =~= arch_key(entries_view(map@), name@));
    kv_usize(map, &key)
}

/// Reads the start of a header.
fn read_start(b: &[u8]) -> (r: Result<(u64, u64), GgufError>)
    ensures
        r matches Ok((t, n)) ==> start_of(b@) == Ok::<(int, int, int), GgufError>(
            (t as int, n as int, 24),
        ) && b.len() >= 24,
        r matches Err(e) ==> start_of(b@) == Err::<(int, int, int), GgufError>(e),
{
    if b.len() < 4 {
        return Err(GgufError::Truncated);
    }
    let ghost magic = seq![0x47u8, 0x47, 0x55, 0x46];
    if !(b[0] == 0x47 && b[1] == 0x47 && b[2] == 0x55 && b[3] == 0x46) {
        proof {
            assert(magic[0] == 0x47 && magic[1] == 0x47 && magic[2] == 0x55 && magic[3] == 0x46);
            if b@.take(4) == magic {
                assert(b@[0] == magic[0] && b@[1] == magic[1] && b@[2] == magic[2] && b@[3]
                    == magic[3]) by {
                    assert(b@.take(4)[0] == b@[0] && b@.take(4)[1] == b@[1] && b@.take(4)[2]
                        == b@[2] && b@.take(4)[3] == b@[3]);
                }
            }
        }
        return Err(GgufError::NotGguf);
    }
    assert(b@.take(4) =~= magic);
    let version = match read_u32(b, 4) {
        Ok(v) => v,
        Err(e) => return Err(e),
    };
    if version < 2 {
        return Err(GgufError::UnsupportedVersion(version));
    }
    let tensors = match read_u64(b, 8) {
        Ok(n) => n,
        Err(e) => return Err(e),
    };
    let entries = match read_u64(b, 16) {
        Ok(n) => n,
        Err(e) => return Err(e),
    };
    Ok((tensors, entries))
}

/// What reading goes on to give once `done` has been read.
pub open spec fn after<T>(done: Seq<T>, rest: Result<Seq<T>, GgufError>) -> Result<
    Seq<T>,
    GgufError,
> {
    match rest {
        Ok(s) => Ok(done + s),
        Err(e) => Err(e),
    }
}

/// Reads the metadata entries before those of the tokenizer.
fn read_entries(b: &[u8]) -> (r: Result<Vec<(String, Val)>, GgufError>)
    ensures
        r matches Ok(map) ==> entries_of(b@) == Ok::<Seq<(Seq<char>, Value)>, GgufError>(
            entries_view(map@),
        ),
        r matches Err(e) ==> entries_of(b@) == Err::<Seq<(Seq<char>, Value)>, GgufError>(e),
{
    let n = match read_start(b) {
        Ok((_, n)) => n,
        Err(e) => return Err(e),
    };
    let mut map: Vec<(String, Val)> = Vec::new();
    let mut at: usize = 24;
    let mut left: u64 = n;
    proof {
        if let Ok(s) = entries_of(b@) {
            assert(entries_view(map@) + s =~= s);
        }
    }
    while left > 0
        invariant
            at <= b.len(),
            after(entries_view(map@), entries_at(b@, at as int, left as int)) == entries_of(b@),
        decreases left,
    {
        let ghost before = entries_view(map@);
        let ghost rest = entries_at(b@, at as int, left as int);
        let (key, p) = match read_string(b, at) {
            Ok(x) => x,
            Err(e) => return Err(e),
        };
        let ty = match read_u32(b, p) {
            Ok(ty) => ty,
            Err(e) => return Err(e),
        };
        // Tokenizer tables are huge; architecture keys come first.
        if text::starts_with(&text::chars_of(key.as_str()), "tokenizer.") {
            assert(before + Seq::<(Seq<char>, Value)>::empty() =~= before);
            return Ok(map);
        }
        match read_value(b, p + 4, ty) {
            Ok((v, q)) => {
                let ghost entry = (key@, v@);
                map.push((key, v));
                at = q;
                left -= 1;
                proof {
                    assert(entries_view(map@) =~= before.push(entry));
                    if let Ok(s) = entries_at(b@, at as int, left as int) {
                        assert(before + (seq![entry] + s) =~= before.push(entry) + s);
                    }
                }
            },
            Err(e) => return Err(e),
        }
    }
    proof {
        assert(entries_view(map@) + Seq::<(Seq<char>, Value)>::empty() =~= entries_view(map@));
    }
    Ok(map)
}

/// Reads the architecture fields from the bytes of a header; `path` names the
/// file, for want of a name inside it.
pub fn read_info(b: &[u8], path: &str) -> (r: Result<GgufInfo, GgufError>)
    ensures
        r matches Ok(info) ==> entries_of(b@) is Ok && info.describes(entries_of(b@)->Ok_0, path@),
        r matches Err(e) ==> entries_of(b@) == Err::<Seq<(Seq<char>, Value)>, GgufError>(e),
{
    let map = match read_entries(b) {
        Ok(map) => map,
        Err(e) => return Err(e),
    };
    let architecture = match kv_str(&map, "general.architecture") {
        Some(s) => s,
        None => {
            let s = String::new();
            assert(s@ =~= Seq::<char>::empty());
            s
        },
    };
    let n_layers: usize = match field(&map, &architecture, "block_count") {
        Some(n) => n,
        None => match kv_usize(&map, &text::chars_of("llama.block_count")) {
            Some(n) => n,
            None => 0,
        },
    };
    let n_heads: usize = field(&map, &architecture, "attention.head_count").unwrap_or(0);
    let n_kv_heads: usize = field(&map, &architecture, "attention.head_count_kv").unwrap_or(
        n_heads,
    );
    let n_experts: usize = field(&map, &architecture, "expert_count").unwrap_or(0);
    let n_experts_used: usize = field(&map, &architecture, "expert_used_count").unwrap_or(0);
    let ctx_train: usize = field(&map, &architecture, "context_length").unwrap_or(0);
    let n_embd: usize = field(&map, &architecture, "embedding_length").unwrap_or(0);
    let n_mtp: usize = field(&map, &architecture, "nextn_predict_layers").unwrap_or(0);
    let name = match kv_str(&map, "general.name") {
        Some(s) => s,
        None => match kv_str(&map, "general.basename") {
            Some(s) => s,
            None => match path::file_stem_of(&text::chars_of(path)) {
                Some(s) => text::string_of(&s),
                None => {
                    let s = String::new();
                    assert(s@ =~= Seq::<char>::empty());
                    s
                },
            },
        },
    };
    Ok(
        GgufInfo {
            name,
            architecture,
            n_layers,
            n_heads,
            n_kv_heads,
            n_experts,
            n_experts_used,
            ctx_train,
            n_embd,
            n_mtp,
        },
    )
}

/// Where the bytes of a GGUF live: total, expert (MoE) tensors, the token
/// embedding table, and per-block totals. Sizes come from the gap between
/// consecutive tensor offsets, so no quantisation type table is needed.
#[derive(Clone, Debug)]
pub struct TensorSummary {
    pub total_bytes: u64,
    /// `ffn_*_exps` tensors: only `n_experts_used / n_experts` of these are
    /// touched per token.
    pub expert_bytes: u64,
    /// `token_embd`: a row lookup, not a matmul, so it is not streamed per token.
    pub embd_bytes: u64,
    /// Bytes per transformer block (`blk.N.*`), indexed by N.
    pub block_bytes: Vec<u64>,
    pub n_tensors: usize,
}

impl Default for TensorSummary {
    fn default() -> (r: TensorSummary)
        ensures
            r.total_bytes == 0,
            r.expert_bytes == 0,
            r.embd_bytes == 0,
            r.block_bytes@ == Seq::<u64>::empty(),
            r.n_tensors == 0,
    {
        TensorSummary {
            total_bytes: 0,
            expert_bytes: 0,
            embd_bytes: 0,
            block_bytes: Vec::new(),
            n_tensors: 0,
        }
    }
}

/// `a - b`, or nothing where `b` is more.
pub open spec fn monus(a: int, b: int) -> int {
    if a > b {
        a - b
    } else {
        0
    }
}

/// The part of `bytes` of expert weights that one token is routed through.
pub open spec fn routed_bytes(bytes: int, n_experts: int, n_experts_used: int) -> int {
    if 0 < n_experts_used < n_experts {
        bytes * n_experts_used / n_experts
    } else {
        bytes
    }
}

impl TensorSummary {
    /// Everything but the experts and the embedding table.
    pub open spec fn dense_bytes(self) -> int {
        monus(monus(self.total_bytes as int, self.expert_bytes as int), self.embd_bytes as int)
    }

    /// The weight bytes that one token reads.
    pub open spec fn active_bytes(self, n_experts: int, n_experts_used: int) -> int {
        self.dense_bytes() + routed_bytes(self.expert_bytes as int, n_experts, n_experts_used)
    }

    /// Weight bytes read to produce one token (or one verification step of a
    /// speculative decoder): everything except the embedding lookup, with the
    /// expert tensors scaled by the routed fraction, rounded down.
    pub fn active_bytes_per_token(&self, n_experts: usize, n_experts_used: usize) -> (r: u64)
        ensures
            r == self.active_bytes(n_experts as int, n_experts_used as int),
    {
        let dense: u64 = self.total_bytes.saturating_sub(self.expert_bytes).saturating_sub(
            self.embd_bytes,
        );
        let experts: u64 = if n_experts > 0 && n_experts_used > 0 && n_experts_used < n_experts {
            let product: u128 = {
                proof {
                    lemma_product_fits(self.expert_bytes as int, n_experts_used as int);
                }
                (self.expert_bytes as u128) * (n_experts_used as u128)
            };
            proof {
                lemma_part(self.expert_bytes as int, n_experts_used as int, n_experts as int);
            }
            (product / (n_experts as u128)) as u64
        } else {
            self.expert_bytes
        };
        dense + experts
    }
}

proof fn lemma_product_fits(a: int, b: int)
    by (nonlinear_arith)
    requires
        0 <= a <= u64::MAX,
        0 <= b <= u64::MAX,
    ensures
        0 <= a * b <= u64::MAX * u64::MAX,
{
}

/// The part `k / n` of `a`, rounded down, is no more than `a`.
proof fn lemma_part(a: int, k: int, n: int)
    requires
        0 <= a,
        0 <= k <= n,
        0 < n,
    ensures
        0 <= a * k / n <= a,
{
    assert(0 <= a * k <= a * n) by (nonlinear_arith)
        requires
            0 <= a,
            0 <= k <= n,
    ;
    vstd::arithmetic::div_mod::lemma_div_is_ordered(0, a * k, n);
    vstd::arithmetic::div_mod::lemma_div_is_ordered(a * k, a * n, n);
    vstd::arithmetic::div_mod::lemma_div_by_multiple(a, n);
}

/// No token reads more than there is: with the experts counted in the total, the
/// active bytes are between the dense bytes and the total.
pub proof fn active_bytes_are_bounded(s: TensorSummary, n_experts: int, n_experts_used: int)
    requires
        s.expert_bytes <= s.total_bytes,
        0 <= n_experts,
        0 <= n_experts_used,
    ensures
        s.dense_bytes() <= s.active_bytes(n_experts, n_experts_used) <= s.total_bytes,
{
    if 0 < n_experts_used < n_experts {
        lemma_part(s.expert_bytes as int, n_experts_used, n_experts);
    }
}

/// Routing through more experts reads no fewer bytes.
pub proof fn more_experts_read_more(s: TensorSummary, n_experts: int, few: int, many: int)
    requires
        0 < few <= many,
    ensures
        s.active_bytes(n_experts, few) <= s.active_bytes(n_experts, many),
{
    let b = s.expert_bytes as int;
    if few < n_experts {
        if many < n_experts {
            assert(b * few <= b * many) by (nonlinear_arith)
                requires
                    0 <= b,
                    few <= many,
            ;
            vstd::arithmetic::div_mod::lemma_div_is_ordered(b * few, b * many, n_experts);
        } else {
            lemma_part(b, few, n_experts);
        }
    }
}

/// The alignment that `n` entries from `at` on leave, and where they end: that of
/// the last `general.alignment` that is a positive unsigned number.
pub open spec fn alignment_at(b: Seq<u8>, at: int, n: int, so_far: u64) -> Result<
    (u64, int),
    GgufError,
>
    decreases n,
{
    if n <= 0 {
        Ok((so_far, at))
    } else {
        match string_at(b, at) {
            Err(e) => Err(e),
            Ok((key, p)) => match number_at(b, p, 4) {
                Err(e) => Err(e),
                Ok((ty, q)) => match value_at(b, q, ty) {
                    Err(e) => Err(e),
                    Ok((v, r)) => alignment_at(b, r, n - 1, alignment_after(so_far, key, v)),
                },
            },
        }
    }
}

pub open spec fn alignment_after(so_far: u64, key: Seq<char>, v: Value) -> u64 {
    match v {
        Value::U(a) => if key == "general.alignment"@ && a > 0 {
            a
        } else {
            so_far
        },
        _ => so_far,
    }
}

/// One row of the tensor table: the tensor's name and its offset in the data.
pub open spec fn tensor_at(b: Seq<u8>, at: int) -> Result<((Seq<char>, u64), int), GgufError> {
    match string_at(b, at) {
        Err(e) => Err(e),
        Ok((name, p)) => match number_at(b, p, 4) {
            Err(e) => Err(e),
            Ok((dims, q)) => if dims > MAX_DIMS {
                Err(GgufError::BadDimensionCount)
            } else {
                match number_at(b, q + 8 * dims + 4, 8) {
                    Err(e) => Err(e),
                    Ok((offset, r)) => Ok(((name, offset as u64), r)),
                }
            },
        },
    }
}

/// The `n` rows of the tensor table from `at` on, and where they end.
pub open spec fn tensors_at(b: Seq<u8>, at: int, n: int) -> Result<
    (Seq<(Seq<char>, u64)>, int),
    GgufError,
>
    decreases n,
{
    if n <= 0 {
        Ok((Seq::empty(), at))
    } else {
        match tensor_at(b, at) {
            Err(e) => Err(e),
            Ok((t, p)) => match tensors_at(b, p, n - 1) {
                Err(e) => Err(e),
                Ok((rest, end)) => Ok((seq![t] + rest, end)),
            },
        }
    }
}

/// The alignment of the data, the tensor table, and where the header ends.
pub open spec fn table_of(b: Seq<u8>) -> Result<(u64, Seq<(Seq<char>, u64)>, int), GgufError> {
    match start_of(b) {
        Err(e) => Err(e),
        Ok((n_tensors, n_entries, p)) => match alignment_at(b, p, n_entries, 32) {
            Err(e) => Err(e),
            Ok((alignment, q)) => match tensors_at(b, q, n_tensors) {
                Err(e) => Err(e),
                Ok((tensors, end)) => Ok((alignment, tensors, end)),
            },
        },
    }
}

/// Where the data start: at the next multiple of the alignment.
pub open spec fn data_start(end: int, alignment: int) -> int {
    (end + alignment - 1) / alignment * alignment
}

/// `t` put behind every tensor of the list whose offset is no larger.
pub open spec fn placed(list: Seq<(Seq<char>, u64)>, t: (Seq<char>, u64)) -> Seq<(Seq<char>, u64)>
    decreases list.len(),
{
    if list.len() == 0 || list.last().1 <= t.1 {
        list.push(t)
    } else {
        placed(list.drop_last(), t).push(list.last())
    }
}

/// The tensors by offset; those with equal offsets keep their order.
pub open spec fn by_offset(list: Seq<(Seq<char>, u64)>) -> Seq<(Seq<char>, u64)>
    decreases list.len(),
{
    if list.len() == 0 {
        list
    } else {
        placed(by_offset(list.drop_last()), list.last())
    }
}

pub open spec fn offsets_ascend(list: Seq<(Seq<char>, u64)>) -> bool {
    forall|i: int, j: int| 0 <= i <= j < list.len() ==> list[i].1 <= list[j].1
}

/// The size of tensor `i`: up to the offset of the next one, or to the end of the
/// data for the last.
pub open spec fn size_of(list: Seq<(Seq<char>, u64)>, data_len: int, i: int) -> int {
    let next = if i + 1 < list.len() {
        list[i + 1].1 as int
    } else {
        data_len
    };
    monus(next, list[i].1 as int)
}

/// The bytes of those of the first `k` tensors whose names satisfy `keep`.
pub open spec fn bytes_where(
    list: Seq<(Seq<char>, u64)>,
    data_len: int,
    keep: spec_fn(Seq<char>) -> bool,
    k: int,
) -> int
    decreases k,
{
    if k <= 0 {
        0
    } else {
        bytes_where(list, data_len, keep, k - 1) + if keep(list[k - 1].0) {
            size_of(list, data_len, k - 1)
        } else {
            0
        }
    }
}

pub open spec fn any_tensor() -> spec_fn(Seq<char>) -> bool {
    |name: Seq<char>| true
}

pub open spec fn expert_tensor() -> spec_fn(Seq<char>) -> bool {
    |name: Seq<char>| text::has_part(name, "_exps"@)
}

pub open spec fn embedding_tensor() -> spec_fn(Seq<char>) -> bool {
    |name: Seq<char>| text::has_prefix(name, "token_embd"@)
}

/// The number of the block that a tensor belongs to, if it is counted.
pub open spec fn block_of(name: Seq<char>) -> Option<nat> {
    if text::has_prefix(name, "blk."@) {
        text::unsigned(
            text::split_on(name.skip("blk."@.len() as int), '.')[0],
            (MAX_BLOCKS - 1) as nat,
        )
    } else {
        None
    }
}

pub open spec fn tensor_of_block(n: int) -> spec_fn(Seq<char>) -> bool {
    |name: Seq<char>| block_of(name) == Some(n as nat)
}

/// One more than the highest block number among the first `k` tensors.
pub open spec fn blocks_in(list: Seq<(Seq<char>, u64)>, k: int) -> nat
    decreases k,
{
    if k <= 0 {
        0
    } else {
        match block_of(list[k - 1].0) {
            Some(n) => if n + 1 > blocks_in(list, k - 1) {
                n + 1
            } else {
                blocks_in(list, k - 1)
            },
            None => blocks_in(list, k - 1),
        }
    }
}

impl TensorSummary {
    /// The totals are those of the first `k` tensors of a list by offset.
    pub open spec fn sums(self, list: Seq<(Seq<char>, u64)>, data_len: int, k: int) -> bool {
        &&& self.total_bytes == bytes_where(list, data_len, any_tensor(), k)
        &&& self.expert_bytes == bytes_where(list, data_len, expert_tensor(), k)
        &&& self.embd_bytes == bytes_where(list, data_len, embedding_tensor(), k)
        &&& self.block_bytes.len() == blocks_in(list, k)
        &&& forall|n: int|
            0 <= n < self.block_bytes.len() ==> #[trigger] self.block_bytes@[n] == bytes_where(
                list,
                data_len,
                tensor_of_block(n),
                k,
            )
    }
}

/// The tensor table by offset, and the bytes that its data take in a file of that
/// length.
pub open spec fn layout_of(b: Seq<u8>, file_len: int) -> Result<
    (Seq<(Seq<char>, u64)>, int),
    GgufError,
> {
    match table_of(b) {
        Err(e) => Err(e),
        Ok((alignment, tensors, end)) => Ok(
            (by_offset(tensors), monus(file_len, data_start(end, alignment as int))),
        ),
    }
}

pub open spec fn tensors_view(list: Seq<(String, u64)>) -> Seq<(Seq<char>, u64)> {
    Seq::new(list.len(), |i: int| (list[i].0@, list[i].1))
}

/// Putting a tensor in its place keeps the order and adds that tensor alone.
proof fn lemma_placed(list: Seq<(Seq<char>, u64)>, t: (Seq<char>, u64))
    requires
        offsets_ascend(list),
    ensures
        offsets_ascend(placed(list, t)),
        placed(list, t).to_multiset() =~= list.to_multiset().insert(t),
        placed(list, t).len() == list.len() + 1,
        list.len() > 0 ==> placed(list, t).last().1 == (if list.last().1 <= t.1 {
            t.1
        } else {
            list.last().1
        }),
        list.len() == 0 ==> placed(list, t).last().1 == t.1,
    decreases list.len(),
{
    broadcast use vstd::seq_lib::group_to_multiset_ensures;

    if list.len() == 0 || list.last().1 <= t.1 {
    } else {
        let head = list.drop_last();
        lemma_placed(head, t);
        assert(list =~= head.push(list.last()));
        assert(list.to_multiset() =~= head.to_multiset().insert(list.last()));
        assert(placed(list, t).to_multiset() =~= placed(head, t).to_multiset().insert(
            list.last(),
        ));
    }
}

/// Sorting by offset gives the same tensors in ascending order of offset.
pub proof fn sorting_keeps_the_tensors(list: Seq<(Seq<char>, u64)>)
    ensures
        offsets_ascend(by_offset(list)),
        by_offset(list).to_multiset() =~= list.to_multiset(),
        by_offset(list).len() == list.len(),
    decreases list.len(),
{
    broadcast use vstd::seq_lib::group_to_multiset_ensures;

    if list.len() > 0 {
        sorting_keeps_the_tensors(list.drop_last());
        lemma_placed(by_offset(list.drop_last()), list.last());
        assert(list =~= list.drop_last().push(list.last()));
    }
}

/// No two tensors start at the same place.
pub open spec fn offsets_differ(list: Seq<(Seq<char>, u64)>) -> bool {
    forall|i: int, j: int| 0 <= i < j < list.len() ==> list[i].1 != list[j].1
}

/// The order of a table does not matter: two tables with the same tensors, no two of
/// which start at the same place, are the same by offset.
pub proof fn the_order_of_the_table_does_not_matter(
    a: Seq<(Seq<char>, u64)>,
    b: Seq<(Seq<char>, u64)>,
)
    requires
        a.to_multiset() == b.to_multiset(),
        offsets_differ(a),
    ensures
        by_offset(a) == by_offset(b),
{
    broadcast use vstd::seq_lib::group_to_multiset_ensures;

    sorting_keeps_the_tensors(a);
    sorting_keeps_the_tensors(b);
    let list = by_offset(a);
    assert forall|x: (Seq<char>, u64), y: (Seq<char>, u64)|
        list.contains(x) && list.contains(y) && x.1 == y.1 implies x == y by {
        assert(a.to_multiset().count(x) > 0 && a.to_multiset().count(y) > 0);
        assert(a.contains(x) && a.contains(y));
        let i = choose|i: int| 0 <= i < a.len() && a[i] == x;
        let j = choose|j: int| 0 <= j < a.len() && a[j] == y;
        if i < j {
            assert(a[i].1 != a[j].1);
        } else if j < i {
            assert(a[j].1 != a[i].1);
        }
    }
    lemma_one_order(list, by_offset(b));
}

proof fn lemma_one_order(a: Seq<(Seq<char>, u64)>, b: Seq<(Seq<char>, u64)>)
    requires
        offsets_ascend(a),
        offsets_ascend(b),
        a.to_multiset() == b.to_multiset(),
        forall|x: (Seq<char>, u64), y: (Seq<char>, u64)|
            #![trigger a.contains(x), a.contains(y)]
            a.contains(x) && a.contains(y) && x.1 == y.1 ==> x == y,
    ensures
        a == b,
    decreases a.len(),
{
    broadcast use vstd::seq_lib::group_to_multiset_ensures;

    assert(a.len() == a.to_multiset().len());
    assert(b.len() == b.to_multiset().len());
    if a.len() == 0 {
        assert(a =~= b);
    } else {
        let x = a.last();
        let y = b.last();
        assert(a.contains(x) && b.contains(y)) by {
            assert(a[a.len() - 1] == x && b[b.len() - 1] == y);
        }
        assert(a.to_multiset().count(y) > 0 && b.to_multiset().count(x) > 0);
        assert(a.contains(y) && b.contains(x));
        let i = choose|i: int| 0 <= i < a.len() && a[i] == y;
        let j = choose|j: int| 0 <= j < b.len() && b[j] == x;
        assert(a[i].1 <= a[a.len() - 1].1);
        assert(b[j].1 <= b[b.len() - 1].1);
        assert(x == y);
        let a0 = a.drop_last();
        let b0 = b.drop_last();
        assert(a =~= a0.push(x));
        assert(b =~= b0.push(x));
        assert(a0.to_multiset() =~= a.to_multiset().remove(x));
        assert(b0.to_multiset() =~= b.to_multiset().remove(x));
        assert forall|u: (Seq<char>, u64), v: (Seq<char>, u64)|
            #![trigger a0.contains(u), a0.contains(v)]
            a0.contains(u) && a0.contains(v) && u.1 == v.1 implies u == v by {
            let p = choose|p: int| 0 <= p < a0.len() && a0[p] == u;
            let q = choose|q: int| 0 <= q < a0.len() && a0[q] == v;
            assert(a[p] == u && a[q] == v);
            assert(a.contains(u) && a.contains(v));
        }
        lemma_one_order(a0, b0);
    }
}

/// The sum of some sizes.
pub open spec fn sum_of(sizes: Seq<u64>) -> int
    decreases sizes.len(),
{
    if sizes.len() == 0 {
        0
    } else {
        sum_of(sizes.drop_last()) + sizes.last()
    }
}

/// The bytes of the first `m` blocks among the first `k` tensors.
spec fn bytes_of_blocks(list: Seq<(Seq<char>, u64)>, data_len: int, m: int, k: int) -> int
    decreases m,
{
    if m <= 0 {
        0
    } else {
        bytes_of_blocks(list, data_len, m - 1, k) + bytes_where(
            list,
            data_len,
            tensor_of_block(m - 1),
            k,
        )
    }
}

/// A tensor belongs to one block at most.
proof fn lemma_blocks_step(list: Seq<(Seq<char>, u64)>, data_len: int, m: int, k: int)
    requires
        0 < k,
        0 <= m,
    ensures
        ({
            let more = bytes_where(list, data_len, any_tensor(), k) - bytes_where(
                list,
                data_len,
                any_tensor(),
                k - 1,
            );
            let now = bytes_of_blocks(list, data_len, m, k);
            let before = bytes_of_blocks(list, data_len, m, k - 1);
            &&& more >= 0
            &&& now == before || now == before + more
            &&& !(block_of(list[k - 1].0) matches Some(n) && n < m) ==> now == before
        }),
    decreases m,
{
    lemma_part_of_total(list, data_len, any_tensor(), k - 1);
    if m > 0 {
        lemma_blocks_step(list, data_len, m - 1, k);
    }
}

proof fn lemma_blocks_in_total(list: Seq<(Seq<char>, u64)>, data_len: int, m: int, k: int)
    requires
        0 <= m,
    ensures
        bytes_of_blocks(list, data_len, m, k) <= bytes_where(list, data_len, any_tensor(), k),
    decreases k,
{
    if k > 0 {
        lemma_blocks_in_total(list, data_len, m, k - 1);
        lemma_blocks_step(list, data_len, m, k);
    } else {
        lemma_no_blocks(list, data_len, m, k);
    }
}

proof fn lemma_no_blocks(list: Seq<(Seq<char>, u64)>, data_len: int, m: int, k: int)
    requires
        k <= 0,
    ensures
        bytes_of_blocks(list, data_len, m, k) == 0,
    decreases m,
{
    if m > 0 {
        lemma_no_blocks(list, data_len, m - 1, k);
    }
}

proof fn lemma_sum_of_blocks(
    sizes: Seq<u64>,
    list: Seq<(Seq<char>, u64)>,
    data_len: int,
    k: int,
)
    requires
        forall|n: int|
            0 <= n < sizes.len() ==> #[trigger] sizes[n] == bytes_where(
                list,
                data_len,
                tensor_of_block(n),
                k,
            ),
    ensures
        sum_of(sizes) == bytes_of_blocks(list, data_len, sizes.len() as int, k),
    decreases sizes.len(),
{
    if sizes.len() > 0 {
        let head = sizes.drop_last();
        assert forall|n: int| 0 <= n < head.len() implies #[trigger] head[n] == bytes_where(
            list,
            data_len,
            tensor_of_block(n),
            k,
        ) by {
            assert(head[n] == sizes[n]);
        }
        lemma_sum_of_blocks(head, list, data_len, k);
        assert(sizes[sizes.len() - 1] == sizes.last());
    }
}

/// The bytes of any choice of tensors are part of the bytes of all of them.
proof fn lemma_part_of_total(
    list: Seq<(Seq<char>, u64)>,
    data_len: int,
    keep: spec_fn(Seq<char>) -> bool,
    k: int,
)
    ensures
        0 <= bytes_where(list, data_len, keep, k) <= bytes_where(list, data_len, any_tensor(), k),
    decreases k,
{
    if k > 0 {
        lemma_part_of_total(list, data_len, keep, k - 1);
    }
}

/// The sizes of the first `k` tensors add up to the distance from the first one.
proof fn lemma_total(list: Seq<(Seq<char>, u64)>, data_len: int, k: int)
    requires
        offsets_ascend(list),
        0 < k <= list.len(),
        0 <= data_len,
    ensures
        k < list.len() ==> bytes_where(list, data_len, any_tensor(), k) == list[k].1 - list[0].1,
        k == list.len() ==> bytes_where(list, data_len, any_tensor(), k) == list.last().1
            - list[0].1 + monus(data_len, list.last().1 as int),
    decreases k,
{
    if k == 1 {
        assert(bytes_where(list, data_len, any_tensor(), 0) == 0);
    } else {
        lemma_total(list, data_len, k - 1);
    }
}

/// Where no tensor starts behind the end of the data, every byte from the first
/// tensor on belongs to some tensor: the total is the length of the data less the
/// first offset.
pub proof fn every_byte_belongs_to_a_tensor(list: Seq<(Seq<char>, u64)>, data_len: int)
    requires
        offsets_ascend(list),
        list.len() > 0,
        list.last().1 <= data_len,
    ensures
        bytes_where(list, data_len, any_tensor(), list.len() as int) == data_len - list[0].1,
{
    lemma_total(list, data_len, list.len() as int);
}

/// The expert bytes, the embedding bytes and each block's bytes are part of the
/// total, and so are those of all blocks together.
pub proof fn parts_are_within_the_total(
    s: TensorSummary,
    list: Seq<(Seq<char>, u64)>,
    data_len: int,
)
    requires
        s.sums(list, data_len, list.len() as int),
    ensures
        s.expert_bytes <= s.total_bytes,
        s.embd_bytes <= s.total_bytes,
        forall|n: int|
            0 <= n < s.block_bytes.len() ==> #[trigger] s.block_bytes@[n] <= s.total_bytes,
        sum_of(s.block_bytes@) <= s.total_bytes,
{
    let k = list.len() as int;
    lemma_sum_of_blocks(s.block_bytes@, list, data_len, k);
    lemma_blocks_in_total(list, data_len, s.block_bytes.len() as int, k);
    lemma_part_of_total(list, data_len, expert_tensor(), k);
    lemma_part_of_total(list, data_len, embedding_tensor(), k);
    assert forall|n: int| 0 <= n < s.block_bytes.len() implies #[trigger] s.block_bytes@[n]
        <= s.total_bytes by {
        lemma_part_of_total(list, data_len, tensor_of_block(n), k);
    }
}

/// Reads all metadata entries; gives the alignment and the position after them.
fn read_alignment(b: &[u8], n: u64) -> (r: Result<(u64, usize), GgufError>)
    requires
        b.len() >= 24,
    ensures
        r matches Ok((a, p)) ==> alignment_at(b@, 24, n as int, 32) == Ok::<(u64, int), GgufError>(
            (a, p as int),
        ) && a > 0 && p <= b.len(),
        r matches Err(e) ==> alignment_at(b@, 24, n as int, 32) == Err::<(u64, int), GgufError>(e),
{
    let mut alignment: u64 = 32;
    let mut at: usize = 24;
    let mut left: u64 = n;
    while left > 0
        invariant
            at <= b.len(),
            alignment > 0,
            alignment_at(b@, at as int, left as int, alignment) == alignment_at(
                b@,
                24,
                n as int,
                32,
            ),
        decreases left,
    {
        let (key, p) = match read_string(b, at) {
            Ok(x) => x,
            Err(e) => return Err(e),
        };
        let ty = match read_u32(b, p) {
            Ok(ty) => ty,
            Err(e) => return Err(e),
        };
        let (v, q) = match read_value(b, p + 4, ty) {
            Ok(x) => x,
            Err(e) => return Err(e),
        };
        let is_alignment = text::same_str(key.as_str(), "general.alignment");
        let ghost before = alignment;
        if let Val::U(a) = v {
            if is_alignment && a > 0 {
                alignment = a;
            }
        }
        assert(alignment == alignment_after(before, key@, v@));
        at = q;
        left -= 1;
    }
    Ok((alignment, at))
}

/// Reads one row of the tensor table and gives the position after it.
fn read_tensor(b: &[u8], at: usize) -> (r: Result<((String, u64), usize), GgufError>)
    ensures
        r matches Ok((t, p)) ==> tensor_at(b@, at as int) == Ok::<
            ((Seq<char>, u64), int),
            GgufError,
        >(((t.0@, t.1), p as int)) && at < p <= b.len(),
        r matches Err(e) ==> tensor_at(b@, at as int) == Err::<((Seq<char>, u64), int), GgufError>(
            e,
        ),
{
    let (name, p) = match read_string(b, at) {
        Ok(x) => x,
        Err(e) => return Err(e),
    };
    let dims = match read_u32(b, p) {
        Ok(n) => n,
        Err(e) => return Err(e),
    };
    if dims > MAX_DIMS {
        return Err(GgufError::BadDimensionCount);
    }
    let skip: usize = 8 * dims as usize + 4;
    if skip > b.len() - (p + 4) {
        return Err(GgufError::Truncated);
    }
    let q: usize = p + 4 + skip;
    match read_u64(b, q) {
        Ok(offset) => Ok(((name, offset), q + 8)),
        Err(e) => Err(e),
    }
}

/// Reads the tensor table and gives the position after it.
fn read_tensors(b: &[u8], start: usize, n: u64) -> (r: Result<
    (Vec<(String, u64)>, usize),
    GgufError,
>)
    requires
        start <= b.len(),
    ensures
        r matches Ok((list, p)) ==> tensors_at(b@, start as int, n as int) == Ok::<
            (Seq<(Seq<char>, u64)>, int),
            GgufError,
        >((tensors_view(list@), p as int)) && p <= b.len(),
        r matches Err(e) ==> tensors_at(b@, start as int, n as int) == Err::<
            (Seq<(Seq<char>, u64)>, int),
            GgufError,
        >(e),
{
    let ghost goal = tensors_at(b@, start as int, n as int);
    let mut list: Vec<(String, u64)> = Vec::new();
    let mut at: usize = start;
    let mut left: u64 = n;
    proof {
        if let Ok((s, e)) = goal {
            assert(tensors_view(list@) + s =~= s);
        }
    }
    while left > 0
        invariant
            at <= b.len(),
            goal == tensors_at(b@, start as int, n as int),
            goal == (match tensors_at(b@, at as int, left as int) {
                Ok((s, e)) => Ok::<(Seq<(Seq<char>, u64)>, int), GgufError>(
                    (tensors_view(list@) + s, e),
                ),
                Err(e) => Err(e),
            }),
        decreases left,
    {
        let ghost before = tensors_view(list@);
        match read_tensor(b, at) {
            Ok((t, p)) => {
                let ghost row = (t.0@, t.1);
                list.push(t);
                at = p;
                left -= 1;
                proof {
                    assert(tensors_view(list@) =~= before.push(row));
                    if let Ok((s, e)) = tensors_at(b@, at as int, left as int) {
                        assert(before + (seq![row] + s) =~= before.push(row) + s);
                    }
                }
            },
            Err(e) => return Err(e),
        }
    }
    assert(tensors_view(list@) + Seq::<(Seq<char>, u64)>::empty() =~= tensors_view(list@));
    Ok((list, at))
}

/// Sorts tensors by offset, keeping the order of those with equal offsets.
fn sort_by_offset(list: Vec<(String, u64)>) -> (r: Vec<(String, u64)>)
    ensures
        tensors_view(r@) == by_offset(tensors_view(list@)),
{
    let ghost all = tensors_view(list@);
    let ghost n = list@.len();
    let mut rest = order::reversed(list);
    let mut out: Vec<(String, u64)> = Vec::new();
    assert(tensors_view(rest@) =~= all.reverse());
    proof {
        assert(all.skip(0) =~= all);
        assert(all.take(0) =~= Seq::<(Seq<char>, u64)>::empty());
        assert(tensors_view(out@) =~= by_offset(all.take(0)));
    }
    while rest.len() > 0
        invariant
            rest@.len() <= n,
            all.len() == n,
            tensors_view(rest@) == all.skip(n - rest@.len()).reverse(),
            tensors_view(out@) == by_offset(all.take(n - rest@.len())),
        decreases rest.len(),
    {
        let ghost done = n - rest@.len();
        let ghost r0 = tensors_view(rest@);
        let t = rest.pop().unwrap();
        proof {
            let row = (t.0@, t.1);
            assert(r0[r0.len() - 1] == row);
            assert(all.skip(done).reverse()[r0.len() - 1] == all[done]);
            let tail = all.skip(done + 1).reverse();
            assert forall|j: int| 0 <= j < tail.len() implies tensors_view(rest@)[j] == tail[j] by {
                assert(r0[j] == all.skip(done).reverse()[j]);
            }
            assert(tensors_view(rest@) =~= tail);
            assert(all.take(done + 1).drop_last() =~= all.take(done));
            assert(all.take(done + 1).last() == row);
        }
        place(&mut out, t);
    }
    assert(all.take(n as int) =~= all);
    out
}

/// Puts a tensor behind every one whose offset is no larger, in a sorted list.
fn place(list: &mut Vec<(String, u64)>, t: (String, u64))
    ensures
        tensors_view(final(list)@) == placed(tensors_view(old(list)@), (t.0@, t.1)),
{
    let ghost start = tensors_view(list@);
    let ghost row = (t.0@, t.1);
    let mut i: usize = list.len();
    proof {
        assert(start.take(i as int) =~= start);
        assert(start.skip(i as int) =~= Seq::<(Seq<char>, u64)>::empty());
        assert(placed(start, row) =~= placed(start.take(i as int), row) + start.skip(i as int));
    }
    while i > 0 && list[i - 1].1 > t.1
        invariant
            i <= list.len(),
            start == tensors_view(list@),
            row == (t.0@, t.1),
            placed(start, row) == placed(start.take(i as int), row) + start.skip(i as int),
        decreases i,
    {
        proof {
            let head = start.take(i as int);
            assert(head.last() == (list@[i - 1].0@, list@[i - 1].1));
            assert(head.drop_last() =~= start.take(i - 1));
            assert(placed(head, row) == placed(start.take(i - 1), row).push(head.last()));
            assert(placed(start.take(i - 1), row).push(head.last()) + start.skip(i as int)
                =~= placed(start.take(i - 1), row) + start.skip(i - 1));
        }
        i -= 1;
    }
    proof {
        let head = start.take(i as int);
        if i > 0 {
            assert(head.last() == (list@[i - 1].0@, list@[i - 1].1));
        }
        assert(placed(head, row) == head.push(row));
        assert(start.insert(i as int, row) =~= head.push(row) + start.skip(i as int));
    }
    list.insert(i, t);
    assert(tensors_view(list@) =~= start.insert(i as int, row));
}

/// The number of the block that a tensor belongs to, if it is counted.
fn block_number(name: &[char]) -> (r: Option<usize>)
    ensures
        r is Some <==> block_of(name@) is Some,
        r matches Some(n) ==> block_of(name@) == Some(n as nat) && n < MAX_BLOCKS,
{
    match text::after_prefix(name, "blk.") {
        None => None,
        Some(rest) => {
            let pieces = text::split(&rest, '.');
            assert(text::texts(pieces@)[0] == pieces@[0]@);
            match text::parse_unsigned(&pieces[0], (MAX_BLOCKS - 1) as u64) {
                Some(n) => Some(n as usize),
                None => None,
            }
        },
    }
}

/// Adds up the sizes of the tensors in a list by offset.
fn sum_tensors(list: &Vec<(String, u64)>, data_len: u64) -> (r: TensorSummary)
    requires
        offsets_ascend(tensors_view(list@)),
    ensures
        r.sums(tensors_view(list@), data_len as int, list@.len() as int),
        r.n_tensors == list@.len(),
{
    let ghost all = tensors_view(list@);
    let ghost len = data_len as int;
    let mut out = TensorSummary {
        total_bytes: 0,
        expert_bytes: 0,
        embd_bytes: 0,
        block_bytes: Vec::new(),
        n_tensors: list.len(),
    };
    let mut i: usize = 0;
    while i < list.len()
        invariant
            i <= list.len(),
            all == tensors_view(list@),
            len == data_len,
            offsets_ascend(all),
            out.sums(all, len, i as int),
            out.n_tensors == list@.len(),
            out.block_bytes.len() <= MAX_BLOCKS,
        decreases list.len() - i,
    {
        let name = text::chars_of(list[i].0.as_str());
        let next: u64 = if i + 1 < list.len() {
            list[i + 1].1
        } else {
            data_len
        };
        let size: u64 = next.saturating_sub(list[i].1);
        let ghost k = i as int;
        proof {
            assert(all[k] == (list@[k].0@, list@[k].1));
            if k + 1 < list@.len() {
                assert(all[k + 1] == (list@[k + 1].0@, list@[k + 1].1));
            }
            assert(size == size_of(all, len, k));
            lemma_total(all, len, k + 1);
            lemma_part_of_total(all, len, expert_tensor(), k + 1);
            lemma_part_of_total(all, len, embedding_tensor(), k + 1);
            assert forall|n: int|
                0 <= bytes_where(all, len, #[trigger] tensor_of_block(n), k + 1) <= bytes_where(
                    all,
                    len,
                    any_tensor(),
                    k + 1,
                ) by {
                lemma_part_of_total(all, len, tensor_of_block(n), k + 1);
            }
        }
        out.total_bytes = out.total_bytes + size;
        if text::contains(&name, "_exps") {
            out.expert_bytes = out.expert_bytes + size;
        }
        if text::starts_with(&name, "token_embd") {
            out.embd_bytes = out.embd_bytes + size;
        }
        let ghost before = out.block_bytes@;
        match block_number(&name) {
            Some(n) => {
                proof {
                    lemma_no_bytes_beyond(all, len, k);
                }
                if out.block_bytes.len() <= n {
                    out.block_bytes.resize(n + 1, 0);
                }
                let ghost grown = out.block_bytes@;
                proof {
                    assert forall|j: int| 0 <= j < grown.len() implies #[trigger] grown[j]
                        == bytes_where(all, len, tensor_of_block(j), k) by {
                        if j < before.len() {
                            assert(grown[j] == before[j]);
                        }
                    }
                    assert(grown[n as int] == bytes_where(all, len, tensor_of_block(n as int), k));
                    assert(bytes_where(all, len, tensor_of_block(n as int), k + 1)
                        == grown[n as int] + size);
                }
                let sum: u64 = out.block_bytes[n] + size;
                out.block_bytes.set(n, sum);
                proof {
                    assert forall|j: int| 0 <= j < out.block_bytes.len() implies #[trigger]
                    out.block_bytes@[j] == bytes_where(all, len, tensor_of_block(j), k + 1) by {
                        assert(grown[j] == bytes_where(all, len, tensor_of_block(j), k));
                    }
                }
            },
            None => {
                proof {
                    assert forall|j: int| 0 <= j < out.block_bytes.len() implies #[trigger]
                    out.block_bytes@[j] == bytes_where(all, len, tensor_of_block(j), k + 1) by {
                        assert(before[j] == bytes_where(all, len, tensor_of_block(j), k));
                    }
                }
            },
        }
        i += 1;
    }
    out
}

/// No tensor belongs to a block beyond the highest one.
proof fn lemma_no_bytes_beyond(list: Seq<(Seq<char>, u64)>, data_len: int, k: int)
    ensures
        forall|n: int|
            n >= blocks_in(list, k) ==> bytes_where(
                list,
                data_len,
                #[trigger] tensor_of_block(n),
                k,
            ) == 0,
    decreases k,
{
    if k > 0 {
        lemma_no_bytes_beyond(list, data_len, k - 1);
    }
}

/// Reads the tensor table from the bytes of a header. `file_len` is the length of
/// the whole file, which bounds the last tensor.
pub fn read_tensor_summary(b: &[u8], file_len: u64) -> (r: Result<TensorSummary, GgufError>)
    ensures
        r matches Ok(s) ==> layout_of(b@, file_len as int) is Ok && ({
            let (list, data_len) = layout_of(b@, file_len as int)->Ok_0;
            s.sums(list, data_len, list.len() as int) && s.n_tensors == list.len()
        }),
        r matches Err(e) ==> table_of(b@) == Err::<(u64, Seq<(Seq<char>, u64)>, int), GgufError>(e),
{
    let (n_tensors, n_entries) = match read_start(b) {
        Ok(x) => x,
        Err(e) => return Err(e),
    };
    let (alignment, at) = match read_alignment(b, n_entries) {
        Ok(x) => x,
        Err(e) => return Err(e),
    };
    let (tensors, end) = match read_tensors(b, at, n_tensors) {
        Ok(x) => x,
        Err(e) => return Err(e),
    };
    let ghost all = tensors_view(tensors@);
    let a: u128 = alignment as u128;
    let steps: u128 = (end as u128 + a - 1) / a;
    proof {
        let t = end + alignment - 1;
        vstd::arithmetic::div_mod::lemma_fundamental_div_mod(t, alignment as int);
        vstd::arithmetic::div_mod::lemma_mod_pos_bound(t, alignment as int);
        assert(steps * a == alignment * (t / alignment as int)) by (nonlinear_arith)
            requires
                steps == t / alignment as int,
                a == alignment,
        ;
        assert(steps * a <= t);
    }
    let start: u128 = steps * a;
    let data_len: u64 = if (file_len as u128) > start {
        (file_len as u128 - start) as u64
    } else {
        0
    };
    let sorted = sort_by_offset(tensors);
    proof {
        sorting_keeps_the_tensors(all);
        assert(sorted@.len() == tensors_view(sorted@).len());
    }
    Ok(sum_tensors(&sorted, data_len))
}

proof fn lemma_number_prefix(b: Seq<u8>, more: Seq<u8>, at: int, n: nat)
    requires
        0 <= at,
    ensures
        number_at(b, at, n) is Ok ==> number_at(b + more, at, n) == number_at(b, at, n),
{
    if at + n <= b.len() {
        lemma_little_prefix(b, more, at, n);
    }
}

proof fn lemma_string_prefix(b: Seq<u8>, more: Seq<u8>, at: int)
    requires
        0 <= at,
        string_at(b, at) != Err::<(Seq<char>, int), GgufError>(GgufError::Truncated),
    ensures
        string_at(b + more, at) == string_at(b, at),
        string_at(b, at) matches Ok((_, p)) ==> at < p <= b.len(),
{
    lemma_number_prefix(b, more, at, 8);
    lemma_little_not_negative(b, at, 8);
    if let Ok((n, p)) = number_at(b, at, 8) {
        if p + n <= b.len() {
            assert((b + more).subrange(p, p + n) =~= b.subrange(p, p + n));
        }
    }
}

proof fn lemma_value_prefix(b: Seq<u8>, more: Seq<u8>, at: int, ty: int)
    requires
        0 <= at,
        value_at(b, at, ty) != Err::<(Value, int), GgufError>(GgufError::Truncated),
    ensures
        value_at(b + more, at, ty) == value_at(b, at, ty),
    decreases b.len() - at, 0int,
{
    if let Some(size) = fixed_size(ty) {
        lemma_number_prefix(b, more, at, size);
    } else if ty == 8 {
        lemma_string_prefix(b, more, at);
    } else if ty == 9 {
        lemma_number_prefix(b, more, at, 4);
        if let Ok((of, p)) = number_at(b, at, 4) {
            lemma_number_prefix(b, more, p, 8);
            if let Ok((n, q)) = number_at(b, p, 8) {
                lemma_values_prefix(b, more, q, of, n);
            }
        }
    }
}

proof fn lemma_values_prefix(b: Seq<u8>, more: Seq<u8>, at: int, ty: int, n: int)
    requires
        0 <= at <= b.len(),
        values_end(b, at, ty, n) != Err::<int, GgufError>(GgufError::Truncated),
    ensures
        values_end(b + more, at, ty, n) == values_end(b, at, ty, n),
    decreases b.len() - at, 1int,
{
    if n > 0 {
        lemma_value_prefix(b, more, at, ty);
        lemma_value_ends(b, at, ty);
        if let Ok((_, p)) = value_at(b, at, ty) {
            lemma_values_prefix(b, more, p, ty, n - 1);
        }
    }
}

proof fn lemma_start_prefix(b: Seq<u8>, more: Seq<u8>)
    requires
        start_of(b) != Err::<(int, int, int), GgufError>(GgufError::Truncated),
    ensures
        start_of(b + more) == start_of(b),
{
    assert((b + more).take(4) =~= b.take(4));
    lemma_number_prefix(b, more, 4, 4);
    lemma_number_prefix(b, more, 8, 8);
    lemma_number_prefix(b, more, 16, 8);
}

proof fn lemma_entries_prefix(b: Seq<u8>, more: Seq<u8>, at: int, n: int)
    requires
        0 <= at,
        entries_at(b, at, n) != Err::<Seq<(Seq<char>, Value)>, GgufError>(GgufError::Truncated),
    ensures
        entries_at(b + more, at, n) == entries_at(b, at, n),
    decreases n,
{
    if n > 0 {
        lemma_string_prefix(b, more, at);
        if let Ok((key, p)) = string_at(b, at) {
            lemma_number_prefix(b, more, p, 4);
            if let Ok((ty, q)) = number_at(b, p, 4) {
                if !text::has_prefix(key, "tokenizer."@) {
                    lemma_value_prefix(b, more, q, ty);
                    lemma_value_ends(b, q, ty);
                    if let Ok((v, r)) = value_at(b, q, ty) {
                        lemma_entries_prefix(b, more, r, n - 1);
                    }
                }
            }
        }
    }
}

proof fn lemma_alignment_prefix(b: Seq<u8>, more: Seq<u8>, at: int, n: int, so_far: u64)
    requires
        0 <= at,
        alignment_at(b, at, n, so_far) != Err::<(u64, int), GgufError>(GgufError::Truncated),
    ensures
        alignment_at(b + more, at, n, so_far) == alignment_at(b, at, n, so_far),
        alignment_at(b, at, n, so_far) matches Ok((_, p)) ==> at <= p,
    decreases n,
{
    if n > 0 {
        lemma_string_prefix(b, more, at);
        if let Ok((key, p)) = string_at(b, at) {
            lemma_number_prefix(b, more, p, 4);
            if let Ok((ty, q)) = number_at(b, p, 4) {
                lemma_value_prefix(b, more, q, ty);
                lemma_value_ends(b, q, ty);
                if let Ok((v, r)) = value_at(b, q, ty) {
                    lemma_alignment_prefix(b, more, r, n - 1, alignment_after(so_far, key, v));
                }
            }
        }
    }
}

proof fn lemma_tensor_prefix(b: Seq<u8>, more: Seq<u8>, at: int)
    requires
        0 <= at,
        tensor_at(b, at) != Err::<((Seq<char>, u64), int), GgufError>(GgufError::Truncated),
    ensures
        tensor_at(b + more, at) == tensor_at(b, at),
        tensor_at(b, at) matches Ok((_, p)) ==> at < p,
{
    lemma_string_prefix(b, more, at);
    if let Ok((name, p)) = string_at(b, at) {
        lemma_number_prefix(b, more, p, 4);
        lemma_little_not_negative(b, p, 4);
        if let Ok((dims, q)) = number_at(b, p, 4) {
            lemma_number_prefix(b, more, q + 8 * dims + 4, 8);
        }
    }
}

proof fn lemma_tensors_prefix(b: Seq<u8>, more: Seq<u8>, at: int, n: int)
    requires
        0 <= at,
        tensors_at(b, at, n) != Err::<(Seq<(Seq<char>, u64)>, int), GgufError>(
            GgufError::Truncated,
        ),
    ensures
        tensors_at(b + more, at, n) == tensors_at(b, at, n),
    decreases n,
{
    if n > 0 {
        lemma_tensor_prefix(b, more, at);
        if let Ok((t, p)) = tensor_at(b, at) {
            lemma_tensors_prefix(b, more, p, n - 1);
        }
    }
}

/// A prefix that is long enough decides the fields: whatever bytes follow, they
/// read the same.
pub proof fn longer_prefixes_give_the_same_entries(b: Seq<u8>, more: Seq<u8>)
    requires
        entries_of(b) != Err::<Seq<(Seq<char>, Value)>, GgufError>(GgufError::Truncated),
    ensures
        entries_of(b + more) == entries_of(b),
{
    lemma_start_prefix(b, more);
    if let Ok((_, n, p)) = start_of(b) {
        lemma_entries_prefix(b, more, p, n);
    }
}

/// A prefix that is long enough decides the tensor table: whatever bytes follow,
/// it reads the same.
pub proof fn longer_prefixes_give_the_same_table(b: Seq<u8>, more: Seq<u8>)
    requires
        table_of(b) != Err::<(u64, Seq<(Seq<char>, u64)>, int), GgufError>(GgufError::Truncated),
    ensures
        table_of(b + more) == table_of(b),
{
    lemma_start_prefix(b, more);
    if let Ok((n_tensors, n_entries, p)) = start_of(b) {
        lemma_alignment_prefix(b, more, p, n_entries, 32);
        if let Ok((a, q)) = alignment_at(b, p, n_entries, 32) {
            lemma_tensors_prefix(b, more, q, n_tensors);
        }
    }
}

/// The sum of the first `k` shares.
pub open spec fn shares(split: Seq<Single>, k: int) -> int
    decreases k,
{
    if k <= 0 {
        0
    } else {
        shares(split, k - 1) + split[k - 1].millionths()
    }
}

/// All of the first `k` shares are numbers.
pub open spec fn are_numbers(split: Seq<Single>, k: int) -> bool {
    forall|i: int| 0 <= i < k ==> !(#[trigger] split[i]).nan()
}

/// What the shares are measured against: their sum, but at least one whole share.
pub open spec fn share_total(split: Seq<Single>) -> int {
    let sum = shares(split, split.len() as int);
    if are_numbers(split, split.len() as int) && sum > micro::ONE {
        sum
    } else {
        micro::ONE as int
    }
}

/// Whether the middle of a layer lies within the first `k` shares: whether
/// `(layer + 1/2) / n_layers` of the total is no more than their sum, which what is no
/// number leaves without one.
pub open spec fn within(layer: int, n_layers: int, split: Seq<Single>, k: int) -> bool {
    are_numbers(split, k) && (2 * layer + 1) * share_total(split) <= 2 * n_layers * shares(split, k)
}

/// The first device from `k` on whose shares reach the middle of the layer; the
/// last device where none does.
pub open spec fn device_from(layer: int, n_layers: int, split: Seq<Single>, k: int) -> int
    decreases split.len() - k,
{
    if k + 1 >= split.len() || within(layer, n_layers, split, k + 1) {
        k
    } else {
        device_from(layer, n_layers, split, k + 1)
    }
}

/// The device that a layer lives on.
pub open spec fn device_of(layer: int, n_layers: int, split: Seq<Single>) -> int {
    if split.len() == 0 || n_layers == 0 {
        0
    } else {
        device_from(layer, n_layers, split, 0)
    }
}

/// Which GPU a layer lives on given llama.cpp `--tensor-split` proportions, which are
/// added up in millionths.
pub fn layer_device(layer: usize, n_layers: usize, split: &[Single]) -> (r: usize)
    ensures
        r == device_of(layer as int, n_layers as int, split@),
        split@.len() > 0 ==> r < split@.len(),
{
    if split.len() == 0 || n_layers == 0 {
        return 0;
    }
    let total: u128 = split_total(split);
    let halves: u128 = 2 * (layer as u128) + 1;
    let doubled: u128 = 2 * (n_layers as u128);
    let mut reached: i128 = 0;
    let mut numbers = true;
    let mut k: usize = 0;
    while k + 1 < split.len()
        invariant
            k < split.len(),
            n_layers > 0,
            reached == shares(split@, k as int),
            numbers == are_numbers(split@, k as int),
            -(k * 0x8000_0000_0000_0000) <= reached <= k * 0x8000_0000_0000_0000,
            total == share_total(split@),
            halves == 2 * layer + 1,
            doubled == 2 * n_layers,
            device_from(layer as int, n_layers as int, split@, k as int) == device_of(
                layer as int,
                n_layers as int,
                split@,
            ),
        decreases split.len() - k,
    {
        reached = reached + split[k].to_millionths() as i128;
        if split[k].is_nan() {
            numbers = false;
        }
        proof {
            lemma_numbers(split@, k as int);
        }
        if numbers && reached >= 0 {
            if micro::product_at_most(halves, total, doubled, reached as u128) {
                return k;
            }
        } else if numbers {
            assert(0 < halves * total) by (nonlinear_arith)
                requires
                    halves > 0,
                    total > 0,
            ;
            assert(doubled * reached < 0) by (nonlinear_arith)
                requires
                    doubled > 0,
                    reached < 0,
            ;
        }
        k += 1;
    }
    k
}

proof fn lemma_numbers(split: Seq<Single>, k: int)
    requires
        0 <= k < split.len(),
    ensures
        are_numbers(split, k + 1) <==> are_numbers(split, k) && !split[k].nan(),
{
}

/// What the shares are measured against.
pub fn split_total(split: &[Single]) -> (r: u128)
    ensures
        r == share_total(split@),
{
    let mut sum: i128 = 0;
    let mut numbers = true;
    let mut i: usize = 0;
    while i < split.len()
        invariant
            i <= split.len(),
            sum == shares(split@, i as int),
            numbers == are_numbers(split@, i as int),
            -(i * 0x8000_0000_0000_0000) <= sum <= i * 0x8000_0000_0000_0000,
        decreases split.len() - i,
    {
        sum = sum + split[i].to_millionths() as i128;
        if split[i].is_nan() {
            numbers = false;
        }
        proof {
            lemma_numbers(split@, i as int);
        }
        i += 1;
    }
    if numbers && sum > micro::ONE as i128 {
        sum as u128
    } else {
        micro::ONE as u128
    }
}

/// The devices take the layers in order: a later layer lives on no earlier device.
pub proof fn later_layers_live_on_later_devices(a: int, b: int, n_layers: int, split: Seq<Single>)
    requires
        0 <= a <= b,
        0 <= n_layers,
    ensures
        device_of(a, n_layers, split) <= device_of(b, n_layers, split),
{
    if split.len() > 0 && n_layers > 0 {
        lemma_device_from(a, b, n_layers, split, 0);
    }
}

proof fn lemma_device_from(a: int, b: int, n_layers: int, split: Seq<Single>, k: int)
    requires
        0 <= a <= b,
        0 <= k < split.len(),
    ensures
        k <= device_from(a, n_layers, split, k) <= device_from(b, n_layers, split, k)
            < split.len(),
    decreases split.len() - k,
{
    let t = share_total(split);
    assert((2 * a + 1) * t <= (2 * b + 1) * t) by (nonlinear_arith)
        requires
            a <= b,
            0 <= t,
    ;
    if k + 1 < split.len() {
        lemma_device_from(a, b, n_layers, split, k + 1);
    }
}

} // verus!

//! Text as sequences of characters: searching, splitting, trimming, and the
//! decimal form of unsigned numbers.
use vstd::prelude::*;

verus! {

/// Whether a character has the Unicode `White_Space` property.
pub open spec fn is_space(c: char) -> bool {
    ||| '\u{9}' <= c <= '\u{d}'
    ||| c == ' '
    ||| c == '\u{85}'
    ||| c == '\u{a0}'
    ||| c == '\u{1680}'
    ||| '\u{2000}' <= c <= '\u{200a}'
    ||| c == '\u{2028}'
    ||| c == '\u{2029}'
    ||| c == '\u{202f}'
    ||| c == '\u{205f}'
    ||| c == '\u{3000}'
}

pub open spec fn is_digit(c: char) -> bool {
    '0' <= c <= '9'
}

/// The characters of a list of character vectors.
pub open spec fn texts(v: Seq<Vec<char>>) -> Seq<Seq<char>> {
    Seq::new(v.len(), |i: int| v[i]@)
}

/// The characters of a list of strings.
pub open spec fn strings(v: Seq<String>) -> Seq<Seq<char>> {
    Seq::new(v.len(), |i: int| v[i]@)
}

/// `p` stands in `s` at position `i`.
pub open spec fn has_at(s: Seq<char>, p: Seq<char>, i: int) -> bool {
    0 <= i && i + p.len() <= s.len() && s.subrange(i, i + p.len()) == p
}

pub open spec fn has_prefix(s: Seq<char>, p: Seq<char>) -> bool {
    has_at(s, p, 0)
}

pub open spec fn has_suffix(s: Seq<char>, p: Seq<char>) -> bool {
    has_at(s, p, s.len() - p.len())
}

/// `p` stands somewhere in `s`.
pub open spec fn has_part(s: Seq<char>, p: Seq<char>) -> bool {
    exists|i: int| has_at(s, p, i)
}

/// What of `s` stands before the first `p`; all of `s` where there is none.
pub open spec fn before(s: Seq<char>, p: Seq<char>) -> Seq<char> {
    if has_part(s, p) {
        s.take(first_at(s, p, 0))
    } else {
        s
    }
}

/// The first position from `i` on at which `p` stands in `s`.
pub open spec fn first_at(s: Seq<char>, p: Seq<char>, i: int) -> int
    decreases s.len() - i + 1,
{
    if i > s.len() || has_at(s, p, i) {
        i
    } else {
        first_at(s, p, i + 1)
    }
}

/// `s` without the copies of `p` that it starts with.
pub open spec fn strip_all_prefix(s: Seq<char>, p: Seq<char>) -> Seq<char>
    decreases s.len(),
{
    if p.len() > 0 && has_prefix(s, p) {
        strip_all_prefix(s.skip(p.len() as int), p)
    } else {
        s
    }
}

/// `s` without the copies of `p` that it ends with.
pub open spec fn strip_all_suffix(s: Seq<char>, p: Seq<char>) -> Seq<char>
    decreases s.len(),
{
    if p.len() > 0 && has_suffix(s, p) {
        strip_all_suffix(s.take(s.len() - p.len()), p)
    } else {
        s
    }
}

pub open spec fn trim_start(s: Seq<char>) -> Seq<char>
    decreases s.len(),
{
    if s.len() > 0 && is_space(s[0]) {
        trim_start(s.drop_first())
    } else {
        s
    }
}

pub open spec fn trim_end(s: Seq<char>) -> Seq<char>
    decreases s.len(),
{
    if s.len() > 0 && is_space(s.last()) {
        trim_end(s.drop_last())
    } else {
        s
    }
}

/// `s` without the white space at both ends.
pub open spec fn trimmed(s: Seq<char>) -> Seq<char> {
    trim_end(trim_start(s))
}

/// The pieces of `s` between the characters that `sep` holds of.
pub open spec fn split_by(s: Seq<char>, sep: spec_fn(char) -> bool) -> Seq<Seq<char>>
    decreases s.len(),
{
    if s.len() == 0 {
        seq![Seq::<char>::empty()]
    } else {
        let pieces = split_by(s.drop_last(), sep);
        if sep(s.last()) {
            pieces.push(Seq::<char>::empty())
        } else {
            pieces.update(pieces.len() - 1, pieces.last().push(s.last()))
        }
    }
}

pub open spec fn is_char(sep: char) -> spec_fn(char) -> bool {
    |c: char| c == sep
}

/// The pieces of `s` between the occurrences of one character.
pub open spec fn split_on(s: Seq<char>, sep: char) -> Seq<Seq<char>> {
    split_by(s, is_char(sep))
}

/// The non-empty members of a list of texts, in order.
pub open spec fn non_empty(pieces: Seq<Seq<char>>) -> Seq<Seq<char>> {
    pieces.filter(|p: Seq<char>| p.len() > 0)
}

/// The words of `s`: its non-empty pieces between white space.
pub open spec fn words(s: Seq<char>) -> Seq<Seq<char>> {
    non_empty(split_by(s, |c: char| is_space(c)))
}

/// One piece between line feeds as a line: without the carriage return that
/// belongs to the line ending.
pub open spec fn without_return(piece: Seq<char>) -> Seq<char> {
    if piece.len() > 0 && piece.last() == '\r' {
        piece.drop_last()
    } else {
        piece
    }
}

/// The lines of `s`: its pieces between line feeds, the last of which counts
/// only if it is not empty.
pub open spec fn lines(s: Seq<char>) -> Seq<Seq<char>> {
    let pieces = split_on(s, '\n');
    let ended = pieces.drop_last().map_values(|p: Seq<char>| without_return(p));
    if pieces.last().len() > 0 {
        ended.push(pieces.last())
    } else {
        ended
    }
}

pub open spec fn digit_value(c: char) -> nat {
    (c as int - '0' as int) as nat
}

/// The number that a string of digits writes.
pub open spec fn digits_value(s: Seq<char>) -> nat
    decreases s.len(),
{
    if s.len() == 0 {
        0
    } else {
        digits_value(s.drop_last()) * 10 + digit_value(s.last())
    }
}

pub open spec fn all_digits(s: Seq<char>) -> bool {
    s.len() > 0 && forall|i: int| 0 <= i < s.len() ==> is_digit(#[trigger] s[i])
}

/// The unsigned number up to `max` that `s` writes: an optional plus sign,
/// then digits and nothing else.
pub open spec fn unsigned(s: Seq<char>, max: nat) -> Option<nat> {
    let d = if s.len() > 0 && s[0] == '+' {
        s.drop_first()
    } else {
        s
    };
    if all_digits(d) && digits_value(d) <= max {
        Some(digits_value(d))
    } else {
        None
    }
}

/// The digit that writes `d`.
pub open spec fn digit_char(d: nat) -> char {
    ('0' as int + d as int) as char
}

/// `n` in decimal.
pub open spec fn decimal(n: nat) -> Seq<char>
    decreases n,
{
    if n < 10 {
        seq![digit_char(n)]
    } else {
        decimal(n / 10).push(digit_char(n % 10))
    }
}

/// The parts with `sep` between each two.
pub open spec fn joined(parts: Seq<Seq<char>>, sep: Seq<char>) -> Seq<char>
    decreases parts.len(),
{
    if parts.len() == 0 {
        Seq::empty()
    } else if parts.len() == 1 {
        parts[0]
    } else {
        joined(parts.drop_last(), sep) + sep + parts.last()
    }
}

pub open spec fn upper(c: char) -> char {
    if 'a' <= c <= 'z' {
        (c as int - 32) as char
    } else {
        c
    }
}

/// `String::push` appends one character.
pub assume_specification[ String::push ](s: &mut String, c: char)
    ensures
        final(s)@ == old(s)@.push(c),
;

pub open spec fn lower(c: char) -> char {
    if 'A' <= c <= 'Z' {
        (c as int + 32) as char
    } else {
        c
    }
}

pub open spec fn is_ascii(s: Seq<char>) -> bool {
    forall|i: int| 0 <= i < s.len() ==> (#[trigger] s[i]) as int <= 127
}

pub open spec fn lower_each(s: Seq<char>) -> Seq<char> {
    Seq::new(s.len(), |i: int| lower(s[i]))
}

/// The lower case of a text as Unicode defines it.
pub uninterp spec fn lowercase(s: Seq<char>) -> Seq<char>;

/// The lower case of a text: of an ASCII text character by character, of any other
/// as Unicode defines it.
pub open spec fn lowered(s: Seq<char>) -> Seq<char> {
    if is_ascii(s) {
        lower_each(s)
    } else {
        lowercase(s)
    }
}

/// `str::to_lowercase`: the result is a function of the text alone, and in an ASCII
/// text the letters `A` to `Z` alone change, each to its lower case.
#[verifier::external_body]
fn to_lowercase(s: &str) -> (r: String)
    ensures
        r@ == lowercase(s@),
        is_ascii(s@) ==> r@ == lower_each(s@),
{
    s.to_lowercase()
}

/// The lower case of a text.
pub fn lower_of(s: &str) -> (r: String)
    ensures
        r@ == lowered(s@),
{
    to_lowercase(s)
}

/// What a byte string reads as where every malformed sequence is replaced.
pub uninterp spec fn utf8_lossy(b: Seq<u8>) -> Seq<char>;

/// `String::from_utf8_lossy`: the result is a function of the bytes alone, and
/// bytes that are valid UTF-8 read as the text that they encode.
#[verifier::external_body]
pub(crate) fn from_utf8_lossy(b: &[u8]) -> (r: String)
    ensures
        r@ == utf8_lossy(b@),
        vstd::utf8::valid_utf8(b@) ==> r@ == vstd::utf8::decode_utf8(b@),
{
    String::from_utf8_lossy(b).into_owned()
}

/// The characters of a string.
pub fn chars_of(s: &str) -> (v: Vec<char>)
    ensures
        v@ == s@,
{
    let mut v: Vec<char> = Vec::new();
    for c in it: s.chars()
        invariant
            v@ == it.seq().take(it.index() as int),
            it.seq() == s@,
    {
        v.push(c);
        assert(it.seq().take(it.index() + 1) =~= it.seq().take(it.index() as int).push(c));
    }
    assert(s@.take(s@.len() as int) =~= s@);
    v
}

/// The string that some characters write.
pub fn string_of(v: &[char]) -> (s: String)
    ensures
        s@ == v@,
{
    let mut s = String::new();
    let mut i: usize = 0;
    while i < v.len()
        invariant
            i <= v.len(),
            s@ == v@.take(i as int),
        decreases v.len() - i,
    {
        s.push(v[i]);
        assert(v@.take(i + 1) =~= v@.take(i as int).push(v@[i as int]));
        i += 1;
    }
    assert(v@.take(v@.len() as int) =~= v@);
    s
}

pub fn space(c: char) -> (r: bool)
    ensures
        r == is_space(c),
{
    ('\u{9}' <= c && c <= '\u{d}') || c == ' ' || c == '\u{85}' || c == '\u{a0}' || c == '\u{1680}'
        || ('\u{2000}' <= c && c <= '\u{200a}') || c == '\u{2028}' || c == '\u{2029}' || c
        == '\u{202f}' || c == '\u{205f}' || c == '\u{3000}'
}

/// Whether two character slices are equal.
pub fn same(a: &[char], b: &[char]) -> (r: bool)
    ensures
        r == (a@ == b@),
{
    if a.len() != b.len() {
        return false;
    }
    let mut i: usize = 0;
    while i < a.len()
        invariant
            i <= a.len(),
            a.len() == b.len(),
            forall|j: int| 0 <= j < i ==> a@[j] == b@[j],
        decreases a.len() - i,
    {
        if a[i] != b[i] {
            return false;
        }
        i += 1;
    }
    assert(a@ =~= b@);
    true
}

/// Whether the characters are those of `t`.
pub fn is_text(s: &[char], t: &str) -> (r: bool)
    ensures
        r == (s@ == t@),
{
    same(s, &chars_of(t))
}

/// Whether two strings are equal.
pub fn same_str(a: &str, b: &str) -> (r: bool)
    ensures
        r == (a@ == b@),
{
    same(&chars_of(a), &chars_of(b))
}

/// The characters from `a` up to `b`.
pub fn part(s: &[char], a: usize, b: usize) -> (r: Vec<char>)
    requires
        a <= b <= s.len(),
    ensures
        r@ == s@.subrange(a as int, b as int),
{
    let mut r: Vec<char> = Vec::new();
    let mut i: usize = a;
    while i < b
        invariant
            a <= i <= b <= s.len(),
            r@ == s@.subrange(a as int, i as int),
        decreases b - i,
    {
        r.push(s[i]);
        assert(s@.subrange(a as int, i + 1) =~= s@.subrange(a as int, i as int).push(s@[i as int]));
        i += 1;
    }
    r
}

/// Whether `p` stands in `s` at position `i`.
pub fn at(s: &[char], p: &[char], i: usize) -> (r: bool)
    ensures
        r == has_at(s@, p@, i as int),
{
    if p.len() > s.len() || i > s.len() - p.len() {
        return false;
    }
    let ghost w = s@.subrange(i as int, i + p@.len());
    let mut j: usize = 0;
    while j < p.len()
        invariant
            j <= p.len(),
            i + p.len() <= s.len(),
            w == s@.subrange(i as int, i + p@.len()),
            forall|k: int| 0 <= k < j ==> w[k] == p@[k],
        decreases p.len() - j,
    {
        assert(w[j as int] == s@[i + j]);
        if s[i + j] != p[j] {
            return false;
        }
        j += 1;
    }
    assert(w =~= p@);
    true
}

pub fn starts_with(s: &[char], p: &str) -> (r: bool)
    ensures
        r == has_prefix(s@, p@),
{
    at(s, &chars_of(p), 0)
}

pub fn ends_with(s: &[char], p: &str) -> (r: bool)
    ensures
        r == has_suffix(s@, p@),
{
    let p = chars_of(p);
    p.len() <= s.len() && at(s, &p, s.len() - p.len())
}

/// Nothing before the position that `first_at` gives holds `p`.
proof fn lemma_first_at(s: Seq<char>, p: Seq<char>, i: int)
    requires
        0 <= i,
    ensures
        first_at(s, p, i) >= i,
        forall|j: int| i <= j < first_at(s, p, i) ==> !has_at(s, p, j),
        first_at(s, p, i) <= s.len() ==> has_at(s, p, first_at(s, p, i)),
    decreases s.len() - i + 1,
{
    if i > s.len() || has_at(s, p, i) {
    } else {
        lemma_first_at(s, p, i + 1);
    }
}

/// The first position of `p` in `s`.
pub fn find(s: &[char], p: &[char]) -> (r: Option<usize>)
    ensures
        r is Some <==> has_part(s@, p@),
        r matches Some(i) ==> i == first_at(s@, p@, 0) && has_at(s@, p@, i as int),
{
    let mut i: usize = 0;
    proof {
        lemma_first_at(s@, p@, 0);
    }
    if p.len() > s.len() {
        return None;
    }
    let last: usize = s.len() - p.len();
    while i <= last
        invariant
            last + p.len() == s.len(),
            i <= last + 1,
            forall|j: int| 0 <= j < i ==> !has_at(s@, p@, j),
            forall|j: int| 0 <= j < first_at(s@, p@, 0) ==> !has_at(s@, p@, j),
            first_at(s@, p@, 0) <= s@.len() ==> has_at(s@, p@, first_at(s@, p@, 0)),
            first_at(s@, p@, 0) >= 0,
        decreases last + 1 - i,
    {
        if at(s, p, i) {
            return Some(i);
        }
        if i == last {
            return None;
        }
        i += 1;
    }
    None
}

pub fn contains(s: &[char], p: &str) -> (r: bool)
    ensures
        r == has_part(s@, p@),
{
    find(s, &chars_of(p)).is_some()
}

/// What follows the prefix `p`, where `s` starts with it.
pub fn after_prefix(s: &[char], p: &str) -> (r: Option<Vec<char>>)
    ensures
        r is Some <==> has_prefix(s@, p@),
        r matches Some(t) ==> t@ == s@.skip(p@.len() as int),
{
    let p = chars_of(p);
    if at(s, &p, 0) {
        Some(part(s, p.len(), s.len()))
    } else {
        None
    }
}

/// What stands before the first `p`.
pub fn cut_before(s: &[char], p: &str) -> (r: Vec<char>)
    ensures
        r@ == before(s@, p@),
{
    match find(s, &chars_of(p)) {
        Some(i) => part(s, 0, i),
        None => {
            let r = part(s, 0, s.len());
            assert(r@ =~= s@);
            r
        },
    }
}

/// `s` without the copies of `p` that it starts with.
pub fn without_prefixes(s: &[char], p: &str) -> (r: Vec<char>)
    ensures
        r@ == strip_all_prefix(s@, p@),
{
    let p = chars_of(p);
    let mut from: usize = 0;
    assert(s@.skip(0) =~= s@);
    while p.len() > 0 && at(&part(s, from, s.len()), &p, 0)
        invariant
            from <= s.len(),
            strip_all_prefix(s@.skip(from as int), p@) == strip_all_prefix(s@, p@),
        decreases s.len() - from,
    {
        proof {
            assert(s@.subrange(from as int, s@.len() as int) =~= s@.skip(from as int));
            assert(s@.skip(from as int).skip(p@.len() as int) =~= s@.skip(from + p@.len()));
        }
        from += p.len();
    }
    let r = part(s, from, s.len());
    assert(r@ =~= s@.skip(from as int));
    r
}

/// `s` without the copies of `p` that it ends with.
pub fn without_suffixes(s: &[char], p: &str) -> (r: Vec<char>)
    ensures
        r@ == strip_all_suffix(s@, p@),
{
    let p = chars_of(p);
    let mut to: usize = s.len();
    assert(s@.take(to as int) =~= s@);
    while 0 < p.len() && p.len() <= to && at(&part(s, 0, to), &p, to - p.len())
        invariant
            to <= s.len(),
            strip_all_suffix(s@.take(to as int), p@) == strip_all_suffix(s@, p@),
        decreases to,
    {
        proof {
            assert(s@.subrange(0, to as int) =~= s@.take(to as int));
            assert(s@.take(to as int).take(to - p@.len()) =~= s@.take(to - p@.len()));
        }
        to -= p.len();
    }
    let r = part(s, 0, to);
    assert(r@ =~= s@.take(to as int));
    r
}

/// `s` without the white space at both ends.
pub fn trim(s: &[char]) -> (r: Vec<char>)
    ensures
        r@ == trimmed(s@),
{
    let mut a: usize = 0;
    assert(s@.skip(0) =~= s@);
    while a < s.len() && space(s[a])
        invariant
            a <= s.len(),
            trim_start(s@.skip(a as int)) == trim_start(s@),
        decreases s.len() - a,
    {
        assert(s@.skip(a as int).drop_first() =~= s@.skip(a + 1));
        a += 1;
    }
    let ghost t = s@.skip(a as int);
    assert(t == trim_start(s@));
    let mut b: usize = s.len();
    assert(s@.subrange(a as int, b as int) =~= t);
    while a < b && space(s[b - 1])
        invariant
            a <= b <= s.len(),
            trim_end(s@.subrange(a as int, b as int)) == trim_end(t),
        decreases b,
    {
        assert(s@.subrange(a as int, b as int).drop_last() =~= s@.subrange(a as int, b - 1));
        b -= 1;
    }
    part(s, a, b)
}

/// Whether nothing but white space stands in `s`.
pub fn is_blank(s: &[char]) -> (r: bool)
    ensures
        r == (trimmed(s@).len() == 0),
{
    trim(s).len() == 0
}

proof fn lemma_split_by_some(s: Seq<char>, sep: spec_fn(char) -> bool)
    ensures
        split_by(s, sep).len() > 0,
    decreases s.len(),
{
    if s.len() > 0 {
        lemma_split_by_some(s.drop_last(), sep);
    }
}

/// The pieces of `s` between the occurrences of `sep`; there is always one.
pub fn split(s: &[char], sep: char) -> (r: Vec<Vec<char>>)
    ensures
        texts(r@) == split_on(s@, sep),
        r.len() > 0,
{
    let ghost f = is_char(sep);
    let mut done: Vec<Vec<char>> = Vec::new();
    let mut cur: Vec<char> = Vec::new();
    let mut i: usize = 0;
    proof {
        assert(s@.take(0) =~= Seq::<char>::empty());
        assert(texts(done@).push(cur@) =~= split_by(s@.take(0), f));
    }
    while i < s.len()
        invariant
            i <= s.len(),
            f == is_char(sep),
            texts(done@).push(cur@) == split_by(s@.take(i as int), f),
        decreases s.len() - i,
    {
        let c = s[i];
        let ghost before = texts(done@).push(cur@);
        proof {
            assert(s@.take(i + 1).drop_last() =~= s@.take(i as int));
            lemma_split_by_some(s@.take(i as int), f);
        }
        if c == sep {
            done.push(cur);
            cur = Vec::new();
            assert(texts(done@).push(cur@) =~= before.push(Seq::<char>::empty()));
        } else {
            cur.push(c);
            assert(texts(done@).push(cur@) =~= before.update(
                before.len() - 1,
                before.last().push(c),
            ));
        }
        i += 1;
    }
    let ghost d = texts(done@);
    let ghost last = cur@;
    done.push(cur);
    proof {
        assert(s@.take(s@.len() as int) =~= s@);
        assert(texts(done@) =~= d.push(last));
    }
    done
}

proof fn lemma_non_empty_push(pieces: Seq<Seq<char>>, p: Seq<char>)
    ensures
        non_empty(pieces.push(p)) == if p.len() > 0 {
            non_empty(pieces).push(p)
        } else {
            non_empty(pieces)
        },
{
    reveal(Seq::filter);
    assert(pieces.push(p).drop_last() =~= pieces);
}

proof fn lemma_split_at(x: Seq<char>, c: char, y: Seq<char>, sep: spec_fn(char) -> bool)
    requires
        sep(c),
    ensures
        split_by(x.push(c) + y, sep) == split_by(x, sep) + split_by(y, sep),
    decreases y.len(),
{
    let s = x.push(c) + y;
    let p = split_by(x, sep);
    if y.len() == 0 {
        assert(s.drop_last() =~= x);
        assert(split_by(s, sep) =~= p + split_by(y, sep));
    } else {
        lemma_split_at(x, c, y.drop_last(), sep);
        lemma_split_by_some(y.drop_last(), sep);
        let q = split_by(y.drop_last(), sep);
        assert(s.drop_last() =~= x.push(c) + y.drop_last());
        assert(split_by(s, sep) =~= p + split_by(y, sep));
    }
}

proof fn lemma_one_piece(w: Seq<char>, sep: spec_fn(char) -> bool)
    requires
        forall|i: int| 0 <= i < w.len() ==> !sep(#[trigger] w[i]),
    ensures
        split_by(w, sep) == seq![w],
    decreases w.len(),
{
    if w.len() > 0 {
        let front = w.drop_last();
        assert forall|i: int| 0 <= i < front.len() implies !sep(#[trigger] front[i]) by {
            assert(front[i] == w[i]);
        }
        lemma_one_piece(front, sep);
        assert(split_by(w, sep) =~= seq![w]) by {
            assert(front.push(w.last()) =~= w);
        }
    } else {
        assert(w =~= Seq::<char>::empty());
    }
}

/// A text without white space.
pub open spec fn is_word(w: Seq<char>) -> bool {
    w.len() > 0 && forall|i: int| 0 <= i < w.len() ==> !is_space(#[trigger] w[i])
}

/// White space separates words: those of two texts with white space between them
/// are the words of the one and then those of the other.
pub proof fn words_of_two_texts(x: Seq<char>, c: char, y: Seq<char>)
    requires
        is_space(c),
    ensures
        words(x.push(c) + y) == words(x) + words(y),
{
    let f = |c: char| is_space(c);
    lemma_split_at(x, c, y, f);
    Seq::filter_distributes_over_add(
        split_by(x, f),
        split_by(y, f),
        |p: Seq<char>| p.len() > 0,
    );
}

/// A separator parts the pieces: those of two texts with the separator between them are
/// the pieces of the one and then those of the other.
pub proof fn pieces_of_two_texts(x: Seq<char>, c: char, y: Seq<char>)
    ensures
        split_on(x.push(c) + y, c) == split_on(x, c) + split_on(y, c),
        split_on(x, c).len() > 0,
{
    lemma_split_at(x, c, y, is_char(c));
    lemma_split_by_some(x, is_char(c));
}

/// A text without the separator is one piece.
pub proof fn a_text_without_it_is_one_piece(w: Seq<char>, c: char)
    requires
        forall|i: int| 0 <= i < w.len() ==> #[trigger] w[i] != c,
    ensures
        split_on(w, c) == seq![w],
{
    lemma_one_piece(w, is_char(c));
}

/// A text without white space is one word.
pub proof fn a_word_is_one_word(w: Seq<char>)
    requires
        is_word(w),
    ensures
        words(w) == seq![w],
{
    let f = |c: char| is_space(c);
    lemma_one_piece(w, f);
    reveal(Seq::filter);
    let none = Seq::<Seq<char>>::empty();
    assert(seq![w].drop_last() =~= none);
    assert(non_empty(none) =~= none);
    assert(words(w) =~= seq![w]);
}

/// The words of `s`.
pub fn words_of(s: &[char]) -> (r: Vec<Vec<char>>)
    ensures
        texts(r@) == words(s@),
{
    let ghost f = |c: char| is_space(c);
    let mut done: Vec<Vec<char>> = Vec::new();
    let mut cur: Vec<char> = Vec::new();
    let mut i: usize = 0;
    proof {
        assert(s@.take(0) =~= Seq::<char>::empty());
        let none = Seq::<Seq<char>>::empty();
        assert(split_by(s@.take(0), f) =~= none.push(Seq::<char>::empty()));
        assert(split_by(s@.take(0), f).drop_last() =~= none);
        reveal(Seq::filter);
        assert(texts(done@) =~= non_empty(none));
    }
    while i < s.len()
        invariant
            i <= s.len(),
            f == (|c: char| is_space(c)),
            split_by(s@.take(i as int), f).len() > 0,
            cur@ == split_by(s@.take(i as int), f).last(),
            texts(done@) == non_empty(split_by(s@.take(i as int), f).drop_last()),
        decreases s.len() - i,
    {
        let c = s[i];
        let ghost pieces = split_by(s@.take(i as int), f);
        let ghost next = split_by(s@.take(i + 1), f);
        let ghost d = texts(done@);
        proof {
            assert(s@.take(i + 1).drop_last() =~= s@.take(i as int));
            assert(pieces =~= pieces.drop_last().push(pieces.last()));
            lemma_non_empty_push(pieces.drop_last(), cur@);
        }
        if space(c) {
            proof {
                assert(next == pieces.push(Seq::<char>::empty()));
                assert(next.drop_last() =~= pieces);
            }
            if cur.len() > 0 {
                let ghost last = cur@;
                done.push(cur);
                assert(texts(done@) =~= d.push(last));
            }
            cur = Vec::new();
            assert(cur@ =~= Seq::<char>::empty());
        } else {
            cur.push(c);
            assert(next.drop_last() =~= pieces.drop_last());
        }
        i += 1;
    }
    let ghost pieces = split_by(s@, f);
    let ghost d = texts(done@);
    proof {
        assert(s@.take(s@.len() as int) =~= s@);
        assert(pieces =~= pieces.drop_last().push(pieces.last()));
        lemma_non_empty_push(pieces.drop_last(), cur@);
    }
    if cur.len() > 0 {
        let ghost last = cur@;
        done.push(cur);
        assert(texts(done@) =~= d.push(last));
    }
    done
}

/// The lines of `s`.
pub fn lines_of(s: &[char]) -> (r: Vec<Vec<char>>)
    ensures
        texts(r@) == lines(s@),
{
    let pieces = split(s, '\n');
    let ghost all = texts(pieces@);
    let ghost ended = all.drop_last().map_values(|p: Seq<char>| without_return(p));
    let mut out: Vec<Vec<char>> = Vec::new();
    let mut i: usize = 0;
    while i < pieces.len() - 1
        invariant
            pieces.len() > 0,
            i <= pieces.len() - 1,
            all == texts(pieces@),
            ended == all.drop_last().map_values(|p: Seq<char>| without_return(p)),
            texts(out@) == ended.take(i as int),
        decreases pieces.len() - i,
    {
        let n: usize = pieces[i].len();
        let keep: usize = if n > 0 && pieces[i][n - 1] == '\r' {
            n - 1
        } else {
            n
        };
        let line = part(&pieces[i], 0, keep);
        let ghost o = texts(out@);
        proof {
            assert(all[i as int] == pieces@[i as int]@);
            assert(line@ =~= without_return(all[i as int]));
        }
        let ghost l = line@;
        out.push(line);
        assert(texts(out@) =~= o.push(l));
        assert(ended.take(i + 1) =~= ended.take(i as int).push(ended[i as int]));
        i += 1;
    }
    assert(ended.take(ended.len() as int) =~= ended);
    if pieces[i].len() > 0 {
        let last = part(&pieces[i], 0, pieces[i].len());
        let ghost l = last@;
        assert(l =~= all.last());
        out.push(last);
        assert(texts(out@) =~= ended.push(l));
    } else {
        assert(all.last() == pieces@[i as int]@);
    }
    out
}

pub fn is_digit_char(c: char) -> (r: bool)
    ensures
        r == is_digit(c),
{
    '0' <= c && c <= '9'
}

proof fn lemma_digits_value_grows(s: Seq<char>, i: int)
    requires
        0 <= i <= s.len(),
    ensures
        digits_value(s.take(i)) <= digits_value(s),
    decreases s.len(),
{
    if i < s.len() {
        lemma_digits_value_grows(s.drop_last(), i);
        assert(s.drop_last().take(i) =~= s.take(i));
    } else {
        assert(s.take(i) =~= s);
    }
}

/// The unsigned number up to `max` that `s` writes.
pub fn parse_unsigned(s: &[char], max: u64) -> (r: Option<u64>)
    ensures
        r is Some <==> unsigned(s@, max as nat) is Some,
        r matches Some(n) ==> unsigned(s@, max as nat) == Some(n as nat),
{
    let from: usize = if s.len() > 0 && s[0] == '+' {
        1
    } else {
        0
    };
    let ghost d = s@.skip(from as int);
    proof {
        assert(s@.skip(0) =~= s@);
        assert(s@.len() > 0 ==> s@.drop_first() =~= s@.skip(1));
    }
    if from == s.len() {
        return None;
    }
    let mut n: u64 = 0;
    let mut i: usize = from;
    assert(d.take(0) =~= Seq::<char>::empty());
    while i < s.len()
        invariant
            from <= i <= s.len(),
            from < s.len(),
            d == s@.skip(from as int),
            d == (if s@.len() > 0 && s@[0] == '+' {
                s@.drop_first()
            } else {
                s@
            }),
            forall|j: int| 0 <= j < i - from ==> is_digit(#[trigger] d[j]),
            n <= max,
            n == digits_value(d.take(i - from)),
        decreases s.len() - i,
    {
        let c = s[i];
        assert(d[i - from] == c);
        if !is_digit_char(c) {
            return None;
        }
        let v: u64 = (c as u32 - '0' as u32) as u64;
        proof {
            assert(d.take(i - from + 1).drop_last() =~= d.take(i - from));
            lemma_digits_value_grows(d, i - from + 1);
        }
        if v > max || n > max / 10 || n * 10 > max - v {
            return None;
        }
        n = n * 10 + v;
        i += 1;
    }
    assert(d.take(d.len() as int) =~= d);
    Some(n)
}

/// Whether every digit of a decimal form is a digit and the form writes `n`.
pub proof fn lemma_decimal_reads_back(n: nat)
    ensures
        all_digits(decimal(n)),
        digits_value(decimal(n)) == n,
    decreases n,
{
    if n < 10 {
        assert(decimal(n).drop_last() =~= Seq::<char>::empty());
        assert(digits_value(decimal(n).drop_last()) == 0);
    } else {
        lemma_decimal_reads_back(n / 10);
        let d = decimal(n / 10);
        assert(decimal(n).drop_last() =~= d);
        assert forall|i: int| 0 <= i < decimal(n).len() implies is_digit(#[trigger] decimal(n)[i]) by {
            if i < d.len() {
                assert(decimal(n)[i] == d[i]);
            }
        }
    }
}

/// `n` in decimal.
pub fn decimal_of(n: u64) -> (r: Vec<char>)
    ensures
        r@ == decimal(n as nat),
    decreases n,
{
    if n < 10 {
        let mut r: Vec<char> = Vec::new();
        let c = ('0' as u8 + n as u8) as char;
        r.push(c);
        assert(r@ =~= seq![digit_char(n as nat)]);
        r
    } else {
        let mut r = decimal_of(n / 10);
        r.push(('0' as u8 + (n % 10) as u8) as char);
        r
    }
}

/// Appends characters to a vector of them.
pub fn add_all(to: &mut Vec<char>, s: &[char])
    ensures
        final(to)@ == old(to)@ + s@,
{
    let ghost start = to@;
    let mut i: usize = 0;
    assert(start + s@.take(0) =~= start);
    while i < s.len()
        invariant
            i <= s.len(),
            to@ == start + s@.take(i as int),
        decreases s.len() - i,
    {
        to.push(s[i]);
        assert(start + s@.take(i + 1) =~= (start + s@.take(i as int)).push(s@[i as int]));
        i += 1;
    }
    assert(s@.take(s@.len() as int) =~= s@);
}

/// Appends the characters of a string to a vector of them.
pub fn add_str(to: &mut Vec<char>, s: &str)
    ensures
        final(to)@ == old(to)@ + s@,
{
    add_all(to, &chars_of(s));
}

/// Appends a number in decimal.
pub fn add_number(to: &mut Vec<char>, n: u64)
    ensures
        final(to)@ == old(to)@ + decimal(n as nat),
{
    add_all(to, &decimal_of(n));
}

/// The parts with `sep` between each two.
pub fn join(parts: &Vec<Vec<char>>, sep: &str) -> (r: Vec<char>)
    ensures
        r@ == joined(texts(parts@), sep@),
{
    let ghost all = texts(parts@);
    let mut out: Vec<char> = Vec::new();
    let mut i: usize = 0;
    assert(all.take(0) =~= Seq::<Seq<char>>::empty());
    assert(out@ =~= joined(all.take(0), sep@));
    while i < parts.len()
        invariant
            i <= parts.len(),
            all == texts(parts@),
            out@ == joined(all.take(i as int), sep@),
        decreases parts.len() - i,
    {
        let ghost before = out@;
        if i > 0 {
            add_str(&mut out, sep);
        }
        add_all(&mut out, &parts[i]);
        proof {
            assert(all[i as int] == parts@[i as int]@);
            assert(all.take(i + 1).drop_last() =~= all.take(i as int));
            if i == 0 {
                assert(before =~= Seq::<char>::empty());
                assert(out@ =~= all[0]);
            }
        }
        i += 1;
    }
    assert(all.take(all.len() as int) =~= all);
    out
}

/// `s` with its ASCII letters in upper case.
pub fn to_upper(s: &[char]) -> (r: Vec<char>)
    ensures
        r@ == s@.map_values(|c: char| upper(c)),
{
    let mut r: Vec<char> = Vec::new();
    let mut i: usize = 0;
    while i < s.len()
        invariant
            i <= s.len(),
            r.len() == i,
            forall|j: int| 0 <= j < i ==> r@[j] == upper(s@[j]),
        decreases s.len() - i,
    {
        let c = s[i];
        let u = if 'a' <= c && c <= 'z' {
            (c as u8 - 32) as char
        } else {
            c
        };
        r.push(u);
        i += 1;
    }
    assert(r@ =~= s@.map_values(|c: char| upper(c)));
    r
}

/// How many bytes a character takes in UTF-8.
pub open spec fn utf8_width(c: char) -> nat {
    if c <= '\u{7f}' {
        1
    } else if c <= '\u{7ff}' {
        2
    } else if c <= '\u{ffff}' {
        3
    } else {
        4
    }
}

/// How many bytes a text takes in UTF-8.
pub open spec fn utf8_size(s: Seq<char>) -> nat
    decreases s.len(),
{
    if s.len() == 0 {
        0
    } else {
        utf8_size(s.drop_last()) + utf8_width(s.last())
    }
}

/// How many bytes a text takes in UTF-8.
pub fn utf8_size_of(s: &[char]) -> (r: u128)
    ensures
        r == utf8_size(s@),
{
    let mut n: u128 = 0;
    let mut i: usize = 0;
    assert(s@.take(0) =~= Seq::<char>::empty());
    while i < s.len()
        invariant
            i <= s.len(),
            n == utf8_size(s@.take(i as int)),
            n <= 4 * i,
        decreases s.len() - i,
    {
        let c = s[i];
        assert(s@.take(i + 1).drop_last() =~= s@.take(i as int));
        n = n + (if c <= '\u{7f}' {
            1
        } else if c <= '\u{7ff}' {
            2
        } else if c <= '\u{ffff}' {
            3
        } else {
            4
        });
        i += 1;
    }
    assert(s@.take(s@.len() as int) =~= s@);
    n
}

/// How often a character stands in a text.
pub open spec fn count_char(s: Seq<char>, c: char) -> nat
    decreases s.len(),
{
    if s.len() == 0 {
        0
    } else {
        count_char(s.drop_last(), c) + if s.last() == c {
            1nat
        } else {
            0
        }
    }
}

/// How often a character stands in a text.
pub fn count_of(s: &[char], c: char) -> (r: usize)
    ensures
        r == count_char(s@, c),
{
    let mut n: usize = 0;
    let mut i: usize = 0;
    assert(s@.take(0) =~= Seq::<char>::empty());
    while i < s.len()
        invariant
            i <= s.len(),
            n == count_char(s@.take(i as int), c),
            n <= i,
        decreases s.len() - i,
    {
        assert(s@.take(i + 1).drop_last() =~= s@.take(i as int));
        if s[i] == c {
            n += 1;
        }
        i += 1;
    }
    assert(s@.take(s@.len() as int) =~= s@);
    n
}

/// Whether a text stands in a list of strings.
pub fn is_among(s: &[char], list: &[String]) -> (r: bool)
    ensures
        r == strings(list@).contains(s@),
{
    let mut i: usize = 0;
    while i < list.len()
        invariant
            i <= list.len(),
            forall|j: int| 0 <= j < i ==> list@[j]@ != s@,
        decreases list.len() - i,
    {
        if is_text(s, list[i].as_str()) {
            assert(strings(list@)[i as int] == s@);
            return true;
        }
        i += 1;
    }
    assert forall|j: int| 0 <= j < strings(list@).len() implies strings(list@)[j] != s@ by {
        assert(strings(list@)[j] == list@[j]@);
    }
    false
}

} // verus!

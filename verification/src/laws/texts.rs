//! How texts are taken apart and put together.
use crate::gguf::{count_under, text_under, Value};
use crate::laws::listing::{is_trim, joined_pieces_make_up_the_text};
use crate::laws::model_fields::silent_before;
use crate::micro;
use crate::model_detect::{addresses_upto, arguments, byte_runs};
use crate::path;
use crate::text;
use vstd::prelude::*;

verus! {

/// Trimming leaves no white space at the ends, takes nothing but white space away, and
/// changes nothing where there is none.
pub proof fn trimming_takes_white_space_alone(s: Seq<char>)
    ensures
        ({
            let t = text::trimmed(s);
            &&& t.len() == 0 || is_trim(t)
            &&& is_trim(s) ==> t == s
            &&& exists|a: int, b: int|
                0 <= a <= b <= s.len() && t == #[trigger] s.subrange(a, b) && (forall|i: int|
                    0 <= i < a || b <= i < s.len() ==> text::is_space(#[trigger] s[i]))
        }),
{
    lemma_trim_start(s);
    let t = text::trim_start(s);
    lemma_trim_end(t);
    let u = text::trimmed(s);
    let a = s.len() - t.len();
    let b = a + u.len();
    assert(u =~= s.subrange(a, b));
    assert forall|i: int| 0 <= i < a || b <= i < s.len() implies text::is_space(
        #[trigger] s[i],
    ) by {
        if i >= b {
            assert(t[i - a] == s[i]);
        }
    }
    if u.len() > 0 {
        assert(u[0] == t[0]);
    }
}

proof fn lemma_trim_start(s: Seq<char>)
    ensures
        ({
            let t = text::trim_start(s);
            let a = s.len() - t.len();
            &&& t.len() <= s.len()
            &&& t == s.skip(a)
            &&& t.len() > 0 ==> !text::is_space(t[0])
            &&& forall|i: int| 0 <= i < a ==> text::is_space(#[trigger] s[i])
        }),
    decreases s.len(),
{
    if s.len() > 0 && text::is_space(s[0]) {
        let rest = s.drop_first();
        lemma_trim_start(rest);
        let t = text::trim_start(s);
        let a = s.len() - t.len();
        assert(rest.skip(a - 1) =~= s.skip(a));
        assert forall|i: int| 0 <= i < a implies text::is_space(#[trigger] s[i]) by {
            if i > 0 {
                assert(rest[i - 1] == s[i]);
            }
        }
    } else {
        assert(s.skip(0) =~= s);
    }
}

proof fn lemma_trim_end(s: Seq<char>)
    ensures
        ({
            let t = text::trim_end(s);
            &&& t.len() <= s.len()
            &&& t == s.take(t.len() as int)
            &&& t.len() > 0 ==> !text::is_space(t.last())
            &&& forall|i: int| t.len() <= i < s.len() ==> text::is_space(#[trigger] s[i])
        }),
    decreases s.len(),
{
    if s.len() > 0 && text::is_space(s.last()) {
        let rest = s.drop_last();
        lemma_trim_end(rest);
        let t = text::trim_end(s);
        assert(rest.take(t.len() as int) =~= s.take(t.len() as int));
        assert forall|i: int| t.len() <= i < s.len() implies text::is_space(#[trigger] s[i]) by {
            if i < rest.len() {
                assert(rest[i] == s[i]);
            }
        }
    } else {
        assert(s.take(s.len() as int) =~= s);
    }
}

/// A number that is written in decimal reads as itself, also behind a plus sign, as long
/// as it is no more than the largest that is asked for; what holds anything but digits is
/// no number.
pub proof fn decimal_numbers_read_back(n: nat, max: nat, s: Seq<char>)
    ensures
        text::unsigned(text::decimal(n), max) == if n <= max {
            Some(n)
        } else {
            None
        },
        text::unsigned(seq!['+'] + text::decimal(n), max) == if n <= max {
            Some(n)
        } else {
            None
        },
        text::unsigned(s, max) is Some ==> s.len() > 0 && text::unsigned(s, max)->0 <= max
            && forall|i: int| 0 < i < s.len() ==> '0' <= #[trigger] s[i] <= '9',
{
    text::lemma_decimal_reads_back(n);
    let w = text::decimal(n);
    assert(text::is_digit(w[0]));
    let p = seq!['+'] + w;
    assert(p.drop_first() =~= w);
    if text::unsigned(s, max) is Some {
        if s[0] == '+' {
            let d = s.drop_first();
            assert forall|i: int| 0 < i < s.len() implies '0' <= #[trigger] s[i] <= '9' by {
                assert(text::is_digit(d[i - 1]));
            }
        } else {
            assert forall|i: int| 0 < i < s.len() implies '0' <= #[trigger] s[i] <= '9' by {
                assert(text::is_digit(s[i]));
            }
        }
    }
}

/// A line feed ends a line, with or without a carriage return before it; a text that ends
/// with one has no further line.
pub proof fn a_line_feed_ends_a_line(line: Seq<char>, rest: Seq<char>)
    requires
        forall|i: int| 0 <= i < line.len() ==> #[trigger] line[i] != '\n',
        line.len() == 0 || line.last() != '\r',
    ensures
        text::lines(line.push('\n') + rest) == seq![line] + text::lines(rest),
        text::lines(line.push('\r').push('\n') + rest) == seq![line] + text::lines(rest),
        text::lines(Seq::empty()) == Seq::<Seq<char>>::empty(),
        line.len() > 0 ==> text::lines(line) == seq![line],
{
    lemma_line(line, line, rest);
    let returned = line.push('\r');
    assert forall|i: int| 0 <= i < returned.len() implies #[trigger] returned[i] != '\n' by {
        if i < line.len() {
            assert(line[i] != '\n');
        }
    }
    assert(returned.drop_last() =~= line);
    lemma_line(returned, line, rest);
    let none = Seq::<char>::empty();
    text::a_text_without_it_is_one_piece(none, '\n');
    assert(text::lines(none) =~= Seq::<Seq<char>>::empty());
    text::a_text_without_it_is_one_piece(line, '\n');
    if line.len() > 0 {
        assert(text::lines(line) =~= seq![line]);
    }
}

proof fn lemma_line(piece: Seq<char>, line: Seq<char>, rest: Seq<char>)
    requires
        forall|i: int| 0 <= i < piece.len() ==> #[trigger] piece[i] != '\n',
        text::without_return(piece) == line,
    ensures
        text::lines(piece.push('\n') + rest) == seq![line] + text::lines(rest),
{
    text::pieces_of_two_texts(piece, '\n', rest);
    text::a_text_without_it_is_one_piece(piece, '\n');
    joined_pieces_make_up_the_text(rest, '\n');
    let more = text::split_on(rest, '\n');
    let all = text::split_on(piece.push('\n') + rest, '\n');
    assert(all == seq![piece] + more);
    assert(all.last() == more.last());
    let f = |p: Seq<char>| text::without_return(p);
    assert(all.drop_last() =~= seq![piece] + more.drop_last());
    assert(all.drop_last().map_values(f) =~= seq![line] + more.drop_last().map_values(f));
    assert(text::lines(piece.push('\n') + rest) =~= seq![line] + text::lines(rest));
}

/// A name in a directory is the file name of its path; without its last ending it is the
/// stem, and that ending is the extension.
pub proof fn paths_end_in_their_names(dir: Seq<char>, stem: Seq<char>, ending: Seq<char>)
    requires
        stem.len() > 0,
        forall|i: int| 0 <= i < stem.len() ==> #[trigger] stem[i] != '/',
        forall|i: int| 0 <= i < ending.len() ==> #[trigger] ending[i] != '/' && ending[i] != '.',
        ending.len() > 0,
    ensures
        ({
            let name = stem.push('.') + ending;
            let p = dir.push('/') + name;
            &&& path::file_name(p) == Some(name)
            &&& path::file_stem(p) == Some(stem)
            &&& path::extension(p) == Some(ending)
            &&& path::file_name(name) == Some(name)
        }),
{
    let name = stem.push('.') + ending;
    let p = dir.push('/') + name;
    assert(name.last() == ending.last());
    assert forall|i: int| 0 <= i < name.len() implies #[trigger] name[i] != '/' by {
        if i < stem.len() {
            assert(name[i] == stem[i]);
        } else if i > stem.len() {
            assert(name[i] == ending[i - stem.len() - 1]);
        }
    }
    reveal_strlit(".");
    reveal_strlit("..");
    assert(name != "."@ && name != ".."@) by {
        assert(name.len() >= 3);
    }
    lemma_file_name(dir, name);
    lemma_last_dot(stem, ending);
    assert(name.take(stem.len() as int) =~= stem);
    assert(name.skip(stem.len() as int + 1) =~= ending);
}

proof fn lemma_file_name(dir: Seq<char>, name: Seq<char>)
    requires
        name.len() >= 3,
        forall|i: int| 0 <= i < name.len() ==> #[trigger] name[i] != '/',
    ensures
        path::file_name(dir.push('/') + name) == Some(name),
        path::file_name(name) == Some(name),
{
    let keep = |c: Seq<char>| path::names_something(c);
    let p = dir.push('/') + name;
    text::pieces_of_two_texts(dir, '/', name);
    text::a_text_without_it_is_one_piece(name, '/');
    let pieces = text::split_on(p, '/');
    reveal_strlit(".");
    reveal_strlit("..");
    assert(name != "."@ && name != ".."@);
    reveal(Seq::filter);
    assert(pieces.last() == name);
    assert(pieces.filter(keep) == pieces.drop_last().filter(keep).push(name));
    let one = seq![name];
    assert(one.drop_last() =~= Seq::empty());
    assert(one.filter(keep) == one.drop_last().filter(keep).push(name));
}

proof fn lemma_last_dot(stem: Seq<char>, ending: Seq<char>)
    requires
        forall|i: int| 0 <= i < ending.len() ==> #[trigger] ending[i] != '.',
    ensures
        path::last_dot(stem.push('.') + ending) == Some(stem.len() as int),
    decreases ending.len(),
{
    let name = stem.push('.') + ending;
    if ending.len() == 0 {
        assert(name =~= stem.push('.'));
    } else {
        assert(name.last() == ending.last());
        assert(name.drop_last() =~= stem.push('.') + ending.drop_last());
        assert forall|i: int| 0 <= i < ending.drop_last().len() implies #[trigger] ending.drop_last()[
            i
        ] != '.' by {
            assert(ending[i] != '.');
        }
        lemma_last_dot(stem, ending.drop_last());
    }
}

/// The arguments of a process as its raw command line writes them: each ends with a zero
/// byte.
pub open spec fn raw_line(args: Seq<Seq<u8>>) -> Seq<u8>
    decreases args.len(),
{
    if args.len() == 0 {
        Seq::empty()
    } else {
        raw_line(args.drop_last()) + args.last().push(0)
    }
}

proof fn lemma_run(front: Seq<u8>, a: Seq<u8>)
    requires
        forall|i: int| 0 <= i < a.len() ==> #[trigger] a[i] != 0,
        byte_runs(front, 0).len() > 0,
        byte_runs(front, 0).last().len() == 0,
    ensures
        byte_runs(front + a, 0) == byte_runs(front, 0).drop_last().push(a),
    decreases a.len(),
{
    let runs = byte_runs(front, 0);
    if a.len() == 0 {
        assert(front + a =~= front);
        assert(runs.last() =~= a);
        assert(runs.drop_last().push(a) =~= runs);
    } else {
        let b = a.drop_last();
        assert forall|i: int| 0 <= i < b.len() implies #[trigger] b[i] != 0 by {
            assert(a[i] != 0);
        }
        lemma_run(front, b);
        assert((front + a).drop_last() =~= front + b);
        assert(a[a.len() - 1] != 0);
        assert(b.push(a.last()) =~= a);
        let all = byte_runs(front + b, 0);
        assert(all.update(all.len() - 1, all.last().push(a.last())) =~= runs.drop_last().push(a));
    }
}

/// The arguments of a raw command line read as what their bytes say, one by one.
pub proof fn arguments_read_back(args: Seq<Seq<u8>>)
    requires
        forall|k: int|
            0 <= k < args.len() ==> (#[trigger] args[k]).len() > 0 && !args[k].contains(0u8),
    ensures
        arguments(byte_runs(raw_line(args), 0)) == args.map_values(
            |a: Seq<u8>| text::utf8_lossy(a),
        ),
        byte_runs(raw_line(args), 0).len() > 0,
        byte_runs(raw_line(args), 0).last().len() == 0,
        byte_runs(raw_line(args), 0) == args.push(Seq::empty()),
    decreases args.len(),
{
    let f = |a: Seq<u8>| text::utf8_lossy(a);
    let raw = raw_line(args);
    let runs = byte_runs(raw, 0);
    if args.len() == 0 {
        assert(runs =~= args.push(Seq::empty()));
        assert(runs.drop_last() =~= Seq::empty());
        assert(arguments(runs.drop_last()) =~= Seq::empty());
        assert(arguments(runs) =~= args.map_values(f));
    } else {
        let front = args.drop_last();
        let a = args.last();
        assert(args[args.len() - 1] == a);
        assert forall|k: int| 0 <= k < front.len() implies (#[trigger] front[k]).len() > 0
            && !front[k].contains(0u8) by {
            assert(args[k].len() > 0);
        }
        arguments_read_back(front);
        let before = raw_line(front);
        assert forall|i: int| 0 <= i < a.len() implies #[trigger] a[i] != 0 by {
            if a[i] == 0 {
                assert(a.contains(0u8));
            }
        }
        lemma_run(before, a);
        assert(raw =~= (before + a).push(0));
        assert(raw.drop_last() =~= before + a);
        let with_a = byte_runs(before + a, 0);
        assert(front.push(Seq::<u8>::empty()).drop_last() =~= front);
        assert(with_a =~= front.push(a));
        assert(front.push(a) =~= args);
        assert(runs =~= args.push(Seq::empty()));
        lemma_arguments(args);
        assert(runs.drop_last() =~= args);
        assert(arguments(runs) == arguments(args));
    }
}

proof fn lemma_arguments(args: Seq<Seq<u8>>)
    requires
        forall|k: int| 0 <= k < args.len() ==> (#[trigger] args[k]).len() > 0,
    ensures
        arguments(args) == args.map_values(|a: Seq<u8>| text::utf8_lossy(a)),
    decreases args.len(),
{
    let f = |a: Seq<u8>| text::utf8_lossy(a);
    if args.len() > 0 {
        let front = args.drop_last();
        assert(args[args.len() - 1] == args.last());
        assert forall|k: int| 0 <= k < front.len() implies (#[trigger] front[k]).len() > 0 by {
            assert(args[k].len() > 0);
        }
        lemma_arguments(front);
        assert(front.map_values(f).push(text::utf8_lossy(args.last())) =~= args.map_values(f));
    } else {
        assert(arguments(args) =~= args.map_values(f));
    }
}

/// An address is one of a routing table where a line of it, without the white space
/// around it, is the mark and then the address.
pub proof fn addresses_stand_behind_their_marks(lines: Seq<Seq<char>>, n: int, address: Seq<char>)
    requires
        0 <= n <= lines.len(),
    ensures
        addresses_upto(lines, n).contains(address) <==> exists|k: int|
            0 <= k < n && text::trimmed(#[trigger] lines[k]) == "|-- "@ + address,
    decreases n,
{
    reveal_strlit("|-- ");
    let mark = "|-- "@;
    if n > 0 {
        addresses_stand_behind_their_marks(lines, n - 1, address);
        let before = addresses_upto(lines, n - 1);
        let all = addresses_upto(lines, n);
        let line = text::trimmed(lines[n - 1]);
        if text::has_prefix(line, mark) {
            let told = line.skip(4);
            assert(line =~= mark + told);
            assert(all == before.push(told));
            if line == mark + address {
                assert(told =~= address);
                assert(all[before.len() as int] == address);
            }
            if before.contains(address) {
                let i = choose|i: int| 0 <= i < before.len() && before[i] == address;
                assert(all[i] == address);
            }
            if all.contains(address) {
                let i = choose|i: int| 0 <= i < all.len() && all[i] == address;
                if i < before.len() {
                    assert(before[i] == address);
                    assert(before.contains(address));
                    let k = choose|k: int|
                        0 <= k < n - 1 && text::trimmed(#[trigger] lines[k]) == mark + address;
                    assert(0 <= k < n && text::trimmed(lines[k]) == mark + address);
                } else {
                    assert(text::trimmed(lines[n - 1]) == mark + address);
                }
            }
        } else {
            if line == mark + address {
                assert(line.subrange(0, 4) =~= mark);
            }
            if all.contains(address) {
                let k = choose|k: int|
                    0 <= k < n - 1 && text::trimmed(#[trigger] lines[k]) == mark + address;
                assert(0 <= k < n && text::trimmed(lines[k]) == mark + address);
            }
        }
        if exists|k: int| 0 <= k < n && text::trimmed(#[trigger] lines[k]) == mark + address {
            let k = choose|k: int|
                0 <= k < n && text::trimmed(#[trigger] lines[k]) == mark + address;
            if k < n - 1 {
                assert(text::trimmed(lines[k]) == mark + address);
                assert(before.contains(address));
            }
        }
    }
}

/// A measurement with one digit after the point is the nearest such number.
pub proof fn tenths_are_the_nearest(n: u64, unit: u64)
    requires
        20 <= unit,
        unit % 10 == 0,
    ensures
        exists|t: int|
            #![trigger text::decimal((t / 10) as nat)]
            0 <= t && -(unit as int) <= 20 * n - 2 * t * unit <= unit && micro::tenths_text(n, unit)
                == text::decimal((t / 10) as nat) + "."@ + text::decimal((t % 10) as nat),
{
    let tenth = unit as int / 10;
    let t = micro::nearest(n as int, tenth);
    crate::laws::rates::rounding_is_to_the_nearest(n as int, tenth);
    assert(10 * tenth == unit);
    assert(2 * t * unit == 20 * (t * tenth)) by (nonlinear_arith)
        requires
            10 * tenth == unit,
    ;
    assert(t >= 0) by (nonlinear_arith)
        requires
            -tenth <= 2 * (n - t * tenth) <= tenth,
            tenth >= 2,
            n >= 0,
    ;
    assert(text::decimal((t / 10) as nat) == text::decimal((t / 10) as nat));
}

/// Only numbers that are not negative are counts, and only texts are texts: the first
/// entry with a key decides, whatever follows.
pub proof fn other_values_count_for_nothing(
    entries: Seq<(Seq<char>, Value)>,
    key: Seq<char>,
    i: int,
)
    requires
        0 <= i < entries.len(),
        entries[i].0 == key,
        silent_before(entries, key, i),
    ensures
        entries[i].1 is S ==> count_under(entries, key) is None,
        entries[i].1 is B ==> count_under(entries, key) is None,
        entries[i].1 is Other ==> count_under(entries, key) is None,
        entries[i].1 is I && entries[i].1->I_0 < 0 ==> count_under(entries, key) is None,
        entries[i].1 is I && 0 <= entries[i].1->I_0 <= usize::MAX ==> count_under(entries, key)
            == Some(entries[i].1->I_0 as usize),
        entries[i].1 is U && entries[i].1->U_0 <= usize::MAX ==> count_under(entries, key) == Some(
            entries[i].1->U_0 as usize,
        ),
        entries[i].1 is F32 && entries[i].1->F32_0.nan() ==> count_under(entries, key) is None,
        entries[i].1 is F32 && entries[i].1->F32_0.value() < 0 ==> count_under(entries, key) is None,
        entries[i].1 is F64 && entries[i].1->F64_0.nan() ==> count_under(entries, key) is None,
        entries[i].1 is S ==> text_under(entries, key) == Some(entries[i].1->S_0),
        !(entries[i].1 is S) ==> text_under(entries, key) is None,
{
    crate::laws::model_fields::the_first_entry_decides(entries, key, i);
}

/// What stands before the first of some words is all that comes before it, and a text
/// without the word is left whole.
pub proof fn what_comes_before_the_first_word(a: Seq<char>, p: Seq<char>, b: Seq<char>)
    requires
        p.len() > 0,
        forall|j: int| 0 <= j < a.len() ==> !#[trigger] text::has_at(a + p + b, p, j),
    ensures
        text::before(a + p + b, p) == a,
        !text::has_part(b, p) ==> text::before(b, p) == b,
{
    let s = a + p + b;
    assert(s.subrange(a.len() as int, a.len() + p.len() as int) =~= p);
    assert(text::has_at(s, p, a.len() as int));
    lemma_first_at(s, p, a.len() as int, 0);
    assert(s.take(a.len() as int) =~= a);
}

proof fn lemma_first_at(s: Seq<char>, p: Seq<char>, k: int, i: int)
    requires
        0 <= i <= k <= s.len(),
        text::has_at(s, p, k),
        forall|j: int| 0 <= j < k ==> !#[trigger] text::has_at(s, p, j),
    ensures
        text::first_at(s, p, i) == k,
    decreases k - i,
{
    if i < k {
        assert(!text::has_at(s, p, i));
        lemma_first_at(s, p, k, i + 1);
    }
}

/// Copies of a word at the front or at the end are stripped, all of them, and nothing
/// else.
pub proof fn copies_are_stripped(s: Seq<char>, p: Seq<char>)
    requires
        p.len() > 0,
    ensures
        text::strip_all_prefix(p + s, p) == text::strip_all_prefix(s, p),
        text::strip_all_suffix(s + p, p) == text::strip_all_suffix(s, p),
        !text::has_prefix(s, p) ==> text::strip_all_prefix(s, p) == s,
        !text::has_suffix(s, p) ==> text::strip_all_suffix(s, p) == s,
{
    let a = p + s;
    assert(a.subrange(0, p.len() as int) =~= p);
    assert(a.skip(p.len() as int) =~= s);
    let b = s + p;
    assert(b.subrange(s.len() as int, s.len() + p.len() as int) =~= p);
    assert(b.len() - p.len() == s.len());
    assert(b.take(s.len() as int) =~= s);
}

/// Letters change their case and nothing else does.
pub proof fn letters_change_their_case(c: char)
    ensures
        'A' <= c <= 'Z' ==> text::lower(c) as int == c as int + 32 && text::upper(c) == c,
        'a' <= c <= 'z' ==> text::upper(c) as int == c as int - 32 && text::lower(c) == c,
        !('A' <= c <= 'Z') && !('a' <= c <= 'z') ==> text::lower(c) == c && text::upper(c) == c,
{
}

} // verus!

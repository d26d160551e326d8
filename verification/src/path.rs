//! File names in slash-separated paths.
use crate::text;
use vstd::prelude::*;

verus! {

/// A piece between slashes that names something: neither nothing nor the
/// directory itself.
pub open spec fn names_something(piece: Seq<char>) -> bool {
    piece.len() > 0 && piece != "."@
}

/// The pieces of a path that name something.
pub open spec fn components(path: Seq<char>) -> Seq<Seq<char>> {
    text::split_on(path, '/').filter(|c: Seq<char>| names_something(c))
}

/// The last component of a path, unless that is the parent directory.
pub open spec fn file_name(path: Seq<char>) -> Option<Seq<char>> {
    let parts = components(path);
    if parts.len() == 0 || parts.last() == ".."@ {
        None
    } else {
        Some(parts.last())
    }
}

/// The position of the last dot.
pub open spec fn last_dot(name: Seq<char>) -> Option<int>
    decreases name.len(),
{
    if name.len() == 0 {
        None
    } else if name.last() == '.' {
        Some(name.len() - 1)
    } else {
        last_dot(name.drop_last())
    }
}

/// A file name without its extension. A name that only starts with a dot has
/// no extension.
pub open spec fn stem(name: Seq<char>) -> Seq<char> {
    match last_dot(name) {
        Some(i) if i > 0 => name.take(i),
        _ => name,
    }
}

pub open spec fn file_stem(path: Seq<char>) -> Option<Seq<char>> {
    match file_name(path) {
        Some(name) => Some(stem(name)),
        None => None,
    }
}

/// What follows the last dot of a path's file name.
pub open spec fn extension(path: Seq<char>) -> Option<Seq<char>> {
    match file_name(path) {
        Some(name) => match last_dot(name) {
            Some(i) if i > 0 => Some(name.skip(i + 1)),
            _ => None,
        },
        None => None,
    }
}

/// The last component of `path`, unless that is the parent directory.
pub fn file_name_of(path: &[char]) -> (r: Option<Vec<char>>)
    ensures
        r is Some <==> file_name(path@) is Some,
        r matches Some(n) ==> file_name(path@) == Some(n@),
{
    let pieces = text::split(path, '/');
    let ghost all = text::texts(pieces@);
    let ghost keep = |c: Seq<char>| names_something(c);
    let mut last: Option<usize> = None;
    let mut i: usize = 0;
    proof {
        reveal(Seq::filter);
        assert(all.take(0).filter(keep) =~= Seq::<Seq<char>>::empty());
    }
    while i < pieces.len()
        invariant
            i <= pieces.len(),
            all == text::texts(pieces@),
            last is Some <==> all.take(i as int).filter(keep).len() > 0,
            last matches Some(j) ==> j < pieces.len() && pieces@[j as int]@ == all.take(
                i as int,
            ).filter(keep).last(),
            keep == (|c: Seq<char>| names_something(c)),
        decreases pieces.len() - i,
    {
        proof {
            reveal(Seq::filter);
            assert(all.take(i + 1).drop_last() =~= all.take(i as int));
            assert(all.take(i + 1).last() == pieces@[i as int]@);
        }
        if pieces[i].len() > 0 && !text::is_text(&pieces[i], ".") {
            last = Some(i);
        }
        i += 1;
    }
    assert(all.take(all.len() as int) =~= all);
    match last {
        Some(j) => if text::is_text(&pieces[j], "..") {
            None
        } else {
            let name = text::part(&pieces[j], 0, pieces[j].len());
            assert(name@ =~= pieces@[j as int]@);
            Some(name)
        },
        None => None,
    }
}

/// The position of the last dot of `name`.
pub fn last_dot_of(name: &[char]) -> (r: Option<usize>)
    ensures
        r is Some <==> last_dot(name@) is Some,
        r matches Some(i) ==> i < name.len() && last_dot(name@) == Some(i as int),
{
    let mut n: usize = name.len();
    assert(name@.take(n as int) =~= name@);
    while n > 0
        invariant
            n <= name.len(),
            last_dot(name@.take(n as int)) == last_dot(name@),
        decreases n,
    {
        if name[n - 1] == '.' {
            return Some(n - 1);
        }
        assert(name@.take(n as int).drop_last() =~= name@.take(n - 1));
        n -= 1;
    }
    None
}

pub fn file_stem_of(path: &[char]) -> (r: Option<Vec<char>>)
    ensures
        r is Some <==> file_stem(path@) is Some,
        r matches Some(n) ==> file_stem(path@) == Some(n@),
{
    match file_name_of(path) {
        None => None,
        Some(name) => match last_dot_of(&name) {
            Some(i) if i > 0 => {
                let s = text::part(&name, 0, i);
                assert(s@ =~= name@.take(i as int));
                Some(s)
            },
            _ => Some(name),
        },
    }
}

pub fn extension_of(path: &[char]) -> (r: Option<Vec<char>>)
    ensures
        r is Some <==> extension(path@) is Some,
        r matches Some(n) ==> extension(path@) == Some(n@),
{
    match file_name_of(path) {
        None => None,
        Some(name) => match last_dot_of(&name) {
            Some(i) if i > 0 => {
                let s = text::part(&name, i + 1, name.len());
                assert(s@ =~= name@.skip(i + 1));
                Some(s)
            },
            _ => None,
        },
    }
}

} // verus!

//! String helpers shared by the registry and the review store: comparison,
//! decimal numerals and file-name-safe renderings of repository paths.

use vstd::prelude::*;
use vstd::std_specs::iter::IteratorSpec;

verus! {

/// `String::push` appends exactly one character to the end of the string.
pub assume_specification[ String::push ](s: &mut String, c: char)
    ensures
        final(s)@ == old(s)@.push(c),
;

/// Whether both slices spell the same characters.
pub(crate) fn str_eq(a: &str, b: &str) -> (same: bool)
    ensures
        same == (a@ == b@),
{
    broadcast use vstd::string::group_string_axioms;

    let mut left = a.chars();
    let mut right = b.chars();
    let ghost mut seen: int = 0;
    loop
        invariant
            0 <= seen <= a@.len(),
            seen <= b@.len(),
            left.obeys_prophetic_iter_laws(),
            right.obeys_prophetic_iter_laws(),
            left.remaining() == a@.skip(seen),
            right.remaining() == b@.skip(seen),
            a@.take(seen) == b@.take(seen),
        decreases a@.len() - seen,
    {
        let x = left.next();
        let y = right.next();
        match (x, y) {
            (None, None) => {
                assert(a@ =~= a@.take(seen));
                assert(b@ =~= b@.take(seen));
                return true;
            },
            (Some(c), Some(d)) => {
                if c != d {
                    assert(a@[seen] != b@[seen]);
                    return false;
                }
                proof {
                    assert(a@.take(seen + 1) =~= a@.take(seen).push(a@[seen]));
                    assert(b@.take(seen + 1) =~= b@.take(seen).push(b@[seen]));
                    assert(a@.skip(seen).drop_first() =~= a@.skip(seen + 1));
                    assert(b@.skip(seen).drop_first() =~= b@.skip(seen + 1));
                    seen = seen + 1;
                }
            },
            _ => {
                assert(a@.len() != b@.len());
                return false;
            },
        }
    }
}

/// The decimal digit character for `d`, where `d < 10`.
pub open spec fn digit(d: nat) -> char {
    seq!['0', '1', '2', '3', '4', '5', '6', '7', '8', '9'][d as int]
}

/// The decimal numeral of `n`, without sign or leading zeros.
pub open spec fn decimal(n: nat) -> Seq<char>
    decreases n,
{
    if n < 10 {
        seq![digit(n)]
    } else {
        decimal(n / 10).push(digit(n % 10))
    }
}

/// A numeral has at least one character, all of them digits, and more
/// than one exactly when the number is ten or more.
pub proof fn lemma_decimal_shape(n: nat)
    ensures
        decimal(n).len() >= 1,
        decimal(n).len() == 1 <==> n < 10,
        forall|i: int| 0 <= i < decimal(n).len() ==> #[trigger] decimal(n)[i] != '-',
    decreases n,
{
    if n >= 10 {
        lemma_decimal_shape(n / 10);
    }
}

/// Different numbers have different numerals.
pub proof fn lemma_decimal_is_injective(a: nat, b: nat)
    requires
        decimal(a) == decimal(b),
    ensures
        a == b,
    decreases a,
{
    lemma_decimal_shape(a);
    lemma_decimal_shape(b);
    if a >= 10 {
        let front_a = decimal(a / 10);
        let front_b = decimal(b / 10);
        assert(front_a =~= decimal(a).drop_last());
        assert(front_b =~= decimal(b).drop_last());
        assert(digit(a % 10) == decimal(a).last());
        assert(digit(b % 10) == decimal(b).last());
        lemma_decimal_is_injective(a / 10, b / 10);
    } else {
        assert(digit(a) == decimal(a)[0]);
        assert(digit(b) == decimal(b)[0]);
    }
}

fn digit_char(d: u64) -> (c: char)
    requires
        d < 10,
    ensures
        c == digit(d as nat),
{
    if d == 0 {
        '0'
    } else if d == 1 {
        '1'
    } else if d == 2 {
        '2'
    } else if d == 3 {
        '3'
    } else if d == 4 {
        '4'
    } else if d == 5 {
        '5'
    } else if d == 6 {
        '6'
    } else if d == 7 {
        '7'
    } else if d == 8 {
        '8'
    } else {
        '9'
    }
}

/// Appends the decimal numeral of `n` to `out`.
pub fn push_decimal(out: &mut String, n: u64)
    ensures
        final(out)@ == old(out)@ + decimal(n as nat),
    decreases n,
{
    if n >= 10 {
        push_decimal(out, n / 10);
    }
    out.push(digit_char(n % 10));
}

/// The character that stands for `c` in a file name: path separators and
/// colons become underscores.
pub open spec fn safe_char(c: char) -> char {
    if c == '/' || c == '\\' || c == ':' {
        '_'
    } else {
        c
    }
}

/// `path` with every character replaced by its file-name-safe stand-in.
pub open spec fn safe_name(path: Seq<char>) -> Seq<char> {
    Seq::new(path.len(), |i: int| safe_char(path[i]))
}

/// Appends the file-name-safe rendering of `path` to `out`.
pub fn push_safe_name(out: &mut String, path: &str)
    ensures
        final(out)@ == old(out)@ + safe_name(path@),
{
    broadcast use vstd::string::group_string_axioms;

    let ghost start = out@;
    for c in it: path.chars()
        invariant
            it.seq() == path@,
            out@ == start + safe_name(path@).take(it.index() as int),
    {
        let safe = if c == '/' || c == '\\' || c == ':' {
            '_'
        } else {
            c
        };
        out.push(safe);
    }
}

/// `dir` extended by the relative file name `name`, with one separator
/// between them unless `dir` is empty or already ends in one.
pub open spec fn joined(dir: Seq<char>, name: Seq<char>) -> Seq<char> {
    if dir.len() == 0 {
        name
    } else if dir.last() == '/' {
        dir + name
    } else {
        dir + seq!['/'] + name
    }
}

/// Whether the last character of `s` is `c`.
pub fn ends_with_char(s: &str, c: char) -> (yes: bool)
    ensures
        yes == (s@.len() > 0 && s@.last() == c),
{
    broadcast use vstd::string::group_string_axioms;

    let mut yes = false;
    for d in it: s.chars()
        invariant
            it.seq() == s@,
            yes == (it.index() > 0 && s@[it.index() - 1] == c),
    {
        yes = d == c;
    }
    yes
}

} // verus!

//! Comma-separated name lists, as carried in discovery entries.

use vstd::prelude::*;
use vstd::string::*;

verus! {

/// `parts` joined with `sep` between consecutive parts.
pub open spec fn join_with(parts: Seq<Seq<char>>, sep: Seq<char>) -> Seq<char>
    decreases parts.len(),
{
    if parts.len() == 0 {
        Seq::empty()
    } else if parts.len() == 1 {
        parts[0]
    } else {
        join_with(parts.drop_last(), sep) + sep + parts.last()
    }
}

/// The views of a list of strings.
pub open spec fn string_views(v: Seq<String>) -> Seq<Seq<char>> {
    Seq::new(v.len(), |i: int| v[i]@)
}

/// No part contains `sep`.
pub open spec fn free_of(parts: Seq<Seq<char>>, sep: char) -> bool {
    forall|i: int, j: int| 0 <= i < parts.len() && 0 <= j < parts[i].len() ==> parts[i][j] != sep
}

/// Joining one more part appends the separator and the part.
proof fn lemma_join_push(parts: Seq<Seq<char>>, p: Seq<char>, sep: Seq<char>)
    requires
        parts.len() > 0,
    ensures
        join_with(parts.push(p), sep) == join_with(parts, sep) + sep + p,
{
    assert(parts.push(p).drop_last() =~= parts);
}

/// Split `s` on `,` into the names it lists; the empty string lists none.
///
/// The names are the comma-free pieces whose comma-join is `s`.
pub fn split_names(s: &str) -> (names: Vec<String>)
    ensures
        s@.len() == 0 ==> names@.len() == 0,
        s@.len() > 0 ==> join_with(string_views(names@), seq![',']) == s@,
        free_of(string_views(names@), ','),
{
    let n = s.unicode_len();
    let mut names: Vec<String> = Vec::new();
    if n == 0 {
        assert(free_of(string_views(names@), ',')) by {
            assert(string_views(names@) =~= Seq::<Seq<char>>::empty());
        }
        return names;
    }
    let mut start: usize = 0;
    let mut i: usize = 0;
    while i < n
        invariant
            n == s@.len() > 0,
            start <= i <= n,
            names@.len() == 0 ==> start == 0,
            names@.len() > 0 ==> join_with(string_views(names@), seq![',']) + seq![','] == s@.subrange(
                0,
                start as int,
            ),
            forall|j: int| start <= j < i ==> s@[j] != ',',
            free_of(string_views(names@), ','),
        decreases n - i,
    {
        if s.get_char(i) == ',' {
            let piece = s.substring_char(start, i).to_owned();
            let ghost before = string_views(names@);
            names.push(piece);
            proof {
                let after = string_views(names@);
                assert(after =~= before.push(s@.subrange(start as int, i as int)));
                if before.len() > 0 {
                    lemma_join_push(before, s@.subrange(start as int, i as int), seq![',']);
                } else {
                    assert(after.len() == 1);
                }
                assert(join_with(after, seq![',']) + seq![','] =~= s@.subrange(0, i + 1));
            }
            start = i + 1;
        }
        i += 1;
    }
    let piece = s.substring_char(start, n).to_owned();
    let ghost before = string_views(names@);
    names.push(piece);
    proof {
        let after = string_views(names@);
        assert(after =~= before.push(s@.subrange(start as int, n as int)));
        if before.len() > 0 {
            lemma_join_push(before, s@.subrange(start as int, n as int), seq![',']);
        }
        assert(join_with(after, seq![',']) =~= s@);
    }
    names
}

/// Join `names` with `sep` between consecutive names.
pub fn join_names(names: &Vec<String>, sep: &str) -> (s: String)
    ensures
        s@ == join_with(string_views(names@), sep@),
{
    let mut s = String::new();
    let mut i: usize = 0;
    while i < names.len()
        invariant
            i <= names@.len(),
            s@ == join_with(string_views(names@).subrange(0, i as int), sep@),
        decreases names@.len() - i,
    {
        let ghost done = string_views(names@).subrange(0, i as int);
        if i > 0 {
            s.append(sep);
        }
        s.append(names[i].as_str());
        proof {
            let next = string_views(names@).subrange(0, i + 1);
            assert(next =~= done.push(names@[i as int]@));
            if i > 0 {
                lemma_join_push(done, names@[i as int]@, sep@);
            } else {
                assert(next.len() == 1);
            }
        }
        i += 1;
    }
    assert(string_views(names@).subrange(0, names@.len() as int) =~= string_views(names@));
    s
}

/// Two comma-free lists with the same comma-join are equal, provided the
/// join is nonempty or both lists have at least one part.
proof fn lemma_join_injective(a: Seq<Seq<char>>, b: Seq<Seq<char>>)
    requires
        a.len() > 0,
        b.len() > 0,
        free_of(a, ','),
        free_of(b, ','),
        join_with(a, seq![',']) == join_with(b, seq![',']),
    ensures
        a == b,
    decreases a.len() + b.len(),
{
    let ja = join_with(a, seq![',']);
    if a.len() == 1 && b.len() == 1 {
    } else if a.len() == 1 {
        let jb1 = join_with(b.drop_last(), seq![',']);
        assert(ja[jb1.len() as int] == ',');
        assert(a[0][jb1.len() as int] == ',');
    } else if b.len() == 1 {
        let ja1 = join_with(a.drop_last(), seq![',']);
        assert(ja[ja1.len() as int] == ',');
        assert(b[0][ja1.len() as int] == ',');
    } else {
        let la = a.last();
        let lb = b.last();
        let ja1 = join_with(a.drop_last(), seq![',']);
        let jb1 = join_with(b.drop_last(), seq![',']);
        if la.len() < lb.len() {
            let k = lb.len() - la.len() - 1;
            assert(ja[ja1.len() as int] == ',');
            assert(ja[jb1.len() + 1 + k] == lb[k]);
        } else if lb.len() < la.len() {
            let k = la.len() - lb.len() - 1;
            assert(ja[jb1.len() as int] == ',');
            assert(ja[ja1.len() + 1 + k] == la[k]);
        } else {
            assert(la =~= ja.subrange(ja1.len() + 1int, ja.len() as int));
            assert(lb =~= ja.subrange(jb1.len() + 1int, ja.len() as int));
            assert(ja1 =~= ja.subrange(0, ja1.len() as int));
            assert(jb1 =~= ja.subrange(0, jb1.len() as int));
            lemma_join_injective(a.drop_last(), b.drop_last());
            assert(a =~= a.drop_last().push(la));
            assert(b =~= b.drop_last().push(lb));
        }
    }
}

/// Splitting a comma-join of comma-free names gives the names back, unless
/// the list is a single empty name (whose join is empty, like that of no
/// names).
pub proof fn lemma_split_join_roundtrip(names: Seq<Seq<char>>, split: Seq<Seq<char>>)
    requires
        free_of(names, ','),
        !(names.len() == 1 && names[0].len() == 0),
        join_with(names, seq![',']).len() == 0 ==> split.len() == 0,
        join_with(names, seq![',']).len() > 0 ==> join_with(split, seq![',']) == join_with(names, seq![',']),
        free_of(split, ','),
    ensures
        split == names,
{
    if names.len() == 0 {
        assert(split =~= names);
    } else if join_with(names, seq![',']).len() == 0 {
        lemma_join_len(names);
    } else {
        if split.len() == 0 {
            assert(join_with(split, seq![',']).len() == 0);
        }
        lemma_join_injective(split, names);
    }
}

/// The join of two or more parts is nonempty; so is that of one nonempty part.
proof fn lemma_join_len(parts: Seq<Seq<char>>)
    requires
        parts.len() > 0,
    ensures
        parts.len() >= 2 ==> join_with(parts, seq![',']).len() > 0,
        join_with(parts, seq![',']).len() >= parts.last().len(),
{
}

/// Decimal digit character of `d` (below 10).
pub open spec fn decimal_digit(d: nat) -> char {
    ((d + '0' as nat) as u32) as char
}

/// Decimal text of `n`, without leading zeros (`0` for zero).
pub open spec fn decimal_text(n: nat) -> Seq<char>
    decreases n,
{
    if n < 10 {
        seq![decimal_digit(n)]
    } else {
        decimal_text(n / 10).push(decimal_digit(n % 10))
    }
}

/// The decimal digit of `d` as a string.
fn digit_str(d: u64) -> (s: &'static str)
    requires
        d < 10,
    ensures
        s@ == seq![decimal_digit(d as nat)],
{
    proof {
        reveal_strlit("0");
        reveal_strlit("1");
        reveal_strlit("2");
        reveal_strlit("3");
        reveal_strlit("4");
        reveal_strlit("5");
        reveal_strlit("6");
        reveal_strlit("7");
        reveal_strlit("8");
        reveal_strlit("9");
    }
    if d == 0 {
        "0"
    } else if d == 1 {
        "1"
    } else if d == 2 {
        "2"
    } else if d == 3 {
        "3"
    } else if d == 4 {
        "4"
    } else if d == 5 {
        "5"
    } else if d == 6 {
        "6"
    } else if d == 7 {
        "7"
    } else if d == 8 {
        "8"
    } else {
        "9"
    }
}

/// Append the decimal text of `n` to `s`.
pub fn push_decimal(s: &mut String, n: u64)
    ensures
        final(s)@ == old(s)@ + decimal_text(n as nat),
    decreases n,
{
    if n >= 10 {
        push_decimal(s, n / 10);
    }
    s.append(digit_str(n % 10));
    proof {
        if n >= 10 {
            assert(old(s)@ + decimal_text(n as nat) =~= old(s)@ + decimal_text((n / 10) as nat)
                + seq![decimal_digit((n % 10) as nat)]);
        }
    }
}

/// Append the decimal text of the 128-bit `n` to `s`.
pub fn push_decimal_u128(s: &mut String, n: u128)
    ensures
        final(s)@ == old(s)@ + decimal_text(n as nat),
    decreases n,
{
    if n >= 10 {
        push_decimal_u128(s, n / 10);
    }
    s.append(digit_str((n % 10) as u64));
    proof {
        if n >= 10 {
            assert(old(s)@ + decimal_text(n as nat) =~= old(s)@ + decimal_text((n / 10) as nat)
                + seq![decimal_digit((n % 10) as nat)]);
        }
    }
}

} // verus!

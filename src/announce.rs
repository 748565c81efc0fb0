//! The text that announces a round in the chat room.

use vstd::prelude::*;

verus! {

/// The character of a decimal digit.
pub open spec fn digit(d: nat) -> char {
    if d == 0 {
        '0'
    } else if d == 1 {
        '1'
    } else if d == 2 {
        '2'
    } else if d == 3 {
        '3'
    } else if d == 4 {
        '4'
    } else if d == 5 {
        '5'
    } else if d == 6 {
        '6'
    } else if d == 7 {
        '7'
    } else if d == 8 {
        '8'
    } else {
        '9'
    }
}

/// `n` in decimal, without leading zeros.
pub open spec fn decimal(n: nat) -> Seq<char>
    decreases n,
{
    if n < 10 {
        seq![digit(n)]
    } else {
        decimal(n / 10).push(digit(n % 10))
    }
}

/// The line for the `k`-th group: its number, then each name after an `@`,
/// the last joined by "and", the others by commas.
pub open spec fn group_line(k: nat, g: Seq<Seq<char>>) -> Seq<char> {
    if g.len() == 2 {
        decimal(k) + ". @"@ + g[0] + " and @"@ + g[1] + "\n"@
    } else {
        decimal(k) + ". @"@ + g[0] + ", @"@ + g[1] + " and @"@ + g[2] + "\n"@
    }
}

/// The lines for `groups`, numbered from `first`.
pub open spec fn group_lines(groups: Seq<Seq<Seq<char>>>, first: nat) -> Seq<char>
    decreases groups.len(),
{
    if groups.len() == 0 {
        Seq::empty()
    } else {
        group_lines(groups.drop_last(), first) + group_line(
            (first + groups.len() - 1) as nat,
            groups.last(),
        )
    }
}

/// The whole announcement of a round.
pub open spec fn announcement_text(groups: Seq<Seq<Seq<char>>>) -> Seq<char> {
    "bru time!\n\n"@ + group_lines(groups, 1)
}

fn digit_str(d: u64) -> (r: &'static str)
    requires
        d < 10,
    ensures
        r@ == seq![digit(d as nat)],
{
    if d == 0 {
        proof { reveal_strlit("0"); }
        "0"
    } else if d == 1 {
        proof { reveal_strlit("1"); }
        "1"
    } else if d == 2 {
        proof { reveal_strlit("2"); }
        "2"
    } else if d == 3 {
        proof { reveal_strlit("3"); }
        "3"
    } else if d == 4 {
        proof { reveal_strlit("4"); }
        "4"
    } else if d == 5 {
        proof { reveal_strlit("5"); }
        "5"
    } else if d == 6 {
        proof { reveal_strlit("6"); }
        "6"
    } else if d == 7 {
        proof { reveal_strlit("7"); }
        "7"
    } else if d == 8 {
        proof { reveal_strlit("8"); }
        "8"
    } else {
        proof { reveal_strlit("9"); }
        "9"
    }
}

/// Appends `n` in decimal.
pub fn push_decimal(out: &mut String, n: u64)
    ensures
        final(out)@ == old(out)@ + decimal(n as nat),
    decreases n,
{
    if n >= 10 {
        push_decimal(out, n / 10);
    }
    out.append(digit_str(n % 10));
    proof {
        if n >= 10 {
            assert(old(out)@ + decimal(n as nat) =~= old(out)@ + decimal((n / 10) as nat) + seq![
                digit((n % 10) as nat),
            ]);
        } else {
            assert(old(out)@ + decimal(n as nat) =~= old(out)@ + seq![digit((n % 10) as nat)]);
        }
    }
}

/// Appends the line for the `k`-th group, whose names are `names`.
pub fn push_group_line(out: &mut String, k: u64, names: &Vec<String>)
    requires
        names@.len() == 2 || names@.len() == 3,
    ensures
        final(out)@ == old(out)@ + group_line(k as nat, names@.map_values(|s: String| s@)),
{
    let ghost g = names@.map_values(|s: String| s@);
    push_decimal(out, k);
    proof { reveal_strlit(". @"); }
    out.append(". @");
    out.append(names[0].as_str());
    if names.len() == 3 {
        proof { reveal_strlit(", @"); }
        out.append(", @");
        out.append(names[1].as_str());
    }
    proof { reveal_strlit(" and @"); reveal_strlit("\n"); }
    out.append(" and @");
    out.append(names[names.len() - 1].as_str());
    out.append("\n");
    proof {
        assert(g[0] == names@[0]@);
        assert(g[1] == names@[1]@);
        if names@.len() == 3 {
            assert(g[2] == names@[2]@);
            assert(final(out)@ =~= old(out)@ + group_line(k as nat, g));
        } else {
            assert(final(out)@ =~= old(out)@ + group_line(k as nat, g));
        }
    }
}

} // verus!

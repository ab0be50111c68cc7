//! The pieces of text that the report is made of: numbers in decimal,
//! padding, and the name of a scope indented by its depth.

use vstd::prelude::*;
use vstd::string::StringExecFns;

verus! {

/// The character of the decimal digit `d`.
pub open spec fn digit(d: nat) -> char {
    if d == 0 {
        '0'
    } else if d == 1 {
        '1'
    } else if d == 2 {
        '2'
    } else if d == 3 {
        '3'
    } else if d == 4 {
        '4'
    } else if d == 5 {
        '5'
    } else if d == 6 {
        '6'
    } else if d == 7 {
        '7'
    } else if d == 8 {
        '8'
    } else {
        '9'
    }
}

/// `n` in decimal, without leading zeros.
pub open spec fn decimal(n: nat) -> Seq<char>
    decreases n,
{
    if n < 10 {
        seq![digit(n)]
    } else {
        decimal(n / 10).push(digit(n % 10))
    }
}

/// `n` spaces.
pub open spec fn spaces(n: nat) -> Seq<char> {
    Seq::new(n, |i: int| ' ')
}

/// The depth at which the indentation stops growing and names the depth
/// instead.
pub const DEEP: usize = 20;

/// The tag that names a depth: `(+`, the depth, `)` and a space.
pub open spec fn depth_tag(depth: nat) -> Seq<char> {
    seq!['(', '+'] + decimal(depth) + seq![')', ' ']
}

/// What stands before the name of a scope at `depth`: one space for each
/// level below 20; from there on the depth tag, padded with spaces on the
/// left to 20 characters.
pub open spec fn indent(depth: nat) -> Seq<char> {
    if depth >= 20 {
        let tag = depth_tag(depth);
        spaces(
            if tag.len() < 20 {
                (20 - tag.len()) as nat
            } else {
                0
            },
        ) + tag
    } else {
        spaces(depth)
    }
}

/// The name of a scope as the table shows it.
pub open spec fn formatted(depth: nat, name: Seq<char>) -> Seq<char> {
    indent(depth) + name
}

/// Only at depth zero is a name shown as it is.
pub proof fn lemma_formatted_root(depth: nat, name: Seq<char>)
    ensures
        formatted(depth, name) == name <==> depth == 0,
{
    if depth == 0 {
        assert(formatted(depth, name) =~= name);
    } else {
        assert(indent(depth).len() > 0);
        assert(formatted(depth, name).len() > name.len());
    }
}

/// The text of one decimal digit.
pub fn digit_text(d: u8) -> (text: &'static str)
    requires
        d < 10,
    ensures
        text@ == seq![digit(d as nat)],
{
    proof {
        reveal_strlit("0");
        reveal_strlit("1");
        reveal_strlit("2");
        reveal_strlit("3");
        reveal_strlit("4");
        reveal_strlit("5");
        reveal_strlit("6");
        reveal_strlit("7");
        reveal_strlit("8");
        reveal_strlit("9");
    }
    let text = if d == 0 {
        "0"
    } else if d == 1 {
        "1"
    } else if d == 2 {
        "2"
    } else if d == 3 {
        "3"
    } else if d == 4 {
        "4"
    } else if d == 5 {
        "5"
    } else if d == 6 {
        "6"
    } else if d == 7 {
        "7"
    } else if d == 8 {
        "8"
    } else {
        "9"
    };
    assert(text@ =~= seq![digit(d as nat)]);
    text
}

/// Appends `n` in decimal to `text`.
pub fn push_decimal(text: &mut String, n: u128)
    ensures
        final(text)@ == old(text)@ + decimal(n as nat),
    decreases n,
{
    if n >= 10 {
        push_decimal(text, n / 10);
    }
    let d: u8 = (n % 10) as u8;
    text.append(digit_text(d));
    proof {
        if n >= 10 {
            assert(final(text)@ =~= old(text)@ + decimal(n as nat / 10).push(digit(n as nat % 10)));
        } else {
            assert(final(text)@ =~= old(text)@ + seq![digit(n as nat)]);
        }
    }
}

/// Appends `n` spaces to `text`.
pub fn push_spaces(text: &mut String, n: usize)
    ensures
        final(text)@ == old(text)@ + spaces(n as nat),
{
    proof {
        reveal_strlit(" ");
    }
    let mut k: usize = 0;
    while k < n
        invariant
            k <= n,
            " "@ == seq![' '],
            text@ == old(text)@ + spaces(k as nat),
        decreases n - k,
    {
        text.append(" ");
        k = k + 1;
        assert(text@ =~= old(text)@ + spaces(k as nat));
    }
}

/// Appends the depth tag of `depth` to `text`.
pub fn push_depth_tag(text: &mut String, depth: usize)
    ensures
        final(text)@ == old(text)@ + depth_tag(depth as nat),
{
    proof {
        reveal_strlit("(+");
        reveal_strlit(") ");
    }
    text.append("(+");
    push_decimal(text, depth as u128);
    text.append(") ");
    assert(text@ =~= old(text)@ + depth_tag(depth as nat));
}

/// The name of the scope `name` at `depth` as the table shows it.
pub fn format_name(depth: usize, name: &String) -> (text: String)
    ensures
        text@ == formatted(depth as nat, name@),
{
    let mut text = String::new();
    if depth >= DEEP {
        let mut tag = String::new();
        push_depth_tag(&mut tag, depth);
        let width = tag.as_str().unicode_len();
        let pad = if width < DEEP {
            DEEP - width
        } else {
            0
        };
        push_spaces(&mut text, pad);
        text.append(tag.as_str());
        assert(text@ =~= indent(depth as nat));
    } else {
        push_spaces(&mut text, depth);
        assert(text@ =~= indent(depth as nat));
    }
    text.append(name.as_str());
    text
}

} // verus!

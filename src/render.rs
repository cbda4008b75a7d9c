use vstd::prelude::*;
use crate::tree::Tree;

verus! {

/// The decimal digit `d`, for `d < 10`.
pub open spec fn digit_char(d: nat) -> char {
    seq!['0', '1', '2', '3', '4', '5', '6', '7', '8', '9'][d as int]
}

/// The decimal digits of `n`, most significant first, without leading zeros.
pub open spec fn decimal(n: nat) -> Seq<char>
    decreases n,
{
    if n < 10 {
        seq![digit_char(n)]
    } else {
        decimal(n / 10).push(digit_char(n % 10))
    }
}

/// `v` in decimal, with a leading `-` when it is negative.
pub open spec fn signed_decimal(v: int) -> Seq<char> {
    if v < 0 {
        seq!['-'] + decimal((-v) as nat)
    } else {
        decimal(v as nat)
    }
}

/// The text of a tree: a leaf is its value; a node adds its children in braces,
/// the left one after `L` and the right one after `R`, as in `2 { L 1 R 3 }`.
pub open spec fn rendering(t: Tree<i32>) -> Seq<char>
    decreases t,
{
    let v = signed_decimal(t.value as int);
    match (t.left, t.right) {
        (Some(l), Some(r)) => v + " { L "@ + rendering(*l) + " R "@ + rendering(*r) + " }"@,
        (Some(l), None) => v + " { L "@ + rendering(*l) + " }"@,
        (None, Some(r)) => v + " { R "@ + rendering(*r) + " }"@,
        (None, None) => v,
    }
}

/// The text of the digit `d`.
fn digit_text(d: u32) -> (r: &'static str)
    requires
        d < 10,
    ensures
        r@ == seq![digit_char(d as nat)],
{
    proof {
        reveal_strlit("0");
        reveal_strlit("1");
        reveal_strlit("2");
        reveal_strlit("3");
        reveal_strlit("4");
        reveal_strlit("5");
        reveal_strlit("6");
        reveal_strlit("7");
        reveal_strlit("8");
        reveal_strlit("9");
    }
    let r = match d {
        0 => "0",
        1 => "1",
        2 => "2",
        3 => "3",
        4 => "4",
        5 => "5",
        6 => "6",
        7 => "7",
        8 => "8",
        _ => "9",
    };
    assert(r@ =~= seq![digit_char(d as nat)]);
    r
}

/// Appends the decimal digits of `n` to `out`.
fn append_decimal(out: &mut String, n: u32)
    ensures
        final(out)@ == old(out)@ + decimal(n as nat),
    decreases n,
{
    if n >= 10 {
        append_decimal(out, n / 10);
    }
    out.append(digit_text(n % 10));
    proof {
        if n >= 10 {
            assert(old(out)@ + decimal((n / 10) as nat) + seq![digit_char((n % 10) as nat)]
                =~= old(out)@ + decimal(n as nat));
        } else {
            assert(out@ =~= old(out)@ + decimal(n as nat));
        }
    }
}

/// Appends `v` in decimal to `out`.
fn append_signed(out: &mut String, v: i32)
    ensures
        final(out)@ == old(out)@ + signed_decimal(v as int),
{
    if v < 0 {
        proof {
            reveal_strlit("-");
        }
        out.append("-");
        let magnitude: u32 = (-(v as i64)) as u32;
        append_decimal(out, magnitude);
        assert(out@ =~= old(out)@ + signed_decimal(v as int));
    } else {
        append_decimal(out, v as u32);
    }
}

impl Tree<i32> {
    /// Appends the text of this tree to `out`.
    fn append_rendering(&self, out: &mut String)
        ensures
            final(out)@ == old(out)@ + rendering(*self),
        decreases self,
    {
        proof {
            reveal_strlit(" { L ");
            reveal_strlit(" { R ");
            reveal_strlit(" R ");
            reveal_strlit(" }");
        }
        append_signed(out, self.value);
        match (&self.left, &self.right) {
            (Some(l), Some(r)) => {
                out.append(" { L ");
                l.append_rendering(out);
                out.append(" R ");
                r.append_rendering(out);
                out.append(" }");
            },
            (Some(l), None) => {
                out.append(" { L ");
                l.append_rendering(out);
                out.append(" }");
            },
            (None, Some(r)) => {
                out.append(" { R ");
                r.append_rendering(out);
                out.append(" }");
            },
            (None, None) => {},
        }
        assert(out@ =~= old(out)@ + rendering(*self));
    }

    /// The text of this tree, as `rendering` gives it.
    pub fn render(&self) -> (r: String)
        ensures
            r@ == rendering(*self),
    {
        let mut out = String::new();
        self.append_rendering(&mut out);
        assert(out@ =~= rendering(*self));
        out
    }
}

} // verus!

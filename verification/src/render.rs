//! Textual rendering: decimal formatting of readings and the per-sample line
//! of the tree dump.

use crate::time::rfc3339_of;
use crate::time::rfc3339_of_instant;
use crate::time::valid_instant;
use crate::tree::Sample;
use vstd::prelude::*;
use vstd::string::*;

verus! {

/// The character for one decimal digit.
pub open spec fn digit_char(d: int) -> char {
    if d == 0 {
        '0'
    } else if d == 1 {
        '1'
    } else if d == 2 {
        '2'
    } else if d == 3 {
        '3'
    } else if d == 4 {
        '4'
    } else if d == 5 {
        '5'
    } else if d == 6 {
        '6'
    } else if d == 7 {
        '7'
    } else if d == 8 {
        '8'
    } else {
        '9'
    }
}

/// The decimal digits of a non-negative number, most significant first.
pub open spec fn decimal_digits(n: int) -> Seq<char>
    decreases n,
{
    if n < 10 {
        seq![digit_char(n)]
    } else {
        decimal_digits(n / 10).push(digit_char(n % 10))
    }
}

/// The string literal for one decimal digit.
fn digit_str(d: u64) -> (r: &'static str)
    requires
        d < 10,
    ensures
        r@ == seq![digit_char(d as int)],
{
    proof {
        reveal_strlit("0");
        reveal_strlit("1");
        reveal_strlit("2");
        reveal_strlit("3");
        reveal_strlit("4");
        reveal_strlit("5");
        reveal_strlit("6");
        reveal_strlit("7");
        reveal_strlit("8");
        reveal_strlit("9");
    }
    if d == 0 {
        proof {
            assert("0"@ =~= seq![digit_char(0)]);
        }
        "0"
    } else if d == 1 {
        proof {
            assert("1"@ =~= seq![digit_char(1)]);
        }
        "1"
    } else if d == 2 {
        proof {
            assert("2"@ =~= seq![digit_char(2)]);
        }
        "2"
    } else if d == 3 {
        proof {
            assert("3"@ =~= seq![digit_char(3)]);
        }
        "3"
    } else if d == 4 {
        proof {
            assert("4"@ =~= seq![digit_char(4)]);
        }
        "4"
    } else if d == 5 {
        proof {
            assert("5"@ =~= seq![digit_char(5)]);
        }
        "5"
    } else if d == 6 {
        proof {
            assert("6"@ =~= seq![digit_char(6)]);
        }
        "6"
    } else if d == 7 {
        proof {
            assert("7"@ =~= seq![digit_char(7)]);
        }
        "7"
    } else if d == 8 {
        proof {
            assert("8"@ =~= seq![digit_char(8)]);
        }
        "8"
    } else {
        proof {
            assert("9"@ =~= seq![digit_char(9)]);
        }
        "9"
    }
}

/// The dump line of one sample: the RFC 3339 instant, a separating " - ",
/// the reading in decimal, and a line break.
pub open spec fn render_line(s: Sample) -> Seq<char> {
    rfc3339_of(s.timestamp) + seq![' ', '-', ' '] + decimal_digits(s.heart_rate as int)
        + seq!['\n']
}

/// The dump of a listing of samples: one line per sample, in order.
pub open spec fn render_seq(s: Seq<Sample>) -> Seq<char>
    decreases s.len(),
{
    if s.len() == 0 {
        Seq::empty()
    } else {
        render_line(s[0]) + render_seq(s.drop_first())
    }
}

/// Rendering distributes over concatenation.
pub proof fn lemma_render_concat(a: Seq<Sample>, b: Seq<Sample>)
    ensures
        render_seq(a + b) == render_seq(a) + render_seq(b),
    decreases a.len(),
{
    if a.len() == 0 {
        assert(a + b =~= b);
        assert(render_seq(a) + render_seq(b) =~= render_seq(b));
    } else {
        assert((a + b).drop_first() =~= a.drop_first() + b);
        lemma_render_concat(a.drop_first(), b);
        assert(render_line((a + b)[0]) + (render_seq(a.drop_first()) + render_seq(b))
            =~= (render_line(a[0]) + render_seq(a.drop_first())) + render_seq(b));
    }
}

/// Formats one sample as its dump line.
pub(crate) fn render_line_of(s: Sample) -> (r: String)
    requires
        valid_instant(s.timestamp as int),
    ensures
        r@ == render_line(s),
{
    let mut line = rfc3339_of_instant(s.timestamp);
    line.append(" - ");
    let digits = decimal_of_u64(s.heart_rate);
    line.append(digits.as_str());
    line.append("\n");
    proof {
        reveal_strlit(" - ");
        reveal_strlit("\n");
        assert(" - "@ =~= seq![' ', '-', ' ']);
        assert("\n"@ =~= seq!['\n']);
        assert(line@ =~= render_line(s));
    }
    line
}

/// Formats a reading as its decimal digits.
pub fn decimal_of_u64(n: u64) -> (r: String)
    ensures
        r@ == decimal_digits(n as int),
    decreases n,
{
    if n < 10 {
        let mut s = String::new();
        s.append(digit_str(n));
        s
    } else {
        let mut s = decimal_of_u64(n / 10);
        s.append(digit_str(n % 10));
        proof {
            assert(decimal_digits(n as int) =~= decimal_digits(n as int / 10).push(
                digit_char(n as int % 10),
            ));
            assert(decimal_digits(n as int / 10).push(digit_char(n as int % 10))
                =~= decimal_digits(n as int / 10) + seq![digit_char(n as int % 10)]);
        }
        s
    }
}

} // verus!

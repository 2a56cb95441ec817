//! Variables and literals.

use vstd::prelude::*;
use vstd::string::StringExecFns;

verus! {

/// A variable in a SAT problem: a dense positive integer identifier.
/// Zero is reserved by the DIMACS format to mean "end of clause".
#[derive(PartialEq, Eq, Structural, PartialOrd, Ord, Debug, Clone, Copy)]
pub struct Variable(pub u32);

/// A literal in a SAT clause: a variable together with a polarity.
/// `polarity == true` stands for the variable itself, `false` for its
/// negation.
#[derive(PartialEq, Eq, Structural, Debug, Clone, Copy)]
pub struct Literal {
    pub variable: Variable,
    pub polarity: bool,
}

/// The literal denoted by a signed DIMACS integer: `k` stands for variable
/// `k`, `-k` for its negation. Zero denotes no literal at all, and neither
/// does `i32::MIN`, whose magnitude does not fit in an `i32`.
pub open spec fn spec_from_dimacs(dimacs: i32) -> Option<Literal> {
    if dimacs == 0 || dimacs == i32::MIN {
        None
    } else {
        Some(
            Literal {
                variable: Variable((if dimacs < 0 { -(dimacs as int) } else { dimacs as int }) as u32),
                polarity: dimacs > 0,
            },
        )
    }
}

/// The signed DIMACS integer denoting a literal.
pub open spec fn spec_to_dimacs(l: Literal) -> int {
    if l.polarity {
        l.variable.0 as int
    } else {
        -(l.variable.0 as int)
    }
}

/// The decimal digit character for `d`.
pub open spec fn digit_char(d: int) -> char {
    if d == 0 {
        '0'
    } else if d == 1 {
        '1'
    } else if d == 2 {
        '2'
    } else if d == 3 {
        '3'
    } else if d == 4 {
        '4'
    } else if d == 5 {
        '5'
    } else if d == 6 {
        '6'
    } else if d == 7 {
        '7'
    } else if d == 8 {
        '8'
    } else {
        '9'
    }
}

/// The decimal digit characters of `n`, most significant first.
pub open spec fn dec_digits(n: nat) -> Seq<char>
    decreases n,
{
    if n < 10 {
        seq![digit_char(n as int)]
    } else {
        dec_digits(n / 10) + seq![digit_char((n % 10) as int)]
    }
}

/// The decimal rendering of a literal as a signed DIMACS integer.
pub open spec fn dimacs_chars(l: Literal) -> Seq<char> {
    if l.polarity {
        dec_digits(l.variable.0 as nat)
    } else {
        seq!['-'] + dec_digits(l.variable.0 as nat)
    }
}

impl Literal {
    pub fn new(variable: Variable, polarity: bool) -> (r: Literal)
        ensures
            r == (Literal { variable, polarity }),
    {
        Literal { variable, polarity }
    }

    /// Turns the DIMACS representation of a literal (where `0` means "end of
    /// clause" and `-1` means variable 1, negated) into a `Literal`.
    pub fn from_dimacs(dimacs: i32) -> (r: Option<Literal>)
        ensures
            r == spec_from_dimacs(dimacs),
    {
        if dimacs == 0 || dimacs == i32::MIN {
            None
        } else {
            let magnitude: u32 = if dimacs < 0 {
                (-(dimacs as i64)) as u32
            } else {
                dimacs as u32
            };
            Some(Literal { variable: Variable(magnitude), polarity: dimacs > 0 })
        }
    }

    /// The decimal DIMACS rendering of this literal.
    pub fn to_dimacs(&self) -> (r: String)
        ensures
            r@ == dimacs_chars(*self),
    {
        if self.polarity {
            u32_string(self.variable.0)
        } else {
            proof {
                reveal_strlit("-");
            }
            let mut s = "-".to_owned();
            let digits = u32_string(self.variable.0);
            s.append(digits.as_str());
            s
        }
    }

    /// The same variable with the opposite polarity.
    pub fn negate(&self) -> (r: Literal)
        ensures
            r.variable == self.variable,
            r.polarity == !self.polarity,
    {
        Literal { variable: self.variable, polarity: !self.polarity }
    }

    pub fn variable(&self) -> (r: Variable)
        ensures
            r == self.variable,
    {
        self.variable
    }

    pub fn polarity(&self) -> (r: bool)
        ensures
            r == self.polarity,
    {
        self.polarity
    }
}

/// The DIMACS round trip: every non-zero representable integer maps to a
/// literal, and that literal denotes the same integer again.
pub proof fn lemma_dimacs_round_trip(k: i32)
    requires
        k != 0,
        k != i32::MIN,
    ensures
        spec_from_dimacs(k) matches Some(l) && spec_to_dimacs(l) == k,
        spec_from_dimacs(0) is None,
{
}

fn digit_str(d: u32) -> (r: String)
    requires
        d < 10,
    ensures
        r@ == seq![digit_char(d as int)],
{
    proof {
        reveal_strlit("0");
        reveal_strlit("1");
        reveal_strlit("2");
        reveal_strlit("3");
        reveal_strlit("4");
        reveal_strlit("5");
        reveal_strlit("6");
        reveal_strlit("7");
        reveal_strlit("8");
        reveal_strlit("9");
    }
    let s: &str = if d == 0 {
        "0"
    } else if d == 1 {
        "1"
    } else if d == 2 {
        "2"
    } else if d == 3 {
        "3"
    } else if d == 4 {
        "4"
    } else if d == 5 {
        "5"
    } else if d == 6 {
        "6"
    } else if d == 7 {
        "7"
    } else if d == 8 {
        "8"
    } else {
        "9"
    };
    let r = s.to_owned();
    proof {
        assert(r@ =~= seq![digit_char(d as int)]);
    }
    r
}

/// The decimal digits of `n` as a string.
fn u32_string(n: u32) -> (r: String)
    ensures
        r@ == dec_digits(n as nat),
    decreases n,
{
    if n < 10 {
        digit_str(n)
    } else {
        let mut s = u32_string(n / 10);
        let last = digit_str(n % 10);
        s.append(last.as_str());
        s
    }
}

} // verus!

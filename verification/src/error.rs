//! The failures that a factorization or a solve can report.

use crate::binary64::finite;
use vstd::prelude::*;

verus! {

/// Linear algebra errors.
#[derive(Clone, Copy, Debug, PartialEq, Eq, Structural)]
pub enum LaError {
    /// The matrix is (numerically) singular.
    Singular {
        /// The column where a suitable pivot could not be found.
        pivot_col: usize,
    },
    /// A non-finite value (NaN or an infinity) was encountered.
    NonFinite {
        /// The column being processed when non-finite values were detected.
        pivot_col: usize,
    },
}

/// The character that writes the digit `d`.
pub open spec fn digit_char(d: nat) -> char {
    if d == 0 {
        '0'
    } else if d == 1 {
        '1'
    } else if d == 2 {
        '2'
    } else if d == 3 {
        '3'
    } else if d == 4 {
        '4'
    } else if d == 5 {
        '5'
    } else if d == 6 {
        '6'
    } else if d == 7 {
        '7'
    } else if d == 8 {
        '8'
    } else {
        '9'
    }
}

/// The decimal numeral of `n`, without leading zeros.
pub open spec fn decimal(n: nat) -> Seq<char>
    decreases n,
{
    if n < 10 {
        seq![digit_char(n)]
    } else {
        decimal(n / 10).push(digit_char(n % 10))
    }
}

fn digit_str(d: usize) -> (s: &'static str)
    requires
        d < 10,
    ensures
        s@ == seq![digit_char(d as nat)],
{
    proof {
        reveal_strlit("0");
        reveal_strlit("1");
        reveal_strlit("2");
        reveal_strlit("3");
        reveal_strlit("4");
        reveal_strlit("5");
        reveal_strlit("6");
        reveal_strlit("7");
        reveal_strlit("8");
        reveal_strlit("9");
    }
    let s: &'static str = if d == 0 {
        "0"
    } else if d == 1 {
        "1"
    } else if d == 2 {
        "2"
    } else if d == 3 {
        "3"
    } else if d == 4 {
        "4"
    } else if d == 5 {
        "5"
    } else if d == 6 {
        "6"
    } else if d == 7 {
        "7"
    } else if d == 8 {
        "8"
    } else {
        "9"
    };
    assert(s@ =~= seq![digit_char(d as nat)]);
    s
}

fn append_decimal(out: &mut String, n: usize)
    ensures
        final(out)@ == old(out)@ + decimal(n as nat),
    decreases n,
{
    if n >= 10 {
        append_decimal(out, n / 10);
    }
    out.append(digit_str(n % 10));
    assert(out@ =~= old(out)@ + decimal(n as nat));
}

impl LaError {
    /// The column (elimination step) at which the failure was detected.
    pub open spec fn column(&self) -> usize {
        match *self {
            LaError::Singular { pivot_col } => pivot_col,
            LaError::NonFinite { pivot_col } => pivot_col,
        }
    }

    /// The text of `message`: a fixed phrase for the variant, then the
    /// column as a decimal numeral.
    pub open spec fn message_text(&self) -> Seq<char> {
        match *self {
            LaError::Singular { pivot_col } => "singular matrix at pivot column "@ + decimal(
                pivot_col as nat,
            ),
            LaError::NonFinite { pivot_col } => "non-finite value encountered at pivot column "@
                + decimal(pivot_col as nat),
        }
    }

    /// The column (elimination step) at which the failure was detected.
    pub fn pivot_col(&self) -> (c: usize)
        ensures
            c == self.column(),
    {
        match *self {
            LaError::Singular { pivot_col } => pivot_col,
            LaError::NonFinite { pivot_col } => pivot_col,
        }
    }

    /// A human-readable description of the failure.
    pub fn message(&self) -> (s: String)
        ensures
            s@ == self.message_text(),
    {
        match *self {
            LaError::Singular { pivot_col } => {
                let mut s = String::from_str("singular matrix at pivot column ");
                append_decimal(&mut s, pivot_col);
                s
            },
            LaError::NonFinite { pivot_col } => {
                let mut s = String::from_str("non-finite value encountered at pivot column ");
                append_decimal(&mut s, pivot_col);
                s
            },
        }
    }
}

} // verus!

//! Why a description of an automaton is refused.

use vstd::prelude::*;
use vstd::string::StringExecFns;

verus! {

/// The reason a constructor refuses its input. Every variant is recoverable:
/// the caller may correct the input and try again.
#[derive(Debug, Clone, Copy, PartialEq, Eq, Structural)]
pub enum ConstructionError {
    /// A deterministic automaton was not given one transition per state and
    /// symbol.
    ShapeError,
    /// The start state is not a state.
    InvalidStart,
    /// A transition reads a symbol that is not in the alphabet.
    UnknownSymbol { symbol: char },
    /// The transition `from --symbol--> to` names `state`, which is not a
    /// state.
    UnknownState { from: usize, symbol: char, to: usize, state: usize },
    /// The transition `from --symbol--> to` comes after another one for the
    /// same state and symbol.
    DuplicateOrMissingTransition { from: usize, symbol: char, to: usize },
    /// The alphabet of a nondeterministic automaton lists the symbol that
    /// stands for the empty word.
    ReservedSymbol,
}

/// The character that stands for the digit `d`.
pub open spec fn digit_char(d: int) -> char {
    if d == 0 {
        '0'
    } else if d == 1 {
        '1'
    } else if d == 2 {
        '2'
    } else if d == 3 {
        '3'
    } else if d == 4 {
        '4'
    } else if d == 5 {
        '5'
    } else if d == 6 {
        '6'
    } else if d == 7 {
        '7'
    } else if d == 8 {
        '8'
    } else {
        '9'
    }
}

/// The digits of `n` in base ten, the most significant first.
pub open spec fn decimal(n: nat) -> Seq<char>
    decreases n,
{
    if n < 10 {
        seq![digit_char(n as int)]
    } else {
        decimal(n / 10).push(digit_char((n % 10) as int))
    }
}

fn digit(d: usize) -> (c: char)
    requires
        d < 10,
    ensures
        c == digit_char(d as int),
{
    if d == 0 {
        '0'
    } else if d == 1 {
        '1'
    } else if d == 2 {
        '2'
    } else if d == 3 {
        '3'
    } else if d == 4 {
        '4'
    } else if d == 5 {
        '5'
    } else if d == 6 {
        '6'
    } else if d == 7 {
        '7'
    } else if d == 8 {
        '8'
    } else {
        '9'
    }
}

/// Appends one character to a string, by `String::push` of the standard
/// library: the string afterwards is the string before with `c` at its end.
#[verifier::external_body]
fn push_char(s: &mut String, c: char)
    ensures
        final(s)@ == old(s)@.push(c),
{
    s.push(c);
}

/// Appends the digits of `n` in base ten.
fn push_decimal(s: &mut String, n: usize)
    ensures
        final(s)@ == old(s)@ + decimal(n as nat),
{
    let mut rest = n;
    let mut digits: Vec<char> = Vec::new();
    assert(digits@.reverse() =~= Seq::<char>::empty());
    assert(decimal(rest as nat) + digits@.reverse() =~= decimal(n as nat));
    while rest >= 10
        invariant
            decimal(n as nat) == decimal(rest as nat) + digits@.reverse(),
        decreases rest,
    {
        let c = digit(rest % 10);
        let ghost before = digits@;
        digits.push(c);
        proof {
            assert(digits@.reverse() =~= seq![c] + before.reverse());
            assert(decimal(rest as nat) == decimal((rest / 10) as nat).push(c));
            assert(decimal((rest / 10) as nat).push(c) + before.reverse() =~= decimal((rest / 10) as nat)
                + digits@.reverse());
        }
        rest = rest / 10;
    }
    let c = digit(rest);
    let ghost before = digits@;
    digits.push(c);
    proof {
        assert(digits@.reverse() =~= seq![c] + before.reverse());
        assert(decimal(n as nat) =~= digits@.reverse());
    }
    let ghost start = s@;
    let mut i = digits.len();
    assert(digits@.reverse().take(0) =~= Seq::<char>::empty());
    while i > 0
        invariant
            i <= digits@.len(),
            s@ == start + digits@.reverse().take(digits@.len() - i),
        decreases i,
    {
        i -= 1;
        let ghost prev = s@;
        push_char(s, digits[i]);
        proof {
            let r = digits@.reverse();
            assert(r[digits@.len() - 1 - i] == digits@[i as int]);
            assert(r.take(digits@.len() - i) =~= r.take(digits@.len() - 1 - i).push(digits@[i as int]));
            assert(s@ =~= start + r.take(digits@.len() - i));
        }
    }
    assert(digits@.reverse().take(digits@.len() as int) =~= digits@.reverse());
}

impl ConstructionError {
    /// The text of the message that describes the refusal.
    pub open spec fn text(&self) -> Seq<char> {
        match *self {
            ConstructionError::ShapeError => "Incorrect number of transitions"@,
            ConstructionError::InvalidStart => "Invalid start state"@,
            ConstructionError::UnknownSymbol { symbol } => "Symbol `"@ + seq![symbol] + "` is not in the alphabet"@,
            ConstructionError::UnknownState { from, symbol, to, state } => "In transition: ("@ + decimal(
                from as nat,
            ) + ", '"@ + seq![symbol] + "') -> "@ + decimal(to as nat) + ": State `"@ + decimal(state as nat)
                + "` does not exist"@,
            ConstructionError::DuplicateOrMissingTransition { from, symbol, to } => "Duplicate transition: ("@
                + decimal(from as nat) + ", '"@ + seq![symbol] + "') -> "@ + decimal(to as nat),
            ConstructionError::ReservedSymbol => "Alphabets cannot contain '_'"@,
        }
    }

    /// A message that describes the refusal, for a person to read.
    pub fn message(&self) -> (s: String)
        ensures
            s@ == self.text(),
    {
        match *self {
            ConstructionError::ShapeError => String::from_str("Incorrect number of transitions"),
            ConstructionError::InvalidStart => String::from_str("Invalid start state"),
            ConstructionError::UnknownSymbol { symbol } => {
                let mut s = String::from_str("Symbol `");
                push_char(&mut s, symbol);
                s.append("` is not in the alphabet");
                s
            },
            ConstructionError::UnknownState { from, symbol, to, state } => {
                let mut s = String::from_str("In transition: (");
                push_decimal(&mut s, from);
                s.append(", '");
                push_char(&mut s, symbol);
                s.append("') -> ");
                push_decimal(&mut s, to);
                s.append(": State `");
                push_decimal(&mut s, state);
                s.append("` does not exist");
                s
            },
            ConstructionError::DuplicateOrMissingTransition { from, symbol, to } => {
                let mut s = String::from_str("Duplicate transition: (");
                push_decimal(&mut s, from);
                s.append(", '");
                push_char(&mut s, symbol);
                s.append("') -> ");
                push_decimal(&mut s, to);
                s
            },
            ConstructionError::ReservedSymbol => String::from_str("Alphabets cannot contain '_'"),
        }
    }
}

} // verus!

use vstd::prelude::*;

verus! {

/// Why an index could not be built.
#[derive(Debug)]
pub enum BuildError {
    /// The point set is too small for the named part of the graph.
    NotEnoughDataPoints { expected: usize, cause: &'static str, found: usize },
}

/// The character of a decimal digit.
pub open spec fn digit(d: nat) -> char {
    if d == 0 {
        '0'
    } else if d == 1 {
        '1'
    } else if d == 2 {
        '2'
    } else if d == 3 {
        '3'
    } else if d == 4 {
        '4'
    } else if d == 5 {
        '5'
    } else if d == 6 {
        '6'
    } else if d == 7 {
        '7'
    } else if d == 8 {
        '8'
    } else {
        '9'
    }
}

/// A number in decimal notation, without leading zeros.
pub open spec fn decimal(n: nat) -> Seq<char>
    decreases n,
{
    if n < 10 {
        seq![digit(n)]
    } else {
        decimal(n / 10).push(digit(n % 10))
    }
}

/// `String::push_str` of std: `text` is appended to `target`, which is
/// otherwise unchanged.
#[verifier::external_body]
fn push_str(target: &mut String, text: &str)
    ensures
        final(target)@ == old(target)@ + text@,
{
    target.push_str(text)
}

/// `String::push` of std: `c` is appended to `target`, which is otherwise
/// unchanged.
#[verifier::external_body]
fn push_char(target: &mut String, c: char)
    ensures
        final(target)@ == old(target)@.push(c),
{
    target.push(c)
}

fn digit_char(d: usize) -> (c: char)
    requires
        d < 10,
    ensures
        c == digit(d as nat),
{
    if d == 0 {
        '0'
    } else if d == 1 {
        '1'
    } else if d == 2 {
        '2'
    } else if d == 3 {
        '3'
    } else if d == 4 {
        '4'
    } else if d == 5 {
        '5'
    } else if d == 6 {
        '6'
    } else if d == 7 {
        '7'
    } else if d == 8 {
        '8'
    } else {
        '9'
    }
}

/// Appends `n` in decimal notation.
fn push_decimal(target: &mut String, n: usize)
    ensures
        final(target)@ == old(target)@ + decimal(n as nat),
    decreases n,
{
    let ghost start = target@;
    if n >= 10 {
        push_decimal(target, n / 10);
    }
    push_char(target, digit_char(n % 10));
    proof {
        if n >= 10 {
            assert(target@ =~= start + decimal((n / 10) as nat).push(digit((n % 10) as nat)));
        } else {
            assert(target@ =~= start + seq![digit(n as nat)]);
        }
    }
}

impl BuildError {
    pub fn not_enough_data_points(expected: usize, cause: &'static str, found: usize) -> (e: Self)
        ensures
            e == (BuildError::NotEnoughDataPoints { expected, cause, found }),
    {
        Self::NotEnoughDataPoints { expected, cause, found }
    }

    /// The text of the error.
    pub open spec fn text(self) -> Seq<char> {
        match self {
            Self::NotEnoughDataPoints { expected, cause, found } => "Expected at least "@ + decimal(
                expected as nat,
            ) + " data points to build "@ + cause@ + ", found "@ + decimal(found as nat),
        }
    }

    /// The error in words.
    pub fn message(&self) -> (text: String)
        ensures
            text@ == self.text(),
    {
        match self {
            Self::NotEnoughDataPoints { expected, cause, found } => {
                let mut text = String::new();
                push_str(&mut text, "Expected at least ");
                push_decimal(&mut text, *expected);
                push_str(&mut text, " data points to build ");
                push_str(&mut text, cause);
                push_str(&mut text, ", found ");
                push_decimal(&mut text, *found);
                assert(text@ =~= self.text());
                text
            },
        }
    }
}

} // verus!

//! The closed set of fatal conditions a run can end in.
use vstd::prelude::*;
use vstd::string::*;
use crate::values::Value;

verus! {

/// Bytes that do not have the shape of the view asked for: the view's name
/// and the offending value.
#[derive(Debug, Clone)]
pub struct CannotConstruct {
    pub target: String,
    pub value: Value,
}

/// A fatal condition of a run.
#[derive(Debug, Clone)]
pub enum RuntimeError {
    /// A scope was used after its owner's lifetime ended.
    Deallocated(String),
    /// A required stack value, variable, label or operand was absent.
    NoValue(String),
    /// Bytes did not match the shape of the requested view.
    CannotConstruct(CannotConstruct),
    /// A structurally forbidden operation, such as writing the input stream.
    NotAllowed(String),
    /// A registered path could not be opened, read or written.
    FileError(Option<String>, String),
}

/// The character of a decimal digit.
pub open spec fn digit_char(d: nat) -> char {
    if d == 0 {
        '0'
    } else if d == 1 {
        '1'
    } else if d == 2 {
        '2'
    } else if d == 3 {
        '3'
    } else if d == 4 {
        '4'
    } else if d == 5 {
        '5'
    } else if d == 6 {
        '6'
    } else if d == 7 {
        '7'
    } else if d == 8 {
        '8'
    } else {
        '9'
    }
}

/// A number written in decimal, without leading zeros.
pub open spec fn decimal(n: nat) -> Seq<char>
    decreases n,
{
    if n < 10 {
        seq![digit_char(n)]
    } else {
        decimal(n / 10).push(digit_char(n % 10))
    }
}

/// The message of a file descriptor that no path is registered for.
pub open spec fn missing_fd_message(fd: u32) -> Seq<char> {
    "could not find file at fd "@ + decimal(fd as nat)
}

fn digit_str(d: u32) -> (r: &'static str)
    requires
        d < 10,
    ensures
        r@ == seq![digit_char(d as nat)],
{
    proof {
        reveal_strlit("0");
        reveal_strlit("1");
        reveal_strlit("2");
        reveal_strlit("3");
        reveal_strlit("4");
        reveal_strlit("5");
        reveal_strlit("6");
        reveal_strlit("7");
        reveal_strlit("8");
        reveal_strlit("9");
    }
    if d == 0 {
        "0"
    } else if d == 1 {
        "1"
    } else if d == 2 {
        "2"
    } else if d == 3 {
        "3"
    } else if d == 4 {
        "4"
    } else if d == 5 {
        "5"
    } else if d == 6 {
        "6"
    } else if d == 7 {
        "7"
    } else if d == 8 {
        "8"
    } else {
        "9"
    }
}

/// Appends `n` in decimal to `s`.
pub fn push_decimal(s: &mut String, n: u32)
    ensures
        final(s)@ == old(s)@ + decimal(n as nat),
    decreases n,
{
    if n >= 10 {
        push_decimal(s, n / 10);
    }
    s.append(digit_str(n % 10));
    proof {
        if n < 10 {
            assert(n % 10 == n);
        }
        assert(final(s)@ =~= old(s)@ + decimal(n as nat));
    }
}

impl RuntimeError {
    /// The error of a file descriptor that no path is registered for.
    pub fn missing_fd(fd: u32) -> (r: RuntimeError)
        ensures
            r matches RuntimeError::FileError(path, message) && path is None && message@
                == missing_fd_message(fd),
    {
        let mut message = String::from_str("could not find file at fd ");
        push_decimal(&mut message, fd);
        RuntimeError::FileError(None, message)
    }
}

} // verus!

//! The failures of compilation and of a run.
use crate::show::push_char;
use vstd::prelude::*;

verus! {

/// Why a run failed, as mathematics sees it.
pub enum Fault {
    /// Operand shapes do not fit each other.
    ShapeMismatch,
    /// An operand is outside what the operation is defined on.
    DomainError,
    /// An index names no row.
    IndexOutOfBounds,
    /// A user assertion did not hold; carries its message.
    UserAssertFailed(Seq<char>),
    /// The host cancelled the run.
    Interrupted,
    /// The assembly is malformed: an instruction found too few values.
    StackUnderflow,
}

impl Fault {
    /// Whether `Try` may catch this failure. A malformed assembly and a
    /// cancelled run are never recovered from inside the run.
    pub open spec fn recoverable(self) -> bool {
        !(self is StackUnderflow) && !(self is Interrupted)
    }

    /// The failure in words: its name, or the message that a failed
    /// assertion carries.
    pub open spec fn text(self) -> Seq<char> {
        match self {
            Fault::ShapeMismatch => "shape mismatch"@,
            Fault::DomainError => "domain error"@,
            Fault::IndexOutOfBounds => "index out of bounds"@,
            Fault::UserAssertFailed(m) => m,
            Fault::Interrupted => "interrupted"@,
            Fault::StackUnderflow => "stack underflow"@,
        }
    }
}

/// Why a run failed.
#[derive(Debug, PartialEq, Eq)]
pub enum RuntimeError {
    ShapeMismatch,
    DomainError,
    IndexOutOfBounds,
    UserAssertFailed(String),
    Interrupted,
    StackUnderflow,
}

impl View for RuntimeError {
    type V = Fault;

    open spec fn view(&self) -> Fault {
        match self {
            RuntimeError::ShapeMismatch => Fault::ShapeMismatch,
            RuntimeError::DomainError => Fault::DomainError,
            RuntimeError::IndexOutOfBounds => Fault::IndexOutOfBounds,
            RuntimeError::UserAssertFailed(m) => Fault::UserAssertFailed(m@),
            RuntimeError::Interrupted => Fault::Interrupted,
            RuntimeError::StackUnderflow => Fault::StackUnderflow,
        }
    }
}

impl RuntimeError {
    /// The failure in words.
    pub fn message(&self) -> (r: String)
        ensures
            r@ == self@.text(),
    {
        match self {
            RuntimeError::ShapeMismatch => "shape mismatch".to_owned(),
            RuntimeError::DomainError => "domain error".to_owned(),
            RuntimeError::IndexOutOfBounds => "index out of bounds".to_owned(),
            RuntimeError::UserAssertFailed(m) => m.clone(),
            RuntimeError::Interrupted => "interrupted".to_owned(),
            RuntimeError::StackUnderflow => "stack underflow".to_owned(),
        }
    }

    pub fn recoverable(&self) -> (r: bool)
        ensures
            r == self@.recoverable(),
    {
        match self {
            RuntimeError::StackUnderflow => false,
            RuntimeError::Interrupted => false,
            _ => true,
        }
    }

    /// An equal error.
    pub fn duplicate(&self) -> (r: RuntimeError)
        ensures
            r@ == self@,
    {
        match self {
            RuntimeError::ShapeMismatch => RuntimeError::ShapeMismatch,
            RuntimeError::DomainError => RuntimeError::DomainError,
            RuntimeError::IndexOutOfBounds => RuntimeError::IndexOutOfBounds,
            RuntimeError::UserAssertFailed(m) => RuntimeError::UserAssertFailed(m.clone()),
            RuntimeError::Interrupted => RuntimeError::Interrupted,
            RuntimeError::StackUnderflow => RuntimeError::StackUnderflow,
        }
    }
}

/// Why compilation failed, as mathematics sees it.
pub enum CompileFault {
    /// A name with no binding; carries the name.
    UnknownIdentifier(Seq<char>),
    /// A function does not fit the place it is put in.
    SignatureMismatch,
    /// The parser rejected the source; carries its message.
    Syntax(Seq<char>),
}

impl CompileFault {
    /// The failure in words: the unknown name after `unknown identifier `,
    /// or the parser's own message.
    pub open spec fn text(self) -> Seq<char> {
        match self {
            CompileFault::UnknownIdentifier(n) => "unknown identifier "@ + n,
            CompileFault::SignatureMismatch => "signature mismatch"@,
            CompileFault::Syntax(m) => m,
        }
    }
}

/// Why compilation failed.
#[derive(Debug, PartialEq, Eq)]
pub enum CompileError {
    UnknownIdentifier(String),
    SignatureMismatch,
    Syntax(String),
}

impl View for CompileError {
    type V = CompileFault;

    open spec fn view(&self) -> CompileFault {
        match self {
            CompileError::UnknownIdentifier(n) => CompileFault::UnknownIdentifier(n@),
            CompileError::SignatureMismatch => CompileFault::SignatureMismatch,
            CompileError::Syntax(m) => CompileFault::Syntax(m@),
        }
    }
}

impl CompileError {
    /// The failure in words.
    pub fn message(&self) -> (r: String)
        ensures
            r@ == self@.text(),
    {
        match self {
            CompileError::UnknownIdentifier(n) => {
                let mut out = "unknown identifier ".to_owned();
                let len = n.as_str().unicode_len();
                let mut i: usize = 0;
                assert(out@ =~= "unknown identifier "@ + n@.take(0));
                while i < len
                    invariant
                        i <= len,
                        len == n@.len(),
                        out@ == "unknown identifier "@ + n@.take(i as int),
                    decreases len - i,
                {
                    push_char(&mut out, n.as_str().get_char(i));
                    i += 1;
                    assert(out@ =~= "unknown identifier "@ + n@.take(i as int));
                }
                assert(n@.take(len as int) =~= n@);
                out
            },
            CompileError::SignatureMismatch => "signature mismatch".to_owned(),
            CompileError::Syntax(m) => m.clone(),
        }
    }
}

} // verus!

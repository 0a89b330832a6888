//! A bytecode compiler and stack machine for a small dynamically typed
//! scripting language.
//!
//! Source text is scanned on demand, compiled in a single pass into a
//! [`chunk::Chunk`], and executed by [`vm::VM`]. Numbers are IEEE-754 doubles
//! carried as bit patterns; the library compares and negates them itself and
//! asks its host for everything that rounds.
use vstd::prelude::*;
use vstd::string::*;

pub mod chunk;
pub mod compiler;
pub mod debug;
pub mod expressions;
pub mod layout;
pub mod program;
pub mod scanner;
pub mod statements;
pub mod text;
pub mod value;
pub mod vm;

verus! {

/// A diagnostic raised while scanning or compiling: what went wrong, the
/// text of the offending token, and the source line it was found on.
#[derive(Debug)]
pub struct RoxError {
    pub message: String,
    pub token: String,
    pub line: i32,
}

impl RoxError {
    pub fn new(message: &str, token: String, line: i32) -> (e: RoxError)
        ensures
            e.message@ == message@,
            e.token@ == token@,
            e.line == line,
    {
        RoxError { message: String::from_str(message), token, line }
    }

    /// Whether the diagnostic says this, of this token, on this line.
    pub open spec fn matches(&self, message: Seq<char>, token: Seq<char>, line: int) -> bool {
        &&& self.message@ == message
        &&& self.token@ == token
        &&& self.line == line
    }

    /// The characters of the one-line report of this diagnostic.
    pub open spec fn report(&self) -> Seq<char> {
        "[line "@ + text::decimal(self.line as int) + "] Error at '"@ + self.token@ + "': "@
            + self.message@
    }

    /// The report `[line N] Error at 'TOKEN': MESSAGE`.
    pub fn render(&self) -> (s: String)
        ensures
            s@ == self.report(),
    {
        let mut s = String::from_str("[line ");
        let digits = text::decimal_string(self.line);
        s.append(digits.as_str());
        s.append("] Error at '");
        s.append(self.token.as_str());
        s.append("': ");
        s.append(self.message.as_str());
        s
    }
}

} // verus!

//! Error types shared by the whole crate.
use vstd::prelude::*;
use vstd::string::*;
use crate::text::{decimal, owned, push_decimal};

verus! {

/// A convenient alias for results produced by this crate.
pub type Result<T> = core::result::Result<T, Error>;

/// Every failure `stepq` can report.
#[derive(Debug, Clone)]
pub enum Error {
    /// The input is not well-formed ISO 10303-21 (or EXPRESS).
    Syntax {
        /// 1-based line of the offending token.
        line: usize,
        /// 1-based column of the offending token, counted in bytes.
        column: usize,
        /// 0-based byte offset of the offending token in the input.
        offset: usize,
        /// What went wrong.
        message: String,
    },
    /// An entity instance references an `#id` that does not exist.
    UnresolvedReference {
        /// The referencing instance.
        from: u64,
        /// The missing instance.
        to: u64,
    },
    /// The same `#id` is declared more than once.
    DuplicateId(u64),
    /// An external reference to another file could not be resolved.
    ExternalReference {
        /// The file referred to.
        file: String,
        /// What went wrong.
        message: String,
    },
}

/// The number of line feeds in `s`.
pub open spec fn count_newlines(s: Seq<u8>) -> nat
    decreases s.len(),
{
    if s.len() == 0 {
        0
    } else {
        count_newlines(s.drop_last()) + if s.last() == 10 { 1nat } else { 0nat }
    }
}

/// The offset just past the last line feed in `s`, or 0 if there is none.
pub open spec fn line_start(s: Seq<u8>) -> nat
    decreases s.len(),
{
    if s.len() == 0 {
        0
    } else if s.last() == 10 {
        s.len()
    } else {
        line_start(s.drop_last())
    }
}

/// `offset`, clamped to the length of `src`.
pub open spec fn clamp(src: Seq<u8>, offset: int) -> int {
    if offset < src.len() { offset } else { src.len() as int }
}

/// The 1-based line of byte `offset` in `src`.
pub open spec fn line_of(src: Seq<u8>, offset: int) -> nat {
    count_newlines(src.take(clamp(src, offset))) + 1
}

/// The 1-based column, in bytes, of byte `offset` in `src`.
pub open spec fn column_of(src: Seq<u8>, offset: int) -> int {
    clamp(src, offset) - line_start(src.take(clamp(src, offset))) + 1
}

proof fn lemma_line_start_bound(s: Seq<u8>)
    ensures
        line_start(s) <= s.len(),
        count_newlines(s) <= s.len(),
    decreases s.len(),
{
    if s.len() > 0 {
        lemma_line_start_bound(s.drop_last());
    }
}

impl Error {
    /// True if this is a syntax error at byte `offset` of `src`, with the
    /// line and column of that offset (offsets past the end count as the
    /// end of the input).
    pub open spec fn is_syntax_at(self, src: Seq<u8>, offset: int) -> bool {
        match self {
            Error::Syntax { line, column, offset: at, .. } => {
                &&& at == clamp(src, offset)
                &&& line == line_of(src, offset)
                &&& column == column_of(src, offset)
            },
            _ => false,
        }
    }

    /// The message of a syntax error.
    pub open spec fn syntax_message(self) -> Seq<char> {
        match self {
            Error::Syntax { message, .. } => message@,
            _ => Seq::empty(),
        }
    }

    /// Builds an [`Error::Syntax`] located at byte `offset` of `src`.
    ///
    /// Line and column are computed here, on the error path only, so the
    /// lexer does not track them for every byte.
    pub fn syntax(src: &[u8], offset: usize, message: String) -> (e: Self)
        requires
            src@.len() < usize::MAX,
        ensures
            e.is_syntax_at(src@, offset as int),
            e.syntax_message() == message@,
    {
        let o = if offset < src.len() { offset } else { src.len() };
        let mut lines: usize = 0;
        let mut start: usize = 0;
        let mut i: usize = 0;
        while i < o
            invariant
                o <= src@.len() < usize::MAX,
                i <= o,
                lines <= i,
                start <= i,
                lines == count_newlines(src@.take(i as int)),
                start == line_start(src@.take(i as int)),
            decreases o - i,
        {
            proof {
                assert(src@.take(i + 1).drop_last() =~= src@.take(i as int));
                lemma_line_start_bound(src@.take(i as int));
            }
            if src[i] == 10 {
                lines = lines + 1;
                start = i + 1;
            }
            i = i + 1;
        }
        proof {
            lemma_line_start_bound(src@.take(o as int));
        }
        Error::Syntax { line: lines + 1, column: o - start + 1, offset: o, message }
    }

    /// The message as printed: "syntax error at line L, column C: ...",
    /// "entity #A references undefined instance #B", "entity #A is defined
    /// more than once" or "external reference to F: ...".
    pub open spec fn display(self) -> Seq<char> {
        match self {
            Error::Syntax { line, column, message, .. } => "syntax error at line "@ + decimal(
                line as nat,
            ) + ", column "@ + decimal(column as nat) + ": "@ + message@,
            Error::UnresolvedReference { from, to } => "entity #"@ + decimal(from as nat)
                + " references undefined instance #"@ + decimal(to as nat),
            Error::DuplicateId(id) => "entity #"@ + decimal(id as nat)
                + " is defined more than once"@,
            Error::ExternalReference { file, message } => "external reference to "@ + file@
                + ": "@ + message@,
        }
    }

    /// The message as printed; see [`display`](Self::display).
    #[allow(clippy::inherent_to_string)]
    pub fn to_string(&self) -> (s: String)
        ensures
            s@ == self.display(),
    {
        match self {
            Error::Syntax { line, column, message, .. } => {
                let mut s = owned("syntax error at line ");
                push_decimal(&mut s, *line as u64);
                s.append(", column ");
                push_decimal(&mut s, *column as u64);
                s.append(": ");
                s.append(message.as_str());
                proof {
                    assert(s@ =~= self.display());
                }
                s
            },
            Error::UnresolvedReference { from, to } => {
                let mut s = owned("entity #");
                push_decimal(&mut s, *from);
                s.append(" references undefined instance #");
                push_decimal(&mut s, *to);
                proof {
                    assert(s@ =~= self.display());
                }
                s
            },
            Error::DuplicateId(id) => {
                let mut s = owned("entity #");
                push_decimal(&mut s, *id);
                s.append(" is defined more than once");
                proof {
                    assert(s@ =~= self.display());
                }
                s
            },
            Error::ExternalReference { file, message } => {
                let mut s = owned("external reference to ");
                s.append(file.as_str());
                s.append(": ");
                s.append(message.as_str());
                proof {
                    assert(s@ =~= self.display());
                }
                s
            },
        }
    }
}

} // verus!

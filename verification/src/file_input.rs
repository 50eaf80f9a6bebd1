//! Where program source text comes from: a named file, or standard input,
//! chosen by a source token. The token that is exactly the one-byte
//! sentinel `-` denotes standard input; any other token names a file path.
//!
//! Only the classification of the token lives here; actually reading a
//! file or standard input is I/O and belongs to the program around the
//! library.

use vstd::prelude::*;
use vstd::string::StringSliceAdditionalSpecFns;

verus! {

/// Represents input from a file or stdin.
#[derive(Debug, Clone)]
pub enum FileInput {
    /// Read from standard input.
    Stdin,
    /// Read from the file at `path`.
    Path { path: String },
}

/// The one-byte token that denotes standard input.
pub open spec fn is_stdin_token(bytes: Seq<u8>) -> bool {
    bytes == seq![45u8]
}

impl FileInput {
    /// Classifies a source token: the sentinel `-` (byte 45) is standard
    /// input, anything else is a file path, kept verbatim.
    pub fn from_str(txt: &str) -> (r: FileInput)
        ensures
            is_stdin_token(txt.spec_bytes()) ==> r == FileInput::Stdin,
            !is_stdin_token(txt.spec_bytes()) ==> (r matches FileInput::Path { path } && path@
                == txt@),
    {
        let bytes = txt.as_bytes();
        if bytes.len() == 1 && bytes[0] == 45 {
            proof {
                assert(txt.spec_bytes() =~= seq![45u8]);
            }
            FileInput::Stdin
        } else {
            proof {
                assert(!(txt.spec_bytes() =~= seq![45u8]));
            }
            FileInput::Path { path: txt.to_owned() }
        }
    }

    /// A printable description of the source: the path itself, or
    /// `<stdin>` for standard input.
    pub fn describe(&self) -> (r: String)
        ensures
            match self {
                FileInput::Stdin => r@ == "<stdin>"@,
                FileInput::Path { path } => r@ == path@,
            },
    {
        match self {
            FileInput::Stdin => "<stdin>".to_owned(),
            FileInput::Path { path } => path.clone(),
        }
    }
}

} // verus!

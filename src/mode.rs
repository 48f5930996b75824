//! The interactive modes and their prompts.
use vstd::prelude::*;

verus! {

/// A mode of the interactive surface.
#[derive(Clone, Copy, PartialEq, Eq, Structural, Debug, Hash)]
pub enum Mode {
    Exit,
    Global,
    Inbox,
    Write,
    Read,
}

/// The prompt sign of a mode and its style code.
pub open spec fn mode_sign(m: Mode) -> (Seq<char>, u8) {
    match m {
        Mode::Exit => (""@, 0),
        Mode::Global => (">"@, 1),
        Mode::Inbox => ("#"@, 2),
        Mode::Write => ("µ"@, 3),
        Mode::Read => ("λ"@, 4),
    }
}

impl Mode {
    /// The prompt: the quoted path and `~` where there is a path, then the
    /// mode's sign; and the mode's style code.
    pub fn get_prompt(&self, path: Option<String>) -> (r: (String, u8))
        ensures
            r.0@ == (match path {
                Some(s) => "\""@ + s@ + "\"~"@,
                None => Seq::empty(),
            }) + mode_sign(*self).0,
            r.1 == mode_sign(*self).1,
    {
        let mut ret = String::new();
        if let Some(s) = path {
            ret.append("\"");
            ret.append(s.as_str());
            ret.append("\"~");
        }
        let (s, code) = match self {
            Mode::Exit => ("", 0u8),
            Mode::Global => (">", 1u8),
            Mode::Inbox => ("#", 2u8),
            Mode::Write => ("µ", 3u8),
            Mode::Read => ("λ", 4u8),
        };
        ret.append(s);
        (ret, code)
    }
}

} // verus!

//! Records describing processes and their open files, with the small pure
//! helpers over them; reading `/proc` itself is the caller's concern.

use vstd::prelude::*;

verus! {

/// `std::io::Error`, carried opaquely.
#[verifier::external_type_specification]
#[verifier::external_body]
pub struct ExIoError(std::io::Error);

/// Whether a file is open for reading, writing, or both.
pub enum AccessMode {
    Read,
    Write,
    ReadWrite,
}

impl AccessMode {
    /// The mode as text.
    pub fn string(&self) -> (r: &'static str)
        ensures
            self is Read ==> r@ == "read"@,
            self is Write ==> r@ == "write"@,
            self is ReadWrite ==> r@ == "read/write"@,
    {
        match self {
            AccessMode::Read => "read",
            AccessMode::Write => "write",
            AccessMode::ReadWrite => "read/write",
        }
    }
}

/// An open file: a friendly name, the cursor position, the access mode.
pub struct OpenFile {
    pub name: String,
    pub cursor: usize,
    pub access_mode: AccessMode,
}

/// Does the name mark a pipe?
pub open spec fn spec_is_pipe_name(s: Seq<char>) -> bool {
    s.len() >= 5 && s[0] == '<' && s[1] == 'p' && s[2] == 'i' && s[3] == 'p' && s[4] == 'e'
}

impl OpenFile {
    pub fn new(name: String, cursor: usize, access_mode: AccessMode) -> (r: OpenFile)
        ensures
            r.name@ == name@,
            r.cursor == cursor,
            r.access_mode == access_mode,
    {
        OpenFile { name, cursor, access_mode }
    }

    /// The name, with a pipe name wrapped in one of six colors chosen by
    /// hashing the name, so equal names always get equal colors.
    pub fn colorized_name(&self) -> (r: String)
        ensures
            !spec_is_pipe_name(self.name@) ==> r@ == self.name@,
            spec_is_pipe_name(self.name@) ==> r@ == spec_color(
                (default_hash_of(self.name@) % 6) as int,
            ) + self.name@ + "\u{1B}[0m"@,
    {
        let is_pipe = self.name.as_str().unicode_len() >= 5 && self.name.as_str().get_char(0)
            == '<' && self.name.as_str().get_char(1) == 'p' && self.name.as_str().get_char(2)
            == 'i' && self.name.as_str().get_char(3) == 'p' && self.name.as_str().get_char(4)
            == 'e';
        if is_pipe {
            let h = name_hash(&self.name);
            let idx = (h % 6) as usize;
            proof {
                assert(idx < 6);
            }
            let color: &'static str = if idx == 0 {
                "\u{1B}[38;5;9m"
            } else if idx == 1 {
                "\u{1B}[38;5;10m"
            } else if idx == 2 {
                "\u{1B}[38;5;11m"
            } else if idx == 3 {
                "\u{1B}[38;5;12m"
            } else if idx == 4 {
                "\u{1B}[38;5;13m"
            } else {
                "\u{1B}[38;5;14m"
            };
            proof {
                assert(color@ == spec_color(idx as int));
            }
            let mut out = String::new();
            out.append(color);
            out.append(self.name.as_str());
            out.append("\u{1B}[0m");
            proof {
                assert(out@ =~= spec_color(idx as int) + self.name@ + "\u{1B}[0m"@);
            }
            out
        } else {
            let mut out = String::new();
            out.append(self.name.as_str());
            proof {
                assert(out@ =~= self.name@);
            }
            out
        }
    }
}

/// The six pipe colors.
pub open spec fn spec_color(c: int) -> Seq<char> {
    if c == 0 {
        "\u{1B}[38;5;9m"@
    } else if c == 1 {
        "\u{1B}[38;5;10m"@
    } else if c == 2 {
        "\u{1B}[38;5;11m"@
    } else if c == 3 {
        "\u{1B}[38;5;12m"@
    } else if c == 4 {
        "\u{1B}[38;5;13m"@
    } else {
        "\u{1B}[38;5;14m"@
    }
}

/// The hash a freshly created `DefaultHasher` gives a string.
pub uninterp spec fn default_hash_of(s: Seq<char>) -> u64;

/// Relies on `std::collections::hash_map::DefaultHasher`: hashers created
/// with `new` are documented to produce the same output for the same
/// input, so the value is a function of the name alone (it may differ
/// across standard-library releases).
#[verifier::external_body]
fn name_hash(s: &String) -> (r: u64)
    ensures
        r == default_hash_of(s@),
{
    let mut h = std::collections::hash_map::DefaultHasher::new();
    std::hash::Hash::hash(s, &mut h);
    std::hash::Hasher::finish(&h)
}

/// A process: its id, its parent's id, its command line.
pub struct Process {
    pub pid: usize,
    pub ppid: usize,
    pub command: String,
}

impl Process {
    pub fn new(pid: usize, ppid: usize, command: String) -> (r: Process)
        ensures
            r.pid == pid,
            r.ppid == ppid,
            r.command@ == command@,
    {
        Process { pid, ppid, command }
    }
}

/// What can go wrong asking the system about processes.
pub enum PsError {
    /// Running the process lister failed.
    ExecutableError(std::io::Error),
    /// The process lister printed something unexpected.
    OutputFormatError(&'static str),
}

} // verus!

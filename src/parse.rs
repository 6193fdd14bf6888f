use vstd::prelude::*;

use crate::error::FsError;

verus! {

/// A command line of the transcript, after its `$ ` prompt.
pub enum CommandType {
    List,
    ChangeDirectory { directory_name: String },
}

/// An entry line printed by a listing.
pub enum ListedFile {
    GeneralFile { size: u64 },
    Directory { name: String },
}

/// One line of the transcript.
pub enum InstructionLine {
    Command(CommandType),
    ListContent(ListedFile),
}

pub open spec fn prompt_prefix() -> Seq<char> {
    seq!['$', ' ']
}

pub open spec fn cd_prefix() -> Seq<char> {
    seq!['c', 'd', ' ']
}

pub open spec fn dir_prefix() -> Seq<char> {
    seq!['d', 'i', 'r', ' ']
}

pub open spec fn is_digit(c: char) -> bool {
    '0' <= c && c <= '9'
}

/// The value of a string of decimal digits.
pub open spec fn digits_value(s: Seq<char>) -> nat
    decreases s.len(),
{
    if s.len() == 0 {
        0
    } else {
        digits_value(s.drop_last()) * 10 + ((s.last() as u32) - ('0' as u32)) as nat
    }
}

/// What a decimal literal denotes as a `u64`: an optional `+`, then at least
/// one digit and nothing else, with a value in range.
pub open spec fn decimal_u64(s: Seq<char>) -> Option<u64> {
    let d = if s.len() > 0 && s[0] == '+' {
        s.skip(1)
    } else {
        s
    };
    if d.len() > 0 && (forall|i: int| 0 <= i < d.len() ==> is_digit(#[trigger] d[i]))
        && digits_value(d) <= u64::MAX {
        Some(digits_value(d) as u64)
    } else {
        None
    }
}

/// The characters before the first space (all of them if there is none).
pub open spec fn before_space(s: Seq<char>) -> Seq<char>
    decreases s.len(),
{
    if s.len() == 0 || s[0] == ' ' {
        Seq::empty()
    } else {
        seq![s[0]] + before_space(s.skip(1))
    }
}

/// Relies on `str::strip_prefix`: `Some` of the rest exactly when `p` starts `s`.
#[verifier::external_body]
fn strip_prefix<'a>(s: &'a str, p: &str) -> (r: Option<&'a str>)
    ensures
        r is Some <==> p@.is_prefix_of(s@),
        r matches Some(t) ==> t@ == s@.skip(p@.len() as int),
{
    s.strip_prefix(p)
}

/// Relies on `str::split_once` with a space: the text before the first space
/// and the text after it, or `None` where `s` holds no space.
#[verifier::external_body]
fn split_at_space<'a>(s: &'a str) -> (r: Option<(&'a str, &'a str)>)
    ensures
        r is Some <==> s@.contains(' '),
        r matches Some((a, b)) ==> a@ == before_space(s@) && b@ == s@.skip(
            before_space(s@).len() + 1int,
        ),
{
    s.split_once(' ')
}

/// Relies on `<u64 as FromStr>::from_str`, which takes an optional `+` and
/// decimal digits and refuses anything else or a value out of range.
#[verifier::external_body]
fn parse_u64(s: &str) -> (r: Option<u64>)
    ensures
        r == decimal_u64(s@),
{
    s.parse::<u64>().ok()
}

/// `c` is the command that the text `s` after the prompt stands for.
pub open spec fn command_of(s: Seq<char>, c: CommandType) -> bool {
    if cd_prefix().is_prefix_of(s) {
        c matches CommandType::ChangeDirectory { directory_name } && directory_name@ == s.skip(3)
    } else {
        c is List
    }
}

/// The listing line `s` is well formed.
pub open spec fn listing_ok(s: Seq<char>) -> bool {
    dir_prefix().is_prefix_of(s) || (s.contains(' ') && decimal_u64(before_space(s)) is Some)
}

/// `f` is the entry that the well-formed listing line `s` stands for.
pub open spec fn listing_of(s: Seq<char>, f: ListedFile) -> bool {
    if dir_prefix().is_prefix_of(s) {
        f matches ListedFile::Directory { name } && name@ == s.skip(4)
    } else {
        f matches ListedFile::GeneralFile { size } && decimal_u64(before_space(s)) == Some(size)
    }
}

/// The transcript line `s` is well formed.
pub open spec fn line_ok(s: Seq<char>) -> bool {
    prompt_prefix().is_prefix_of(s) || listing_ok(s)
}

/// `l` is the instruction that the well-formed transcript line `s` stands for.
pub open spec fn line_of(s: Seq<char>, l: InstructionLine) -> bool {
    if prompt_prefix().is_prefix_of(s) {
        l matches InstructionLine::Command(c) && command_of(s.skip(2), c)
    } else {
        l matches InstructionLine::ListContent(f) && listing_of(s, f)
    }
}

impl CommandType {
    /// Reads the text after the prompt: `cd <name>` or, for anything else, a
    /// listing.
    pub fn parse_instruction(input: &str) -> (r: CommandType)
        ensures
            command_of(input@, r),
    {
        proof {
            reveal_strlit("cd ");
            assert("cd "@ =~= cd_prefix());
        }
        match strip_prefix(input, "cd ") {
            Some(directory_name) => CommandType::ChangeDirectory {
                directory_name: directory_name.to_owned(),
            },
            None => CommandType::List,
        }
    }
}

impl ListedFile {
    /// Reads a listing line: `dir <name>` or `<size> <file name>`.
    pub fn parse_line(line: &str) -> (r: Result<ListedFile, FsError>)
        ensures
            r is Ok <==> listing_ok(line@),
            r matches Ok(f) ==> listing_of(line@, f),
            r is Err ==> r == Err::<ListedFile, FsError>(FsError::MalformedLine),
    {
        proof {
            reveal_strlit("dir ");
            assert("dir "@ =~= dir_prefix());
        }
        match strip_prefix(line, "dir ") {
            Some(name) => Ok(ListedFile::Directory { name: name.to_owned() }),
            None => match split_at_space(line) {
                Some((size, _)) => match parse_u64(size) {
                    Some(size) => Ok(ListedFile::GeneralFile { size }),
                    None => Err(FsError::MalformedLine),
                },
                None => Err(FsError::MalformedLine),
            },
        }
    }
}

/// Reads one transcript line.
pub fn parse_instruction_line(line: &str) -> (r: Result<InstructionLine, FsError>)
    ensures
        r is Ok <==> line_ok(line@),
        r matches Ok(l) ==> line_of(line@, l),
        r is Err ==> r == Err::<InstructionLine, FsError>(FsError::MalformedLine),
{
    proof {
        reveal_strlit("$ ");
        assert("$ "@ =~= prompt_prefix());
    }
    match strip_prefix(line, "$ ") {
        Some(command) => {
            let c = CommandType::parse_instruction(command);
            Ok(InstructionLine::Command(c))
        },
        None => match ListedFile::parse_line(line) {
            Ok(f) => Ok(InstructionLine::ListContent(f)),
            Err(e) => Err(e),
        },
    }
}

/// Reads a whole transcript, one instruction per line and in order; the
/// first malformed line fails the whole of it.
pub fn parse_input(lines: &Vec<String>) -> (r: Result<Vec<InstructionLine>, FsError>)
    ensures
        r is Ok <==> forall|i: int| 0 <= i < lines@.len() ==> line_ok(#[trigger] lines@[i]@),
        r matches Ok(v) ==> v@.len() == lines@.len() && forall|i: int|
            0 <= i < lines@.len() ==> line_of(#[trigger] lines@[i]@, v@[i]),
        r is Err ==> r == Err::<Vec<InstructionLine>, FsError>(FsError::MalformedLine),
{
    let mut result: Vec<InstructionLine> = Vec::new();
    let mut i: usize = 0;
    while i < lines.len()
        invariant
            i <= lines@.len(),
            result@.len() == i,
            forall|j: int| 0 <= j < i ==> line_ok(#[trigger] lines@[j]@),
            forall|j: int| 0 <= j < i ==> line_of(#[trigger] lines@[j]@, result@[j]),
        decreases lines@.len() - i,
    {
        match parse_instruction_line(lines[i].as_str()) {
            Ok(l) => result.push(l),
            Err(e) => return Err(e),
        }
        i = i + 1;
    }
    Ok(result)
}

} // verus!

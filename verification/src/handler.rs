//! The line protocol of the restore server: what a line asks for, and the
//! text of the answers.

use crate::data::BundleId;
use crate::hex::hex_string;
use crate::scheduler::JobStatus;
use vstd::prelude::*;
use vstd::string::StringSliceAdditionalSpecFns;

verus! {

/// Whether `c` is ASCII white space.
pub open spec fn is_space(c: char) -> bool {
    c == ' ' || ('\u{9}' <= c <= '\u{d}')
}

/// The position of the first blank in `text`, or its length if it has none.
pub open spec fn first_blank(text: Seq<char>) -> int
    decreases text.len(),
{
    if text.len() == 0 {
        0
    } else if text[0] == ' ' {
        0
    } else {
        1 + first_blank(text.skip(1))
    }
}

/// How many characters of white space `text` begins with.
pub open spec fn leading_space(text: Seq<char>) -> int
    decreases text.len(),
{
    if text.len() == 0 || !is_space(text[0]) {
        0
    } else {
        1 + leading_space(text.skip(1))
    }
}

/// How many characters of white space `text` ends with.
pub open spec fn trailing_space(text: Seq<char>) -> int
    decreases text.len(),
{
    if text.len() == 0 || !is_space(text.last()) {
        0
    } else {
        1 + trailing_space(text.drop_last())
    }
}

/// `text` without the white space at its ends.
pub open spec fn trimmed(text: Seq<char>) -> Seq<char> {
    let from = leading_space(text);
    if from == text.len() {
        Seq::empty()
    } else {
        text.subrange(from, text.len() - trailing_space(text))
    }
}

/// `c` in lower case, if it is an ASCII capital; else `c`.
pub open spec fn lower(c: char) -> char {
    if 'A' <= c <= 'Z' {
        ((c as u8) + 32) as char
    } else {
        c
    }
}

/// `text` with its ASCII capitals in lower case.
pub open spec fn lowered(text: Seq<char>) -> Seq<char> {
    text.map_values(|c: char| lower(c))
}

/// What a line asks for.
#[derive(Clone, Debug, PartialEq, Eq)]
pub enum Command {
    /// The line is empty: the peer has gone.
    Disconnect,
    /// `exit`: end the conversation.
    Exit,
    /// `reindex`: load the master index anew.
    Reindex,
    /// `restore <backup-name>`: send the backup.
    Restore(String),
    /// `status`: say which bundles are being read and which wait.
    Status,
    /// Anything else; the command as given, in lower case.
    NotRecognised(String),
}

/// What a `Command` stands for.
pub enum CommandSpec {
    Disconnect,
    Exit,
    Reindex,
    Restore(Seq<char>),
    Status,
    NotRecognised(Seq<char>),
}

impl View for Command {
    type V = CommandSpec;

    open spec fn view(&self) -> CommandSpec {
        match self {
            Command::Disconnect => CommandSpec::Disconnect,
            Command::Exit => CommandSpec::Exit,
            Command::Reindex => CommandSpec::Reindex,
            Command::Restore(name) => CommandSpec::Restore(name@),
            Command::Status => CommandSpec::Status,
            Command::NotRecognised(name) => CommandSpec::NotRecognised(name@),
        }
    }
}

/// The command of a line: the text before the first blank, trimmed and in
/// lower case.
pub open spec fn command_word(line: Seq<char>) -> Seq<char> {
    lowered(trimmed(line.take(first_blank(line))))
}

/// The argument of a line: the text after the first blank, trimmed; empty
/// where there is no blank.
pub open spec fn command_rest(line: Seq<char>) -> Seq<char> {
    if first_blank(line) < line.len() {
        trimmed(line.skip(first_blank(line) + 1))
    } else {
        Seq::empty()
    }
}

/// What a line of ASCII asks for.
pub open spec fn command_of(line: Seq<char>) -> CommandSpec {
    if line.len() == 0 {
        CommandSpec::Disconnect
    } else if command_word(line) == "exit"@ {
        CommandSpec::Exit
    } else if command_word(line) == "reindex"@ {
        CommandSpec::Reindex
    } else if command_word(line) == "restore"@ {
        CommandSpec::Restore(command_rest(line))
    } else if command_word(line) == "status"@ {
        CommandSpec::Status
    } else {
        CommandSpec::NotRecognised(command_word(line))
    }
}

/// `str::to_ascii_lowercase` of the standard library: a copy in which each
/// of `A`-`Z` is replaced by its lower case letter and every other
/// character is kept.
#[verifier::external_body]
pub(crate) fn ascii_lowercase(text: &str) -> (copy: String)
    ensures
        copy@ == lowered(text@),
{
    text.to_ascii_lowercase()
}

fn find_blank(line: &str) -> (at: usize)
    requires
        line.is_ascii(),
    ensures
        at == first_blank(line@),
        at <= line@.len(),
{
    broadcast use vstd::string::is_ascii_spec_bytes;

    let bytes = line.as_bytes();
    let mut i: usize = 0;
    proof {
        assert(line@.skip(0) =~= line@);
        reveal_with_fuel(first_blank, 2);
    }
    while i < bytes.len()
        invariant
            i <= bytes@.len(),
            line.is_ascii(),
            bytes@ == line.spec_bytes(),
            bytes@.len() == line@.len(),
            first_blank(line@) == i + first_blank(line@.skip(i as int)),
        decreases bytes@.len() - i,
    {
        proof {
            assert(line@.skip(i as int)[0] == line@[i as int]);
            assert(line@.skip(i as int).skip(1) =~= line@.skip(i + 1));
            assert(bytes@[i as int] == line@[i as int] as u8);
            assert('\0' <= line@[i as int] <= '\u{7f}');
        }
        if bytes[i] == 32 {
            return i;
        }
        i = i + 1;
    }
    i
}

fn space_byte(b: u8) -> (space: bool)
    ensures
        space == (b == 32 || (9 <= b <= 13)),
{
    b == 32 || (9 <= b && b <= 13)
}

fn trim<'a>(text: &'a str) -> (cut: &'a str)
    requires
        text.is_ascii(),
    ensures
        cut@ == trimmed(text@),
        cut.is_ascii(),
{
    broadcast use vstd::string::is_ascii_spec_bytes;

    let bytes = text.as_bytes();
    let n = bytes.len();
    let mut from: usize = 0;
    proof {
        assert(text@.skip(0) =~= text@);
        assert forall|k: int| 0 <= k < text@.len() implies is_space(#[trigger] text@[k]) == (
        bytes@[k] == 32 || (9 <= bytes@[k] <= 13)) by {
            assert(bytes@[k] == text@[k] as u8);
            assert('\0' <= text@[k] <= '\u{7f}');
        }
    }
    while from < n && space_byte(bytes[from])
        invariant
            from <= n,
            n == text@.len(),
            n == bytes@.len(),
            forall|k: int|
                0 <= k < text@.len() ==> is_space(#[trigger] text@[k]) == (bytes@[k] == 32 || (9
                    <= bytes@[k] <= 13)),
            leading_space(text@) == from + leading_space(text@.skip(from as int)),
        decreases n - from,
    {
        proof {
            assert(text@.skip(from as int)[0] == text@[from as int]);
            assert(text@.skip(from as int).skip(1) =~= text@.skip(from + 1));
        }
        from = from + 1;
    }
    proof {
        if from < n {
            assert(text@.skip(from as int)[0] == text@[from as int]);
        }
        assert(leading_space(text@) == from);
    }
    if from == n {
        return text.substring_ascii(0, 0);
    }
    let mut to: usize = n;
    proof {
        assert(text@.take(n as int) =~= text@);
    }
    while to > from && space_byte(bytes[to - 1])
        invariant
            from < to <= n,
            n == text@.len(),
            n == bytes@.len(),
            forall|k: int|
                0 <= k < text@.len() ==> is_space(#[trigger] text@[k]) == (bytes@[k] == 32 || (9
                    <= bytes@[k] <= 13)),
            !is_space(text@[from as int]),
            trailing_space(text@) == (n - to) + trailing_space(text@.take(to as int)),
        decreases to,
    {
        proof {
            assert(text@.take(to as int).last() == text@[to - 1]);
            assert(text@.take(to as int).drop_last() =~= text@.take(to - 1));
            assert(is_space(text@[to - 1]));
        }
        to = to - 1;
    }
    proof {
        assert(to > from);
        assert(text@.take(to as int).last() == text@[to - 1]);
        assert(trailing_space(text@) == n - to);
    }
    text.substring_ascii(from, to)
}

fn is_word(word: &String, literal: &str) -> (same: bool)
    ensures
        same == (word@ == literal@),
{
    let other = String::from_str(literal);
    word.eq(&other)
}

/// Reads a line of the protocol.  A line that is not ASCII asks for
/// nothing that is recognised.
pub fn parse_command(line: &str) -> (command: Command)
    ensures
        line.is_ascii() ==> command@ == command_of(line@),
        !line.is_ascii() ==> command@ == CommandSpec::NotRecognised(line@),
{
    if !line.is_ascii() {
        return Command::NotRecognised(String::from_str(line));
    }
    if line.unicode_len() == 0 {
        return Command::Disconnect;
    }
    let at = find_blank(line);
    let head = trim(line.substring_ascii(0, at));
    let word = ascii_lowercase(head);
    let rest = if at < line.unicode_len() {
        trim(line.substring_ascii(at + 1, line.unicode_len()))
    } else {
        line.substring_ascii(0, 0)
    };
    proof {
        assert(line@.subrange(0, at as int) =~= line@.take(at as int));
        assert(line@.subrange(at + 1, line@.len() as int) =~= line@.skip(at + 1));
        assert(line@.subrange(0, 0) =~= Seq::<char>::empty());
        assert(word@ == command_word(line@));
        assert(rest@ == command_rest(line@));
    }
    if is_word(&word, "exit") {
        Command::Exit
    } else if is_word(&word, "reindex") {
        Command::Reindex
    } else if is_word(&word, "restore") {
        Command::Restore(String::from_str(rest))
    } else if is_word(&word, "status") {
        Command::Status
    } else {
        Command::NotRecognised(word)
    }
}

/// The answer to a command that went well.
pub open spec fn ok_text() -> Seq<char> {
    "OK\n"@
}

/// The answer to a command that failed.
pub open spec fn error_text(message: Seq<char>) -> Seq<char> {
    "ERROR "@ + message + "\n"@
}

/// The answer to a command that went well.
pub fn ok_response() -> (text: String)
    ensures
        text@ == ok_text(),
{
    String::from_str("OK\n")
}

/// The answer to a command that failed.
pub fn error_response(message: &str) -> (text: String)
    ensures
        text@ == error_text(message@),
{
    let mut text = String::from_str("ERROR ");
    text.append(message);
    text.append("\n");
    text
}

/// The answer to a command that is not recognised.
pub fn not_recognised_response(command_name: &str) -> (text: String)
    ensures
        text@ == error_text("Command not recognised: "@ + command_name@),
{
    let mut text = String::from_str("ERROR ");
    text.append("Command not recognised: ");
    text.append(command_name);
    text.append("\n");
    proof {
        assert(text@ =~= error_text("Command not recognised: "@ + command_name@));
    }
    text
}

/// The identifiers as a list in the status answer: each in hexadecimal
/// between double quotes, a blank before the first, a comma and a blank
/// before every other.
pub open spec fn id_list_text(ids: Seq<BundleId>) -> Seq<char>
    decreases ids.len(),
{
    if ids.len() == 0 {
        Seq::empty()
    } else {
        id_list_text(ids.drop_last()) + if ids.len() == 1 {
            " "@
        } else {
            ", "@
        } + "\""@ + hex_string(ids.last()@) + "\""@
    }
}

/// The status answer.
pub open spec fn status_text(bundles_loading: Seq<BundleId>, bundles_to_load: Seq<BundleId>) -> Seq<
    char,
> {
    "{ \"bundles-loading\": ["@ + id_list_text(bundles_loading) + " ], \"bundles-to-load\": ["@
        + id_list_text(bundles_to_load) + " ] }\n"@
}

fn append_id_list(text: &mut String, ids: &Vec<BundleId>)
    ensures
        final(text)@ == old(text)@ + id_list_text(ids@),
{
    let mut i: usize = 0;
    proof {
        assert(ids@.take(0) =~= Seq::<BundleId>::empty());
        assert(text@ =~= old(text)@ + id_list_text(ids@.take(0)));
    }
    while i < ids.len()
        invariant
            i <= ids@.len(),
            text@ == old(text)@ + id_list_text(ids@.take(i as int)),
        decreases ids@.len() - i,
    {
        if i == 0 {
            text.append(" ");
        } else {
            text.append(", ");
        }
        text.append("\"");
        let name = ids[i].to_hex();
        text.append(name.as_str());
        text.append("\"");
        proof {
            assert(ids@.take(i + 1).drop_last() =~= ids@.take(i as int));
            assert(ids@.take(i + 1).last() == ids@[i as int]);
            assert(text@ =~= old(text)@ + id_list_text(ids@.take(i + 1)));
        }
        i = i + 1;
    }
    proof {
        assert(ids@.take(i as int) =~= ids@);
    }
}

/// The status answer: the bundles being read and those waiting, as a JSON
/// object on one line.
pub fn status_json(status: &JobStatus) -> (text: String)
    ensures
        text@ == status_text(status.bundles_loading@, status.bundles_to_load@),
{
    let mut text = String::from_str("{ \"bundles-loading\": [");
    append_id_list(&mut text, &status.bundles_loading);
    text.append(" ], \"bundles-to-load\": [");
    append_id_list(&mut text, &status.bundles_to_load);
    text.append(" ] }\n");
    text
}

} // verus!

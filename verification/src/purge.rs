//! Removal of what the harness left behind on the host: the containers and
//! the networks whose listing carries the project's marker.
//!
//! Nothing here runs a command. A `Purge` says which command to run next,
//! takes what the command gave back, and says what to print and what to do
//! after it.

use vstd::prelude::*;
use vstd::slice::slice_subrange;
use vstd::string::StringSliceAdditionalSpecFns;
use vstd::utf8::decode_utf8;
use vstd::utf8::encode_utf8_decode_utf8;
use vstd::utf8::valid_utf8;
use core::str::Utf8Error;
use crate::bytes::contains;
use crate::canonical::same_text;
use crate::decimal::decimal;
use crate::decimal::push_decimal;
use crate::bytes::occurs;
use crate::bytes::occurs_at;
use crate::decimal::digit;
use crate::decimal::lemma_decimal_digits;
use crate::network::network_name;
use crate::network::PROJECT;
use vstd::utf8::encode_utf8;
use crate::bytes::span;
use crate::bytes::span_from;
use vstd::utf8::is_ascii_chars_encode_utf8;

verus! {

/// `core::str::Utf8Error`, which tells where a text stops being valid
/// UTF-8. Nothing of what it holds is known here.
#[verifier::external_type_specification]
#[verifier::external_body]
pub struct ExUtf8Error(Utf8Error);

/// `core::str::from_utf8` gives the bytes back as text where they are valid
/// UTF-8, and an error where they are not.
pub assume_specification[ core::str::from_utf8 ](v: &[u8]) -> (r: Result<&str, Utf8Error>)
    ensures
        r is Ok <==> valid_utf8(v@),
        r is Ok ==> r->Ok_0.spec_bytes() == v@,
;

/// The number of bytes at the start of a listing's line that identify what
/// the line lists.
pub const ID_LEN: usize = 12;

/// The marker that the name of everything made by the harness carries: the
/// bytes of the project's name, `dns-test`.
pub open spec fn marker() -> Seq<u8> {
    seq![100, 110, 115, 45, 116, 101, 115, 116]
}

/// The first line of `text`, without its line ending: what stands before
/// the first line feed, less a carriage return just before that line feed.
pub open spec fn first_line(text: Seq<u8>) -> Seq<u8> {
    let end = span(text, 10) as int;
    if 0 < end < text.len() && text[end - 1] == 13 {
        text.take(end - 1)
    } else {
        text.take(end)
    }
}

/// What follows the first line of `text` and its line ending.
pub open spec fn after_first_line(text: Seq<u8>) -> Seq<u8> {
    let end = span(text, 10) as int;
    if end < text.len() {
        text.skip(end + 1)
    } else {
        Seq::empty()
    }
}

/// The lines of `text`. A line ends at a line feed, or at a carriage return
/// and a line feed; the last line may do without. The empty text has no
/// line.
pub open spec fn lines(text: Seq<u8>) -> Seq<Seq<u8>>
    decreases text.len(),
{
    if text.len() == 0 {
        Seq::empty()
    } else {
        seq![first_line(text)] + lines(after_first_line(text))
    }
}

/// The identifier at the start of `line`: its first `ID_LEN` bytes as text.
/// A line that is shorter, or that has half a character there, has none.
pub open spec fn id_of(line: Seq<u8>) -> Option<Seq<char>> {
    if line.len() >= ID_LEN && valid_utf8(line.take(ID_LEN as int)) {
        Some(decode_utf8(line.take(ID_LEN as int)))
    } else {
        None
    }
}

/// The identifiers of the lines that carry the marker, in the order of the
/// lines; or the index of the first such line that has no identifier.
pub open spec fn marked_ids(lines: Seq<Seq<u8>>) -> Result<Seq<Seq<char>>, int>
    decreases lines.len(),
{
    if lines.len() == 0 {
        Ok(Seq::empty())
    } else {
        let before = marked_ids(lines.drop_last());
        if before is Err || !occurs(lines.last(), marker()) {
            before
        } else if id_of(lines.last()) is None {
            Err(lines.len() - 1)
        } else {
            Ok(before->Ok_0.push(id_of(lines.last())->Some_0))
        }
    }
}

/// The texts of a list of strings.
pub open spec fn texts(strings: Seq<String>) -> Seq<Seq<char>> {
    Seq::new(strings.len(), |i: int| strings[i]@)
}

/// Why a purge stopped.
#[derive(Clone, Debug, PartialEq, Eq)]
pub enum PurgeError {
    /// The argument names nothing that can be purged.
    UnexpectedArgument { argument: String },
    /// A command did not succeed. The program and the status come as they
    /// are shown for debugging, the error output as text.
    CommandFailed { program: String, status: String, stderr: String },
    /// The output of a listing is not valid UTF-8.
    InvalidUtf8,
    /// The line at this index of a listing carries the marker and has no
    /// identifier.
    MalformedLine { line: usize },
}

/// The outcome of filtering the output `stdout` of a listing.
pub open spec fn filtered(stdout: Seq<u8>, ids: Result<Vec<String>, PurgeError>) -> bool {
    if !valid_utf8(stdout) {
        ids matches Err(PurgeError::InvalidUtf8)
    } else {
        match marked_ids(lines(stdout)) {
            Ok(found) => ids is Ok && texts(ids->Ok_0@) == found,
            Err(line) => ids matches Err(PurgeError::MalformedLine { line: l }) && l == line,
        }
    }
}

/// Picks, from the output of a listing, the identifier of each line that
/// carries the marker.
pub fn filter_command_output(stdout: &[u8]) -> (ids: Result<Vec<String>, PurgeError>)
    ensures
        filtered(stdout@, ids),
{
    if core::str::from_utf8(stdout).is_err() {
        return Err(PurgeError::InvalidUtf8);
    }
    let marker = marker_bytes();
    let len: usize = stdout.len();
    let mut ids: Vec<String> = Vec::new();
    let mut start: usize = 0;
    let mut count: usize = 0;
    let ghost mut done: Seq<Seq<u8>> = Seq::empty();
    proof {
        assert(stdout@.skip(0) =~= stdout@);
        assert(done + lines(stdout@) =~= lines(stdout@));
    }
    while start < len
        invariant
            valid_utf8(stdout@),
            len == stdout@.len(),
            marker@ == self::marker(),
            start <= len,
            count == done.len(),
            count <= start,
            lines(stdout@) == done + lines(stdout@.skip(start as int)),
            marked_ids(done) is Ok,
            texts(ids@) == marked_ids(done)->Ok_0,
        decreases len - start,
    {
        let ghost rest = stdout@.skip(start as int);
        let n = span_from(stdout, start, 10);
        let end: usize = start + n;
        let cut: usize = if 0 < n && end < len && stdout[end - 1] == 13 {
            end - 1
        } else {
            end
        };
        let line = slice_subrange(stdout, start, cut);
        let next: usize = if end < len {
            end + 1
        } else {
            len
        };
        proof {
            assert(line@ =~= first_line(rest));
            assert(stdout@.skip(next as int) =~= after_first_line(rest));
            assert(done + lines(rest) =~= done.push(line@) + lines(stdout@.skip(next as int)));
            assert(done.push(line@).drop_last() =~= done);
            assert(done.push(line@).last() == line@);
        }
        if contains(line, marker) {
            if line.len() < ID_LEN {
                proof {
                    assert(marked_ids(done.push(line@)) == Err::<Seq<Seq<char>>, int>(
                        count as int,
                    ));
                    lemma_marked_ids_prefix(done.push(line@), lines(stdout@.skip(next as int)));
                }
                return Err(PurgeError::MalformedLine { line: count });
            }
            match core::str::from_utf8(slice_subrange(line, 0, ID_LEN)) {
                Ok(id) => {
                    proof {
                        encode_utf8_decode_utf8(id@);
                        assert(line@.take(ID_LEN as int) =~= line@.subrange(0, ID_LEN as int));
                    }
                    ids.push(id.to_owned());
                    assert(texts(ids@) =~= marked_ids(done.push(line@))->Ok_0);
                },
                Err(_) => {
                    proof {
                        assert(line@.take(ID_LEN as int) =~= line@.subrange(0, ID_LEN as int));
                        assert(marked_ids(done.push(line@)) == Err::<Seq<Seq<char>>, int>(
                            count as int,
                        ));
                        lemma_marked_ids_prefix(done.push(line@), lines(stdout@.skip(next as int)));
                    }
                    return Err(PurgeError::MalformedLine { line: count });
                },
            }
        }
        proof {
            done = done.push(line@);
        }
        start = next;
        count += 1;
    }
    proof {
        assert(lines(stdout@.skip(start as int)) =~= Seq::<Seq<u8>>::empty());
        assert(done + Seq::<Seq<u8>>::empty() =~= done);
    }
    Ok(ids)
}

/// The line that has no identifier stops the whole listing, whatever
/// follows it.
proof fn lemma_marked_ids_prefix(head: Seq<Seq<u8>>, tail: Seq<Seq<u8>>)
    requires
        marked_ids(head) is Err,
    ensures
        marked_ids(head + tail) == marked_ids(head),
    decreases tail.len(),
{
    if tail.len() == 0 {
        assert(head + tail =~= head);
    } else {
        assert((head + tail).drop_last() =~= head + tail.drop_last());
        lemma_marked_ids_prefix(head, tail.drop_last());
    }
}

/// The marker, as bytes.
fn marker_bytes() -> (bytes: &'static [u8])
    ensures
        bytes@ == marker(),
{
    proof {
        reveal_strlit("dns-test");
        is_ascii_chars_encode_utf8(PROJECT@);
        assert(PROJECT.spec_bytes() =~= marker());
    }
    PROJECT.as_bytes()
}

impl PurgeError {
    /// The text of the error.
    pub open spec fn text(&self) -> Seq<char> {
        match self {
            PurgeError::UnexpectedArgument { argument } => "Unexpected argument `"@ + argument@
                + "`"@,
            PurgeError::CommandFailed { program, status, stderr } => "command "@ + program@
                + " exited with status-code "@ + status@ + ", stderr:\n"@ + stderr@,
            PurgeError::InvalidUtf8 => "stream did not contain valid UTF-8"@,
            PurgeError::MalformedLine { line } => "no identifier in line "@ + decimal(
                *line as nat,
            ),
        }
    }

    /// Says in words what went wrong.
    pub fn message(&self) -> (text: String)
        ensures
            text@ == self.text(),
    {
        match self {
            PurgeError::UnexpectedArgument { argument } => {
                let mut text = String::from_str("Unexpected argument `");
                text.append(argument.as_str());
                text.append("`");
                text
            },
            PurgeError::CommandFailed { program, status, stderr } => {
                let mut text = String::from_str("command ");
                text.append(program.as_str());
                text.append(" exited with status-code ");
                text.append(status.as_str());
                text.append(", stderr:\n");
                text.append(stderr.as_str());
                text
            },
            PurgeError::InvalidUtf8 => String::from_str("stream did not contain valid UTF-8"),
            PurgeError::MalformedLine { line } => {
                let mut text = String::from_str("no identifier in line ");
                push_decimal(&mut text, *line as u64);
                text
            },
        }
    }
}

/// What a purge removes.
#[derive(Clone, Copy, Debug, PartialEq, Eq, Structural)]
pub enum Kind {
    Container,
    Network,
}

/// What a command left behind when it ended.
pub struct Output {
    /// The program, as it is shown for debugging.
    pub program: String,
    /// Whether the command succeeded.
    pub success: bool,
    /// The exit status, as it is shown for debugging.
    pub status: String,
    /// What the command wrote to its output.
    pub stdout: Vec<u8>,
    /// What the command wrote to its error output, as text.
    pub stderr: String,
}

impl Output {
    /// The error of a command that ended like this.
    pub open spec fn failure(&self, error: PurgeError) -> bool {
        &&& error matches PurgeError::CommandFailed { program, status, stderr }
        &&& program@ == self.program@
        &&& status@ == self.status@
        &&& stderr@ == self.stderr@
    }

    /// Tells whether the command succeeded, and gives the error of one that
    /// did not.
    pub fn check(&self) -> (r: Result<(), PurgeError>)
        ensures
            r is Ok <==> self.success,
            r is Err ==> self.failure(r->Err_0),
    {
        if self.success {
            Ok(())
        } else {
            Err(
                PurgeError::CommandFailed {
                    program: self.program.clone(),
                    status: self.status.clone(),
                    stderr: self.stderr.clone(),
                },
            )
        }
    }
}

/// The arguments of the command that lists what there is of `kind`.
pub open spec fn list_arguments(kind: Kind) -> Seq<Seq<char>> {
    match kind {
        Kind::Container => seq!["ps"@],
        Kind::Network => seq!["network"@, "ls"@],
    }
}

/// The arguments of the command that removes of `kind` what `ids` identify.
pub open spec fn remove_arguments(kind: Kind, ids: Seq<Seq<char>>) -> Seq<Seq<char>> {
    match kind {
        Kind::Container => seq!["rm"@, "-f"@] + ids,
        Kind::Network => seq!["network"@, "rm"@] + ids,
    }
}

/// What is printed where there is nothing of `kind` to remove.
pub open spec fn nothing_text(kind: Kind) -> Seq<char> {
    match kind {
        Kind::Container => "No containers to be removed"@,
        Kind::Network => "No networks to be removed"@,
    }
}

/// What is printed above the list of what was removed of `kind`.
pub open spec fn removed_text(kind: Kind) -> Seq<char> {
    match kind {
        Kind::Container => "Removed containers:"@,
        Kind::Network => "Removed networks:"@,
    }
}

/// A purge on its way: what is still to be cleaned. Containers go first.
pub struct Purge {
    pub clean_container: bool,
    pub clean_network: bool,
}

/// A purge that waits for the listing of what there is of one kind.
pub struct Listing {
    pub kind: Kind,
    pub rest: Purge,
}

/// A purge that waits for the removal of what a listing gave.
pub struct Removal {
    pub kind: Kind,
    pub ids: Vec<String>,
    pub rest: Purge,
}

/// What a listing led to.
pub enum Listed {
    /// Nothing carries the marker: print the message and go on.
    Nothing { message: String, rest: Purge },
    /// Run the removal.
    Remove(Removal),
}

/// What a removal led to: print the heading and the output of the command,
/// and go on.
pub struct Removed {
    pub heading: String,
    pub rest: Purge,
}

impl Purge {
    /// Starts a purge of what the argument names: `network`, `container`,
    /// or both where there is no argument.
    pub fn new(argument: Option<&str>) -> (r: Result<Purge, PurgeError>)
        ensures
            match argument {
                None => r is Ok && r->Ok_0.clean_container && r->Ok_0.clean_network,
                Some(text) => if text@ == "network"@ {
                    r is Ok && !r->Ok_0.clean_container && r->Ok_0.clean_network
                } else if text@ == "container"@ {
                    r is Ok && r->Ok_0.clean_container && !r->Ok_0.clean_network
                } else {
                    r matches Err(PurgeError::UnexpectedArgument { argument: given }) && given@
                        == text@
                },
            },
    {
        match argument {
            None => Ok(Purge { clean_container: true, clean_network: true }),
            Some(text) => {
                if same_text(text, "network") {
                    Ok(Purge { clean_container: false, clean_network: true })
                } else if same_text(text, "container") {
                    Ok(Purge { clean_container: true, clean_network: false })
                } else {
                    Err(PurgeError::UnexpectedArgument { argument: text.to_owned() })
                }
            },
        }
    }

    /// The next listing to make, if anything is still to be cleaned.
    pub fn next(self) -> (listing: Option<Listing>)
        ensures
            listing == if self.clean_container {
                Some(
                    Listing {
                        kind: Kind::Container,
                        rest: Purge { clean_container: false, clean_network: self.clean_network },
                    },
                )
            } else if self.clean_network {
                Some(
                    Listing {
                        kind: Kind::Network,
                        rest: Purge { clean_container: false, clean_network: false },
                    },
                )
            } else {
                None
            },
    {
        if self.clean_container {
            Some(
                Listing {
                    kind: Kind::Container,
                    rest: Purge { clean_container: false, clean_network: self.clean_network },
                },
            )
        } else if self.clean_network {
            Some(
                Listing {
                    kind: Kind::Network,
                    rest: Purge { clean_container: false, clean_network: false },
                },
            )
        } else {
            None
        }
    }
}

impl Listing {
    /// The arguments of the command to run.
    pub fn arguments(&self) -> (arguments: Vec<String>)
        ensures
            texts(arguments@) == list_arguments(self.kind),
    {
        let mut arguments: Vec<String> = Vec::new();
        match self.kind {
            Kind::Container => {
                arguments.push(String::from_str("ps"));
            },
            Kind::Network => {
                arguments.push(String::from_str("network"));
                arguments.push(String::from_str("ls"));
            },
        }
        assert(texts(arguments@) =~= list_arguments(self.kind));
        arguments
    }

    /// The outcome of the listing, for each way that the command may end.
    pub open spec fn outcome(self, output: Output, r: Result<Listed, PurgeError>) -> bool {
        if !output.success {
            r is Err && output.failure(r->Err_0)
        } else if !valid_utf8(output.stdout@) {
            r matches Err(PurgeError::InvalidUtf8)
        } else {
            match marked_ids(lines(output.stdout@)) {
                Err(line) => r matches Err(PurgeError::MalformedLine { line: l }) && l == line,
                Ok(found) => if found.len() == 0 {
                    r matches Ok(Listed::Nothing { message, rest }) && message@ == nothing_text(
                        self.kind,
                    ) && rest == self.rest
                } else {
                    r matches Ok(Listed::Remove(removal)) && removal.kind == self.kind && texts(
                        removal.ids@,
                    ) == found && removal.rest == self.rest
                },
            }
        }
    }

    /// Takes what the listing gave: fails where the command failed, else
    /// picks the identifiers of what carries the marker and tells what to
    /// do with them.
    pub fn listed(self, output: &Output) -> (r: Result<Listed, PurgeError>)
        ensures
            self.outcome(*output, r),
    {
        match output.check() {
            Err(e) => {
                return Err(e);
            },
            Ok(_) => {},
        }
        let ids = match filter_command_output(output.stdout.as_slice()) {
            Err(e) => {
                return Err(e);
            },
            Ok(ids) => ids,
        };
        if ids.len() == 0 {
            let message = match self.kind {
                Kind::Container => String::from_str("No containers to be removed"),
                Kind::Network => String::from_str("No networks to be removed"),
            };
            Ok(Listed::Nothing { message, rest: self.rest })
        } else {
            Ok(Listed::Remove(Removal { kind: self.kind, ids, rest: self.rest }))
        }
    }
}

impl Removal {
    /// The arguments of the command to run.
    pub fn arguments(&self) -> (arguments: Vec<String>)
        ensures
            texts(arguments@) == remove_arguments(self.kind, texts(self.ids@)),
    {
        let mut arguments: Vec<String> = Vec::new();
        match self.kind {
            Kind::Container => {
                arguments.push(String::from_str("rm"));
                arguments.push(String::from_str("-f"));
            },
            Kind::Network => {
                arguments.push(String::from_str("network"));
                arguments.push(String::from_str("rm"));
            },
        }
        let ghost head = texts(arguments@);
        let mut i: usize = 0;
        while i < self.ids.len()
            invariant
                i <= self.ids@.len(),
                head.len() == 2,
                texts(arguments@) == head + texts(self.ids@.take(i as int)),
            decreases self.ids@.len() - i,
        {
            let ghost before = arguments@;
            arguments.push(self.ids[i].clone());
            assert(texts(arguments@) =~= texts(before).push(self.ids@[i as int]@));
            assert(texts(self.ids@.take(i + 1)) =~= texts(self.ids@.take(i as int)).push(
                self.ids@[i as int]@,
            ));
            assert(texts(arguments@) =~= head + texts(self.ids@.take(i + 1)));
            i += 1;
        }
        assert(self.ids@.take(i as int) =~= self.ids@);
        assert(head =~= remove_arguments(self.kind, Seq::empty()));
        arguments
    }

    /// Takes what the removal gave: fails where the command failed, else
    /// tells what to print above the command's output.
    pub fn removed(self, output: &Output) -> (r: Result<Removed, PurgeError>)
        ensures
            r is Ok <==> output.success,
            r is Err ==> output.failure(r->Err_0),
            r is Ok ==> r->Ok_0.heading@ == removed_text(self.kind) && r->Ok_0.rest == self.rest,
    {
        match output.check() {
            Err(e) => {
                return Err(e);
            },
            Ok(_) => {},
        }
        let heading = match self.kind {
            Kind::Container => String::from_str("Removed containers:"),
            Kind::Network => String::from_str("Removed networks:"),
        };
        Ok(Removed { heading, rest: self.rest })
    }
}

/// Every network that is made under the project's name carries the marker
/// in its name, so that a listing shows it as one to remove.
pub proof fn law_networks_carry_marker(pid: nat, count: nat)
    ensures
        occurs(encode_utf8(network_name(PROJECT@, pid, count)), marker()),
{
    reveal_strlit("dns-test");
    let name = network_name(PROJECT@, pid, count);
    lemma_decimal_digits(pid);
    lemma_decimal_digits(count);
    assert forall|i: int| 0 <= i < name.len() implies '\0' <= #[trigger] name[i] <= '\u{7f}' by {
        let first = PROJECT@.len() + 1;
        let second = first + decimal(pid).len() + 1;
        if first <= i < first + decimal(pid).len() {
            let d = choose|d: nat| d < 10 && decimal(pid)[i - first] == digit(d);
        } else if second <= i {
            let d = choose|d: nat| d < 10 && decimal(count)[i - second] == digit(d);
        }
    }
    is_ascii_chars_encode_utf8(name);
    let bytes = encode_utf8(name);
    assert(bytes.subrange(0, 8) =~= marker());
    assert(occurs_at(bytes, marker(), 0));
}

} // verus!

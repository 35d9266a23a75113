//! What a tool is given for each token and what it hands back.
use crate::format::{decimal, decimal_text};
use crate::lines::records;
use crate::text::lemma_encode_concat;
use vstd::prelude::*;
use vstd::string::StringExecFns;
use vstd::utf8::{decode_utf8, decode_utf8_encode_utf8, encode_utf8, valid_utf8};

verus! {

/// What resolving one token produced.
#[derive(Debug)]
pub enum Source {
    /// The token could not be opened; the cause is kept for the diagnostic.
    Unavailable { cause: String },
    /// The stream was read to its end.
    Bytes { data: Vec<u8> },
    /// The stream failed after yielding `data`.
    Interrupted { data: Vec<u8>, cause: String },
}

impl Source {
    /// The bytes that were read, if the token could be opened.
    pub open spec fn content(&self) -> Option<Seq<u8>> {
        match self {
            Source::Unavailable { .. } => None,
            Source::Bytes { data } => Some(data@),
            Source::Interrupted { data, .. } => Some(data@),
        }
    }

    /// The cause of a failure to open or to go on reading, if there was one.
    pub open spec fn failure(&self) -> Option<Seq<char>> {
        match self {
            Source::Unavailable { cause } => Some(cause@),
            Source::Bytes { .. } => None,
            Source::Interrupted { cause, .. } => Some(cause@),
        }
    }

    /// The number of bytes that were read.
    pub open spec fn size(&self) -> nat {
        match self.content() {
            Some(data) => data.len(),
            None => 0,
        }
    }

    /// The bytes that were read, if the token could be opened.
    pub fn data(&self) -> (bytes: Option<&[u8]>)
        ensures
            match bytes {
                Some(b) => self.content() == Some(b@),
                None => self.content() is None,
            },
            self.size() <= usize::MAX,
    {
        match self {
            Source::Unavailable { .. } => None,
            Source::Bytes { data } => {
                let bytes = data.as_slice();
                assert(bytes@.len() == bytes.len());
                Some(bytes)
            },
            Source::Interrupted { data, .. } => {
                let bytes = data.as_slice();
                assert(bytes@.len() == bytes.len());
                Some(bytes)
            },
        }
    }

    /// The cause of a failure to open or to go on reading, if there was one.
    pub fn cause(&self) -> (text: Option<&str>)
        ensures
            match text {
                Some(t) => self.failure() == Some(t@),
                None => self.failure() is None,
            },
    {
        match self {
            Source::Unavailable { cause } => Some(cause.as_str()),
            Source::Bytes { .. } => None,
            Source::Interrupted { cause, .. } => Some(cause.as_str()),
        }
    }
}

/// The text for the two output streams.
#[derive(Debug)]
pub struct Output {
    /// What goes to standard output.
    pub stdout: String,
    /// What goes to the diagnostic stream.
    pub stderr: String,
}

/// The token that stands for standard input.
pub open spec fn is_stdin(token: Seq<char>) -> bool {
    token == seq!['-']
}

/// Whether `token` stands for standard input.
pub fn stdin_token(token: &String) -> (b: bool)
    ensures
        b == is_stdin(token@),
{
    proof {
        reveal_strlit("-");
    }
    let dash = String::from_str("-");
    assert(dash@ =~= seq!['-']);
    *token == dash
}

/// One line for the diagnostic stream: the token, a colon and the cause.
pub open spec fn diagnostic(token: Seq<char>, cause: Seq<char>) -> Seq<char> {
    token + ": "@ + cause + "\n"@
}

/// The cause given for record number `line` when it is not valid UTF-8.
pub open spec fn malformed_cause(line: nat) -> Seq<char> {
    "line "@ + decimal(line) + ": stream did not contain valid UTF-8"@
}

/// The diagnostics for the records numbered in `lines`, in that order.
pub open spec fn line_reports(token: Seq<char>, lines: Seq<nat>) -> Seq<char>
    decreases lines.len(),
{
    if lines.len() == 0 {
        Seq::empty()
    } else {
        line_reports(token, lines.drop_last()) + diagnostic(token, malformed_cause(lines.last()))
    }
}

/// The numbers, counted from one, of the records that are not valid UTF-8.
pub open spec fn malformed_lines(rs: Seq<Seq<u8>>) -> Seq<nat>
    decreases rs.len(),
{
    if rs.len() == 0 {
        Seq::empty()
    } else if valid_utf8(rs.last()) {
        malformed_lines(rs.drop_last())
    } else {
        malformed_lines(rs.drop_last()).push(rs.len())
    }
}

/// The text of a record: what it encodes, and nothing when it is not valid
/// UTF-8 and so is skipped.
pub open spec fn record_text(r: Seq<u8>) -> Seq<char> {
    if valid_utf8(r) {
        decode_utf8(r)
    } else {
        Seq::empty()
    }
}

/// The texts of the records, end to end.
pub open spec fn texts(rs: Seq<Seq<u8>>) -> Seq<char>
    decreases rs.len(),
{
    if rs.len() == 0 {
        Seq::empty()
    } else {
        texts(rs.drop_last()) + record_text(rs.last())
    }
}

/// Every record is valid UTF-8.
pub open spec fn all_decodable(rs: Seq<Seq<u8>>) -> bool {
    forall|i: int| 0 <= i < rs.len() ==> valid_utf8(#[trigger] rs[i])
}

/// A list with one more record is valid UTF-8 record by record exactly
/// when the list is and the record is.
pub proof fn lemma_all_decodable_push(rs: Seq<Seq<u8>>, r: Seq<u8>)
    ensures
        all_decodable(rs.push(r)) <==> all_decodable(rs) && valid_utf8(r),
{
    let next = rs.push(r);
    if all_decodable(next) {
        assert forall|i: int| 0 <= i < rs.len() implies valid_utf8(#[trigger] rs[i]) by {
            assert(rs[i] == next[i]);
        }
        assert(next[rs.len() as int] == r);
    }
    if all_decodable(rs) && valid_utf8(r) {
        assert forall|i: int| 0 <= i < next.len() implies valid_utf8(#[trigger] next[i]) by {
            if i < rs.len() {
                assert(next[i] == rs[i]);
            }
        }
    }
}

/// In a list that is valid UTF-8 record by record, so are the last record
/// and the records before it.
pub proof fn lemma_all_decodable_last(rs: Seq<Seq<u8>>)
    requires
        all_decodable(rs),
        rs.len() > 0,
    ensures
        all_decodable(rs.drop_last()),
        valid_utf8(rs.last()),
{
    lemma_all_decodable_push(rs.drop_last(), rs.last());
    assert(rs.drop_last().push(rs.last()) =~= rs);
}

/// Where every record is valid UTF-8, the texts of the records encode to
/// the bytes of the records: what is passed on is what was read.
pub proof fn lemma_texts_encoding(rs: Seq<Seq<u8>>)
    requires
        all_decodable(rs),
    ensures
        encode_utf8(texts(rs)) =~= rs.flatten(),
    decreases rs.len(),
{
    if rs.len() > 0 {
        let init = rs.drop_last();
        lemma_all_decodable_last(rs);
        lemma_texts_encoding(init);
        lemma_encode_concat(texts(init), decode_utf8(rs.last()));
        decode_utf8_encode_utf8(rs.last());
        init.lemma_flatten_push(rs.last());
        assert(init.push(rs.last()) =~= rs);
    } else {
        assert(rs.flatten() =~= Seq::<u8>::empty());
    }
}

/// No record is reported exactly when every record is valid UTF-8.
pub proof fn lemma_malformed_lines(rs: Seq<Seq<u8>>)
    ensures
        malformed_lines(rs).len() == 0 <==> all_decodable(rs),
    decreases rs.len(),
{
    if rs.len() > 0 {
        lemma_malformed_lines(rs.drop_last());
        lemma_all_decodable_push(rs.drop_last(), rs.last());
        assert(rs.drop_last().push(rs.last()) =~= rs);
    }
}

/// The line numbers held in a vector, as mathematical numbers.
pub open spec fn line_numbers(v: Seq<usize>) -> Seq<nat> {
    Seq::new(v.len(), |i: int| v[i] as nat)
}

/// The diagnostic for a failure on a source as a whole, if it had one.
pub open spec fn failure_report(token: Seq<char>, source: Source) -> Seq<char> {
    match source.failure() {
        Some(cause) => diagnostic(token, cause),
        None => Seq::empty(),
    }
}

/// What a tool that reads a whole source line by line reports of it: each
/// record that is not valid UTF-8, in order, then the failure of the source
/// itself.
pub open spec fn source_complaints(token: Seq<char>, source: Source) -> Seq<char> {
    let skipped = match source.content() {
        Some(data) => line_reports(token, malformed_lines(records(data))),
        None => Seq::empty(),
    };
    skipped + failure_report(token, source)
}

/// The diagnostics for the first `n` sources.
pub open spec fn complaints(names: Seq<Seq<char>>, sources: Seq<Source>, n: int) -> Seq<char>
    decreases n,
{
    if n <= 0 {
        Seq::empty()
    } else {
        complaints(names, sources, n - 1) + source_complaints(names[n - 1], sources[n - 1])
    }
}

/// The tokens as texts.
pub open spec fn tokens(files: Seq<String>) -> Seq<Seq<char>> {
    Seq::new(files.len(), |i: int| files[i]@)
}

/// The tokens to work on: those given, or the one for standard input when
/// none is given.
pub fn files_or_stdin(files: Vec<String>) -> (list: Vec<String>)
    ensures
        tokens(list@) == if files@.len() == 0 {
            seq![seq!['-']]
        } else {
            tokens(files@)
        },
        files@.len() > 0 ==> list@ == files@,
{
    if files.len() == 0 {
        proof {
            reveal_strlit("-");
        }
        let mut list: Vec<String> = Vec::new();
        list.push(String::from_str("-"));
        assert(tokens(list@) =~= seq![seq!['-']]) by {
            assert(list@[0]@ =~= seq!['-']);
        }
        list
    } else {
        files
    }
}

/// Appends the diagnostic for `cause` on `token` to `stderr`.
pub fn complain(stderr: &mut String, token: &str, cause: &str)
    ensures
        final(stderr)@ == old(stderr)@ + diagnostic(token@, cause@),
{
    stderr.append(token);
    stderr.append(": ");
    stderr.append(cause);
    stderr.append("\n");
    assert(stderr@ =~= old(stderr)@ + diagnostic(token@, cause@));
}

/// Appends the diagnostic for record number `line` of `token`, which is
/// not valid UTF-8, to `stderr`.
pub fn complain_of_line(stderr: &mut String, token: &str, line: usize)
    ensures
        final(stderr)@ == old(stderr)@ + diagnostic(token@, malformed_cause(line as nat)),
{
    let mut cause = String::from_str("line ");
    cause.append(decimal_text(line as u128).as_str());
    cause.append(": stream did not contain valid UTF-8");
    complain(stderr, token, cause.as_str());
}

/// Appends the diagnostics for the records numbered in `lines`.
pub fn complain_of_lines(stderr: &mut String, token: &str, lines: &Vec<usize>)
    ensures
        final(stderr)@ == old(stderr)@ + line_reports(token@, line_numbers(lines@)),
{
    let mut done: usize = 0;
    while done < lines.len()
        invariant
            done <= lines@.len(),
            stderr@ == old(stderr)@ + line_reports(token@, line_numbers(lines@).take(done as int)),
        decreases lines@.len() - done,
    {
        let ghost before = line_numbers(lines@).take(done as int);
        let ghost after = line_numbers(lines@).take(done + 1);
        assert(after.drop_last() =~= before);
        assert(after.last() == lines@[done as int] as nat);
        complain_of_line(stderr, token, lines[done]);
        assert(stderr@ =~= old(stderr)@ + line_reports(token@, after));
        done = done + 1;
    }
    assert(line_numbers(lines@).take(lines@.len() as int) =~= line_numbers(lines@));
}

} // verus!

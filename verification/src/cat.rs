//! The numbering transform: sources passed on line by line, with or
//! without line numbers.
use crate::config::ConfigError;
use crate::format::{format_number, numeral};
use crate::lines::{lemma_records_join, lemma_records_size, records, LineReader};
use crate::report::{
    all_decodable, complain, complain_of_line, complaints, failure_report, files_or_stdin,
    lemma_all_decodable_last, lemma_texts_encoding, line_reports, malformed_lines,
    source_complaints, texts, tokens, Output, Source,
};
use crate::text::{blank, from_utf8, is_blank};
use vstd::prelude::*;
use vstd::seq_lib::lemma_flatten_concat;
use vstd::string::StringExecFns;
use vstd::utf8::{decode_utf8, encode_utf8, valid_utf8};

verus! {

/// Which lines get a number.
#[derive(Debug, PartialEq, Eq, Clone, Copy, Structural)]
pub enum Numbering {
    /// No line is numbered.
    Off,
    /// Every line is numbered.
    All,
    /// Every line is numbered that holds more than whitespace.
    NonBlank,
}

/// Which sources to pass on and how to number their lines.
#[derive(Debug)]
pub struct Config {
    /// The tokens of the sources, in the order in which they are worked on.
    pub files: Vec<String>,
    /// Number every line.
    pub number_lines: bool,
    /// Number the lines that are not blank.
    pub number_nonblank_lines: bool,
    /// Start again at one for each source, rather than counting on through
    /// all of them.
    pub restart_numbering: bool,
}

impl Config {
    /// The numbering that the two flags select. Numbering of every line
    /// wins where both are set.
    pub open spec fn mode(&self) -> Numbering {
        if self.number_lines {
            Numbering::All
        } else if self.number_nonblank_lines {
            Numbering::NonBlank
        } else {
            Numbering::Off
        }
    }

    /// At most one numbering is asked for, and there is a token.
    pub open spec fn well_formed(&self) -> bool {
        &&& !(self.number_lines && self.number_nonblank_lines)
        &&& self.files@.len() > 0
    }

    /// A configuration for the given tokens and flags, with numbers that
    /// run on through all sources. Without a token the source is standard
    /// input. The two flags exclude each other.
    pub fn new(files: Vec<String>, number_lines: bool, number_nonblank_lines: bool) -> (result:
        Result<Config, ConfigError>)
        ensures
            match result {
                Ok(config) => {
                    &&& !(number_lines && number_nonblank_lines)
                    &&& config.well_formed()
                    &&& config.number_lines == number_lines
                    &&& config.number_nonblank_lines == number_nonblank_lines
                    &&& !config.restart_numbering
                    &&& tokens(config.files@) == if files@.len() == 0 {
                        seq![seq!['-']]
                    } else {
                        tokens(files@)
                    }
                    &&& files@.len() > 0 ==> config.files@ == files@
                },
                Err(e) => number_lines && number_nonblank_lines && e is NumberingConflict,
            },
    {
        if number_lines && number_nonblank_lines {
            return Err(ConfigError::NumberingConflict);
        }
        let files = files_or_stdin(files);
        assert(tokens(files@).len() == files@.len());
        Ok(Config { files, number_lines, number_nonblank_lines, restart_numbering: false })
    }

    /// The numbering that the two flags select.
    pub fn numbering(&self) -> (mode: Numbering)
        ensures
            mode == self.mode(),
    {
        if self.number_lines {
            Numbering::All
        } else if self.number_nonblank_lines {
            Numbering::NonBlank
        } else {
            Numbering::Off
        }
    }
}

/// What stands in front of a numbered line: the number, right-justified in
/// six columns, and a tab.
pub open spec fn label(n: nat) -> Seq<char> {
    numeral(n, 6) + seq!['\t']
}

/// Whether a line with this text gets a number.
pub open spec fn is_numbered(mode: Numbering, text: Seq<char>) -> bool {
    match mode {
        Numbering::Off => false,
        Numbering::All => true,
        Numbering::NonBlank => !is_blank(text),
    }
}

/// A line as it is passed on when `counter` is the next number to give out:
/// behind its label if it gets a number, and as it is otherwise.
pub open spec fn line_output(mode: Numbering, text: Seq<char>, counter: nat) -> Seq<char> {
    if is_numbered(mode, text) {
        label(counter) + text
    } else {
        text
    }
}

/// How many numbers the records use up. A record that is not valid UTF-8 is
/// skipped and uses none.
pub open spec fn numbers_used(mode: Numbering, rs: Seq<Seq<u8>>) -> nat
    decreases rs.len(),
{
    if rs.len() == 0 {
        0
    } else {
        numbers_used(mode, rs.drop_last()) + if valid_utf8(rs.last()) && is_numbered(
            mode,
            decode_utf8(rs.last()),
        ) {
            1nat
        } else {
            0nat
        }
    }
}

/// The lines that are passed on for the records when `first` is the next
/// number to give out, in order. A record that is not valid UTF-8 is
/// skipped.
pub open spec fn emitted_lines(mode: Numbering, rs: Seq<Seq<u8>>, first: nat) -> Seq<Seq<char>>
    decreases rs.len(),
{
    if rs.len() == 0 {
        Seq::empty()
    } else if valid_utf8(rs.last()) {
        emitted_lines(mode, rs.drop_last(), first).push(
            line_output(
                mode,
                decode_utf8(rs.last()),
                first + numbers_used(mode, rs.drop_last()),
            ),
        )
    } else {
        emitted_lines(mode, rs.drop_last(), first)
    }
}

/// The text that is passed on for the records.
pub open spec fn rendered(mode: Numbering, rs: Seq<Seq<u8>>, first: nat) -> Seq<char> {
    emitted_lines(mode, rs, first).flatten()
}

/// The records use no more numbers than there are records.
pub proof fn lemma_numbers_used_bound(mode: Numbering, rs: Seq<Seq<u8>>)
    ensures
        numbers_used(mode, rs) <= rs.len(),
    decreases rs.len(),
{
    if rs.len() > 0 {
        lemma_numbers_used_bound(mode, rs.drop_last());
    }
}

/// Passes on one line and moves the counter: a line that gets a number
/// takes the number that the counter holds and moves it on by one; any
/// other line is passed on as it is and leaves the counter alone.
pub fn emit_line(mode: Numbering, text: &str, counter: &mut u128, stdout: &mut String)
    requires
        *old(counter) < u128::MAX,
    ensures
        final(stdout)@ == old(stdout)@ + line_output(mode, text@, *old(counter) as nat),
        *final(counter) == *old(counter) + if is_numbered(mode, text@) {
            1int
        } else {
            0int
        },
{
    let numbered = match mode {
        Numbering::Off => false,
        Numbering::All => true,
        Numbering::NonBlank => !blank(text),
    };
    if numbered {
        stdout.append(format_number(*counter, 6).as_str());
        stdout.append("\t");
        proof {
            reveal_strlit("\t");
        }
        *counter = *counter + 1;
    }
    stdout.append(text);
    assert(stdout@ =~= old(stdout)@ + line_output(mode, text@, *old(counter) as nat));
}

/// Passes on the records of `data` under the given numbering, starting
/// with the number `first`, and hands back the next number to give out.
fn print_records(token: &str, data: &[u8], mode: Numbering, first: u128) -> (result: (
    Output,
    u128,
))
    requires
        first + data@.len() <= u128::MAX,
    ensures
        result.0.stdout@ == rendered(mode, records(data@), first as nat),
        result.0.stderr@ == line_reports(token@, malformed_lines(records(data@))),
        result.1 == first + numbers_used(mode, records(data@)),
{
    let size = data.len();
    let mut stdout = String::new();
    let mut stderr = String::new();
    let mut counter = first;
    let mut reader = LineReader::new(data);
    let mut line: usize = 0;
    let ghost mut done: Seq<Seq<u8>> = Seq::empty();
    proof {
        lemma_records_size(data@);
    }
    loop
        invariant
            first + data@.len() <= u128::MAX,
            records(data@).len() <= data@.len() == size,
            records(data@) =~= done + reader.remaining(),
            line == done.len(),
            counter == first + numbers_used(mode, done),
            stdout@ == rendered(mode, done, first as nat),
            stderr@ == line_reports(token@, malformed_lines(done)),
        ensures
            reader.remaining().len() == 0,
        decreases reader.remaining().len(),
    {
        match reader.next_record() {
            None => {
                break ;
            },
            Some(record) => {
                let ghost next = done.push(record@);
                proof {
                    assert(next.drop_last() =~= done);
                    lemma_numbers_used_bound(mode, done);
                    assert(done.len() < records(data@).len());
                }
                line = line + 1;
                match from_utf8(record) {
                    Some(text) => {
                        emit_line(mode, text, &mut counter, &mut stdout);
                        proof {
                            emitted_lines(mode, done, first as nat).lemma_flatten_push(
                                line_output(mode, text@, first as nat + numbers_used(mode, done)),
                            );
                        }
                    },
                    None => {
                        complain_of_line(&mut stderr, token, line);
                        assert(malformed_lines(next).drop_last() =~= malformed_lines(done));
                    },
                }
                proof {
                    done = next;
                }
            },
        }
    }
    assert(records(data@) =~= done);
    (Output { stdout, stderr }, counter)
}

/// Without numbering the lines are passed on as they are.
pub proof fn lemma_unnumbered(rs: Seq<Seq<u8>>, first: nat)
    ensures
        rendered(Numbering::Off, rs, first) == texts(rs),
        numbers_used(Numbering::Off, rs) == 0,
    decreases rs.len(),
{
    if rs.len() > 0 {
        let init = rs.drop_last();
        lemma_unnumbered(init, first);
        if valid_utf8(rs.last()) {
            emitted_lines(Numbering::Off, init, first).lemma_flatten_push(decode_utf8(rs.last()));
        }
    }
}

/// Passes on every line of `data` as it is.
pub fn print_lines(token: &str, data: &[u8]) -> (out: Output)
    ensures
        out.stdout@ == texts(records(data@)),
        out.stderr@ == line_reports(token@, malformed_lines(records(data@))),
{
    let size = data.len();
    let (out, _) = print_records(token, data, Numbering::Off, 0);
    proof {
        lemma_unnumbered(records(data@), 0);
    }
    out
}

/// Passes on every line of `data` behind its number, the first line with
/// the number `first`, and hands back the next number to give out.
pub fn print_lines_with_numbers(token: &str, data: &[u8], first: u128) -> (result: (Output, u128))
    requires
        first + data@.len() <= u128::MAX,
    ensures
        result.0.stdout@ == rendered(Numbering::All, records(data@), first as nat),
        result.0.stderr@ == line_reports(token@, malformed_lines(records(data@))),
        result.1 == first + numbers_used(Numbering::All, records(data@)),
{
    print_records(token, data, Numbering::All, first)
}

/// Passes on every line of `data`, those that are not blank behind their
/// numbers, the first of them with the number `first`, and hands back the
/// next number to give out. A blank line is passed on as it is and uses no
/// number.
pub fn print_lines_with_numbers_and_nonblank(token: &str, data: &[u8], first: u128) -> (result: (
    Output,
    u128,
))
    requires
        first + data@.len() <= u128::MAX,
    ensures
        result.0.stdout@ == rendered(Numbering::NonBlank, records(data@), first as nat),
        result.0.stderr@ == line_reports(token@, malformed_lines(records(data@))),
        result.1 == first + numbers_used(Numbering::NonBlank, records(data@)),
{
    print_records(token, data, Numbering::NonBlank, first)
}

/// What is passed on for a source when `first` is the next number to give
/// out: nothing for a source that could not be opened.
pub open spec fn file_output(mode: Numbering, source: Source, first: nat) -> Seq<char> {
    match source.content() {
        Some(data) => rendered(mode, records(data), first),
        None => Seq::empty(),
    }
}

/// How many numbers a source uses up.
pub open spec fn file_numbers(mode: Numbering, source: Source) -> nat {
    match source.content() {
        Some(data) => numbers_used(mode, records(data)),
        None => 0,
    }
}

/// Passes on one source under the numbering that `config` selects, the
/// first numbered line with the number `first`, and hands back the next
/// number to give out. A source that could not be opened is reported and
/// passes nothing on.
pub fn print_one_file(filename: &str, config: &Config, source: &Source, first: u128) -> (result: (
    Output,
    u128,
))
    requires
        first + source.size() <= u128::MAX,
    ensures
        result.0.stdout@ == file_output(config.mode(), *source, first as nat),
        result.0.stderr@ == source_complaints(filename@, *source),
        result.1 == first + file_numbers(config.mode(), *source),
{
    let (mut out, next) = match source.data() {
        None => (Output { stdout: String::new(), stderr: String::new() }, first),
        Some(data) => match config.numbering() {
            Numbering::All => print_lines_with_numbers(filename, data, first),
            Numbering::NonBlank => print_lines_with_numbers_and_nonblank(filename, data, first),
            Numbering::Off => {
                proof {
                    lemma_unnumbered(records(data@), first as nat);
                }
                (print_lines(filename, data), first)
            },
        },
    };
    let ghost skipped = out.stderr@;
    match source.cause() {
        None => {},
        Some(cause) => {
            complain(&mut out.stderr, filename, cause);
        },
    }
    assert(out.stderr@ =~= skipped + failure_report(filename@, *source));
    (out, next)
}

/// The next number to give out when the first `n` sources are done.
pub open spec fn counter_after(config: Config, sources: Seq<Source>, n: int) -> nat
    decreases n,
{
    if n <= 0 {
        1
    } else {
        file_numbers(config.mode(), sources[n - 1]) + if config.restart_numbering {
            1nat
        } else {
            counter_after(config, sources, n - 1)
        }
    }
}

/// The number that the first numbered line of source `n` gets.
pub open spec fn counter_before(config: Config, sources: Seq<Source>, n: int) -> nat {
    if config.restart_numbering {
        1
    } else {
        counter_after(config, sources, n)
    }
}

/// What is passed on for the first `n` sources.
pub open spec fn outputs(config: Config, sources: Seq<Source>, n: int) -> Seq<char>
    decreases n,
{
    if n <= 0 {
        Seq::empty()
    } else {
        outputs(config, sources, n - 1) + file_output(
            config.mode(),
            sources[n - 1],
            counter_before(config, sources, n - 1),
        )
    }
}

/// No source uses more numbers than it has bytes.
pub proof fn lemma_file_numbers_bound(mode: Numbering, source: Source)
    ensures
        file_numbers(mode, source) <= source.size(),
{
    match source.content() {
        Some(data) => {
            lemma_numbers_used_bound(mode, records(data));
            lemma_records_size(data);
        },
        None => {},
    }
}

/// Passes on every source in turn under the numbering that `config`
/// selects. The numbers run on from one source to the next, unless
/// `config` asks to start again at one for each. A source that could not
/// be opened, a record that is not valid UTF-8 and a stream that broke off
/// are reported on the diagnostic stream and stop nothing.
pub fn run(config: &Config, sources: &Vec<Source>) -> (out: Output)
    requires
        sources@.len() == config.files@.len(),
    ensures
        out.stdout@ == outputs(*config, sources@, sources@.len() as int),
        out.stderr@ == complaints(tokens(config.files@), sources@, sources@.len() as int),
{
    let ghost names = tokens(config.files@);
    let mut stdout = String::new();
    let mut stderr = String::new();
    let mut counter: u128 = 1;
    let mut i: usize = 0;
    while i < sources.len()
        invariant
            i <= sources@.len() == config.files@.len(),
            names == tokens(config.files@),
            counter == counter_before(*config, sources@, i as int),
            counter <= 1 + i * 0xffff_ffff_ffff_ffff,
            stdout@ == outputs(*config, sources@, i as int),
            stderr@ == complaints(names, sources@, i as int),
        decreases sources@.len() - i,
    {
        let source = &sources[i];
        let opened = source.data().is_some();
        proof {
            lemma_file_numbers_bound(config.mode(), *source);
        }
        let (out, next) = print_one_file(config.files[i].as_str(), config, source, counter);
        stdout.append(out.stdout.as_str());
        stderr.append(out.stderr.as_str());
        counter = if config.restart_numbering {
            1
        } else {
            next
        };
        i = i + 1;
    }
    Output { stdout, stderr }
}

/// Passes on every source where there is one for each token. Otherwise
/// nothing is done and `None` comes back.
pub fn try_run(config: &Config, sources: &Vec<Source>) -> (result: Option<Output>)
    ensures
        result is Some <==> sources@.len() == config.files@.len(),
        result matches Some(out) ==> {
            &&& out.stdout@ == outputs(*config, sources@, sources@.len() as int)
            &&& out.stderr@ == complaints(
                tokens(config.files@),
                sources@,
                sources@.len() as int,
            )
        },
{
    if sources.len() == config.files.len() {
        Some(run(config, sources))
    } else {
        None
    }
}

/// Where every record is valid UTF-8, each record gives one line, and the
/// line holds the record behind the number that the records before it have
/// left: the first number and as many more as those records used.
pub proof fn lemma_emitted_line(mode: Numbering, rs: Seq<Seq<u8>>, first: nat, i: int)
    requires
        all_decodable(rs),
        0 <= i < rs.len(),
    ensures
        emitted_lines(mode, rs, first).len() == rs.len(),
        emitted_lines(mode, rs, first)[i] == line_output(
            mode,
            decode_utf8(rs[i]),
            first + numbers_used(mode, rs.take(i)),
        ),
    decreases rs.len(),
{
    let init = rs.drop_last();
    lemma_all_decodable_last(rs);
    if init.len() > 0 {
        lemma_emitted_line(mode, init, first, 0);
    } else {
        assert(emitted_lines(mode, init, first).len() == 0);
    }
    assert(emitted_lines(mode, rs, first) == emitted_lines(mode, init, first).push(
        line_output(mode, decode_utf8(rs.last()), first + numbers_used(mode, init)),
    ));
    if i < init.len() {
        lemma_emitted_line(mode, init, first, i);
        assert(init.take(i) =~= rs.take(i));
        assert(init[i] == rs[i]);
    } else {
        assert(rs.take(i) =~= init);
    }
}

/// Where every line is numbered and every record is valid UTF-8, each
/// record uses one number.
pub proof fn lemma_all_numbered(rs: Seq<Seq<u8>>)
    requires
        all_decodable(rs),
    ensures
        numbers_used(Numbering::All, rs) == rs.len(),
    decreases rs.len(),
{
    if rs.len() > 0 {
        lemma_all_decodable_last(rs);
        lemma_all_numbered(rs.drop_last());
    }
}

/// Numbering of all lines gives the lines the numbers `first`, `first + 1`
/// and so on, in order and without a gap: line `i`, counted from zero,
/// stands behind the number `first + i`.
pub proof fn lemma_numbers_in_order(rs: Seq<Seq<u8>>, first: nat, i: int)
    requires
        all_decodable(rs),
        0 <= i < rs.len(),
    ensures
        emitted_lines(Numbering::All, rs, first).len() == rs.len(),
        emitted_lines(Numbering::All, rs, first)[i] == label((first + i) as nat) + decode_utf8(
            rs[i],
        ),
{
    lemma_emitted_line(Numbering::All, rs, first, i);
    let before = rs.take(i);
    assert(all_decodable(before)) by {
        assert forall|j: int| 0 <= j < before.len() implies valid_utf8(#[trigger] before[j]) by {
            assert(before[j] == rs[j]);
        }
    }
    lemma_all_numbered(before);
}

/// Under numbering of non-blank lines a blank line is passed on as it is,
/// with no number in front, and the line after it finds the counter where
/// the blank line found it. A line that is not blank stands behind the
/// number that the counter holds and moves the counter on by one.
pub proof fn lemma_blank_lines_unnumbered(rs: Seq<Seq<u8>>, first: nat, i: int)
    requires
        all_decodable(rs),
        0 <= i < rs.len(),
    ensures
        is_blank(decode_utf8(rs[i])) ==> {
            &&& emitted_lines(Numbering::NonBlank, rs, first)[i] == decode_utf8(rs[i])
            &&& numbers_used(Numbering::NonBlank, rs.take(i + 1)) == numbers_used(
                Numbering::NonBlank,
                rs.take(i),
            )
        },
        !is_blank(decode_utf8(rs[i])) ==> {
            &&& emitted_lines(Numbering::NonBlank, rs, first)[i] == label(
                first + numbers_used(Numbering::NonBlank, rs.take(i)),
            ) + decode_utf8(rs[i])
            &&& numbers_used(Numbering::NonBlank, rs.take(i + 1)) == numbers_used(
                Numbering::NonBlank,
                rs.take(i),
            ) + 1
        },
{
    lemma_emitted_line(Numbering::NonBlank, rs, first, i);
    assert(rs.take(i + 1).drop_last() =~= rs.take(i));
    assert(rs.take(i + 1).last() == rs[i]);
    assert(valid_utf8(rs[i]));
}

/// Numbering two lists of records one after the other is numbering them as
/// one list: the second takes up the count where the first left it.
pub proof fn lemma_emitted_concat(mode: Numbering, a: Seq<Seq<u8>>, b: Seq<Seq<u8>>, first: nat)
    ensures
        numbers_used(mode, a + b) == numbers_used(mode, a) + numbers_used(mode, b),
        emitted_lines(mode, a + b, first) =~= emitted_lines(mode, a, first) + emitted_lines(
            mode,
            b,
            first + numbers_used(mode, a),
        ),
    decreases b.len(),
{
    if b.len() == 0 {
        assert(a + b =~= a);
    } else {
        lemma_emitted_concat(mode, a, b.drop_last(), first);
        assert((a + b).drop_last() =~= a + b.drop_last());
        assert((a + b).last() == b.last());
    }
}

/// The records of the first `n` sources, in order, as one list.
pub open spec fn all_records(sources: Seq<Source>, n: int) -> Seq<Seq<u8>>
    decreases n,
{
    if n <= 0 {
        Seq::empty()
    } else {
        all_records(sources, n - 1) + match sources[n - 1].content() {
            Some(data) => records(data),
            None => Seq::empty(),
        }
    }
}

/// Unless numbering starts again for each source, the numbers run on
/// through all sources: what is passed on for the sources one after the
/// other is what numbering all their records as one list from one gives.
pub proof fn lemma_numbering_runs_on(config: Config, sources: Seq<Source>, n: int)
    requires
        !config.restart_numbering,
    ensures
        counter_after(config, sources, n) == 1 + numbers_used(
            config.mode(),
            all_records(sources, n),
        ),
        outputs(config, sources, n) =~= rendered(config.mode(), all_records(sources, n), 1),
    decreases n,
{
    let mode = config.mode();
    if n > 0 {
        let before = all_records(sources, n - 1);
        let here = match sources[n - 1].content() {
            Some(data) => records(data),
            None => Seq::empty(),
        };
        let next = (1 + numbers_used(mode, before)) as nat;
        lemma_numbering_runs_on(config, sources, n - 1);
        lemma_emitted_concat(mode, before, here, 1);
        lemma_flatten_concat(emitted_lines(mode, before, 1), emitted_lines(mode, here, next));
        if sources[n - 1].content() is None {
            assert(emitted_lines(mode, here, next).flatten() =~= Seq::<char>::empty());
        }
    } else {
        assert(emitted_lines(mode, all_records(sources, n), 1).flatten() =~= Seq::<char>::empty());
    }
}

/// Without numbering, a source that is valid UTF-8 line by line is passed
/// on byte for byte.
pub proof fn lemma_verbatim(data: Seq<u8>)
    requires
        all_decodable(records(data)),
    ensures
        encode_utf8(texts(records(data))) =~= data,
{
    lemma_texts_encoding(records(data));
    lemma_records_join(data);
}

} // verus!

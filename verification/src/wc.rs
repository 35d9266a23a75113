//! The counting transform: lines, words, bytes and characters of each
//! source, and their totals.
use crate::format::{format_number, numeral};
use crate::lines::{
    ends_unterminated, lemma_record_count, lemma_records_join, lemma_records_size,
    lemma_total_len_push, line_feeds, records, total_len, LineReader,
};
use crate::report::{
    all_decodable, complain, complain_of_lines, complaints, failure_report, files_or_stdin,
    is_stdin, lemma_all_decodable_last, lemma_all_decodable_push, lemma_malformed_lines,
    line_numbers, line_reports, malformed_lines, source_complaints, stdin_token, tokens, Output,
    Source,
};
use crate::text::{
    count_chars, count_words, from_utf8, is_ascii_bytes, lemma_ascii_text, lemma_encoded_len,
    lemma_multibyte_text, lemma_word_starts_bound, word_count,
};
use vstd::prelude::*;
use vstd::string::StringExecFns;
use vstd::utf8::{decode_utf8, decode_utf8_encode_utf8, valid_utf8};

verus! {

/// Four counts as mathematical numbers: the model of a `FileInfo`.
pub struct Counts {
    /// Lines.
    pub lines: nat,
    /// Whitespace-delimited words.
    pub words: nat,
    /// Bytes, line terminators included.
    pub bytes: nat,
    /// Unicode scalar values.
    pub chars: nat,
}

impl Counts {
    /// Nothing counted.
    pub open spec fn zero() -> Counts {
        Counts { lines: 0, words: 0, bytes: 0, chars: 0 }
    }

    /// The element-wise sum.
    pub open spec fn plus(self, other: Counts) -> Counts {
        Counts {
            lines: self.lines + other.lines,
            words: self.words + other.words,
            bytes: self.bytes + other.bytes,
            chars: self.chars + other.chars,
        }
    }

    /// Every count fits in a `usize`.
    pub open spec fn fits(self) -> bool {
        &&& self.lines <= usize::MAX
        &&& self.words <= usize::MAX
        &&& self.bytes <= usize::MAX
        &&& self.chars <= usize::MAX
    }
}

/// The counts of one source, or of all sources together.
#[derive(Debug, PartialEq, Eq, Clone, Copy, Structural)]
pub struct FileInfo {
    /// Lines.
    pub num_lines: usize,
    /// Whitespace-delimited words.
    pub num_words: usize,
    /// Bytes, line terminators included.
    pub num_bytes: usize,
    /// Unicode scalar values.
    pub num_chars: usize,
}

impl View for FileInfo {
    type V = Counts;

    open spec fn view(&self) -> Counts {
        Counts {
            lines: self.num_lines as nat,
            words: self.num_words as nat,
            bytes: self.num_bytes as nat,
            chars: self.num_chars as nat,
        }
    }
}

impl FileInfo {
    /// Nothing counted yet.
    pub fn new() -> (info: Self)
        ensures
            info@ == Counts::zero(),
    {
        FileInfo { num_lines: 0, num_words: 0, num_bytes: 0, num_chars: 0 }
    }

    /// Counts one record: a line, its words, its bytes and its characters.
    /// A record that is not valid UTF-8 is skipped, and `false` comes back.
    pub fn count_record(&mut self, record: &[u8]) -> (valid: bool)
        requires
            old(self)@.plus(record_counts(record@)).fits(),
        ensures
            valid == valid_utf8(record@),
            final(self)@ == old(self)@.plus(record_counts(record@)),
    {
        match from_utf8(record) {
            None => false,
            Some(text) => {
                self.num_lines = self.num_lines + 1;
                self.num_words = self.num_words + count_words(text);
                self.num_bytes = self.num_bytes + record.len();
                self.num_chars = self.num_chars + count_chars(text);
                true
            },
        }
    }

    /// Adds the counts of `other` to these, field by field.
    pub fn add(&mut self, other: &FileInfo)
        requires
            old(self)@.plus(other@).fits(),
        ensures
            final(self)@ == old(self)@.plus(other@),
    {
        self.num_lines = self.num_lines + other.num_lines;
        self.num_words = self.num_words + other.num_words;
        self.num_bytes = self.num_bytes + other.num_bytes;
        self.num_chars = self.num_chars + other.num_chars;
    }
}

/// What one record adds to the counts: one line, its words, its bytes with
/// the terminator, and its scalar values. A record that is not valid UTF-8
/// is skipped and adds nothing.
pub open spec fn record_counts(r: Seq<u8>) -> Counts {
    if valid_utf8(r) {
        Counts {
            lines: 1,
            words: word_count(decode_utf8(r)),
            bytes: r.len(),
            chars: decode_utf8(r).len(),
        }
    } else {
        Counts::zero()
    }
}

/// The sum of what each of the records adds.
pub open spec fn tally(rs: Seq<Seq<u8>>) -> Counts
    decreases rs.len(),
{
    if rs.len() == 0 {
        Counts::zero()
    } else {
        tally(rs.drop_last()).plus(record_counts(rs.last()))
    }
}

/// A record has no more scalar values than bytes, and no more words than
/// scalar values.
pub proof fn lemma_record_counts(r: Seq<u8>)
    ensures
        record_counts(r).words <= record_counts(r).chars <= record_counts(r).bytes,
        record_counts(r).lines <= 1,
{
    if valid_utf8(r) {
        let text = decode_utf8(r);
        decode_utf8_encode_utf8(r);
        lemma_encoded_len(text);
        lemma_word_starts_bound(text, text.len() as int);
    }
}

/// The counts of some records never exceed what the records hold: no more
/// lines than records, no more bytes than the records have, no more scalar
/// values than bytes, no more words than scalar values.
pub proof fn lemma_tally_bounds(rs: Seq<Seq<u8>>)
    ensures
        tally(rs).lines <= rs.len(),
        tally(rs).words <= tally(rs).chars <= tally(rs).bytes <= total_len(rs),
    decreases rs.len(),
{
    if rs.len() > 0 {
        lemma_tally_bounds(rs.drop_last());
        lemma_record_counts(rs.last());
        lemma_total_len_push(rs.drop_last(), rs.last());
        assert(rs.drop_last().push(rs.last()) =~= rs);
    }
}

/// The outcome of counting a source in which some record is not valid
/// UTF-8.
#[derive(Debug)]
pub struct Malformed {
    /// The numbers, counted from one and rising, of the records that were
    /// skipped.
    pub lines: Vec<usize>,
    /// The counts of the records that were read.
    pub counted: FileInfo,
}

/// What counting `file` comes to. The result is `Ok` exactly when every
/// record is valid UTF-8. Either way the counts are the sums over the
/// records that are; in the error they come with the numbers of the records
/// that are not.
pub open spec fn counted(file: Seq<u8>, result: Result<FileInfo, Malformed>) -> bool {
    match result {
        Ok(info) => {
            &&& all_decodable(records(file))
            &&& info@ == tally(records(file))
            &&& info.num_lines == records(file).len()
            &&& info.num_bytes == file.len()
        },
        Err(e) => {
            &&& !all_decodable(records(file))
            &&& e.counted@ == tally(records(file))
            &&& line_numbers(e.lines@) == malformed_lines(records(file))
            &&& e.lines@.len() > 0
        },
    }
}

/// The counts that an outcome of counting carries.
pub open spec fn counts_in(result: Result<FileInfo, Malformed>) -> FileInfo {
    match result {
        Ok(info) => info,
        Err(e) => e.counted,
    }
}

/// The numbers of the skipped records that an outcome of counting carries.
pub open spec fn skipped_in(result: Result<FileInfo, Malformed>) -> Seq<usize> {
    match result {
        Ok(info) => Seq::empty(),
        Err(e) => e.lines@,
    }
}

/// Counting the same bytes twice comes to the same: the same counts, the
/// same verdict, the same records skipped.
pub proof fn lemma_count_repeatable(
    file: Seq<u8>,
    first: Result<FileInfo, Malformed>,
    second: Result<FileInfo, Malformed>,
)
    requires
        counted(file, first),
        counted(file, second),
    ensures
        counts_in(first) == counts_in(second),
        first is Ok <==> second is Ok,
        skipped_in(first) =~= skipped_in(second),
{
    let a = skipped_in(first);
    let b = skipped_in(second);
    if first is Err {
        assert(a.len() == line_numbers(a).len());
        assert(b.len() == line_numbers(b).len());
        assert forall|i: int| 0 <= i < a.len() implies a[i] == b[i] by {
            assert(line_numbers(a)[i] == line_numbers(b)[i]);
        }
    }
}

/// Where every record is valid UTF-8, every record is a line and every
/// byte is counted.
pub proof fn lemma_tally_all(rs: Seq<Seq<u8>>)
    requires
        all_decodable(rs),
    ensures
        tally(rs).lines == rs.len(),
        tally(rs).bytes == total_len(rs),
    decreases rs.len(),
{
    if rs.len() > 0 {
        let init = rs.drop_last();
        lemma_all_decodable_last(rs);
        lemma_tally_all(init);
        lemma_total_len_push(init, rs.last());
        assert(init.push(rs.last()) =~= rs);
    }
}

/// The number of lines of a source that is valid UTF-8 line by line is the
/// number of its line feeds, and one more when bytes follow the last line
/// feed: the last line counts without a terminator.
pub proof fn lemma_line_count(file: Seq<u8>)
    requires
        all_decodable(records(file)),
    ensures
        tally(records(file)).lines == records(file).len(),
        tally(records(file)).lines == line_feeds(file) + if ends_unterminated(file) {
            1nat
        } else {
            0nat
        },
{
    lemma_tally_all(records(file));
    lemma_record_count(file);
}

/// No source has more characters than bytes.
pub proof fn lemma_bytes_cover_chars(file: Seq<u8>)
    ensures
        tally(records(file)).chars <= tally(records(file)).bytes <= file.len(),
{
    lemma_tally_bounds(records(file));
    lemma_records_size(file);
}

proof fn lemma_ascii_tally(rs: Seq<Seq<u8>>)
    requires
        is_ascii_bytes(rs.flatten()),
    ensures
        all_decodable(rs),
        tally(rs).chars == tally(rs).bytes == total_len(rs),
    decreases rs.len(),
{
    if rs.len() > 0 {
        let init = rs.drop_last();
        let last = rs.last();
        init.lemma_flatten_push(last);
        assert(init.push(last) =~= rs);
        let joined = rs.flatten();
        let before = init.flatten();
        assert(is_ascii_bytes(before)) by {
            assert forall|i: int| 0 <= i < before.len() implies before[i] < 0x80 by {
                assert(before[i] == joined[i]);
            }
        }
        assert(is_ascii_bytes(last)) by {
            assert forall|i: int| 0 <= i < last.len() implies last[i] < 0x80 by {
                assert(last[i] == joined[before.len() + i]);
            }
        }
        lemma_ascii_tally(init);
        lemma_ascii_text(last);
        lemma_all_decodable_push(init, last);
    }
}

/// ASCII has as many characters as bytes.
pub proof fn lemma_ascii_counts(file: Seq<u8>)
    requires
        is_ascii_bytes(file),
    ensures
        all_decodable(records(file)),
        tally(records(file)).chars == tally(records(file)).bytes == file.len(),
{
    lemma_records_join(file);
    lemma_ascii_tally(records(file));
    lemma_records_size(file);
}

proof fn lemma_multibyte_tally(rs: Seq<Seq<u8>>, at: int)
    requires
        all_decodable(rs),
        0 <= at < rs.flatten().len(),
        rs.flatten()[at] >= 0x80,
    ensures
        tally(rs).chars < tally(rs).bytes,
    decreases rs.len(),
{
    if rs.len() > 0 {
        let init = rs.drop_last();
        let last = rs.last();
        init.lemma_flatten_push(last);
        assert(init.push(last) =~= rs);
        lemma_all_decodable_last(rs);
        lemma_tally_bounds(init);
        lemma_record_counts(last);
        let before = init.flatten();
        if at < before.len() {
            assert(before[at] == rs.flatten()[at]);
            lemma_multibyte_tally(init, at);
        } else {
            assert(last[at - before.len()] == rs.flatten()[at]);
            lemma_multibyte_text(last, at - before.len());
        }
    } else {
        assert(rs.flatten() =~= Seq::<u8>::empty());
    }
}

/// A source that is valid UTF-8 line by line and holds a byte from 0x80
/// up, as every scalar value beyond ASCII brings, has fewer characters
/// than bytes.
pub proof fn lemma_multibyte_counts(file: Seq<u8>, at: int)
    requires
        all_decodable(records(file)),
        0 <= at < file.len(),
        file[at] >= 0x80,
    ensures
        tally(records(file)).chars < tally(records(file)).bytes,
{
    lemma_records_join(file);
    lemma_multibyte_tally(records(file), at);
}

/// Counts the lines, words, bytes and characters of `file`, record by
/// record. Counting goes on to the end of the input whatever a record
/// holds; the result is `Ok` exactly when every record is valid UTF-8.
pub fn count(file: &[u8]) -> (result: Result<FileInfo, Malformed>)
    ensures
        counted(file@, result),
{
    let size = file.len();
    let mut info = FileInfo::new();
    let mut skipped: Vec<usize> = Vec::new();
    let mut reader = LineReader::new(file);
    let mut line: usize = 0;
    let ghost mut done: Seq<Seq<u8>> = Seq::empty();
    loop
        invariant
            reader.source() == file@,
            file@.len() == size,
            records(file@) =~= done + reader.remaining(),
            line == done.len(),
            done.len() <= total_len(done) == reader.position() <= file@.len(),
            info@ == tally(done),
            line_numbers(skipped@) == malformed_lines(done),
            skipped@.len() == 0 <==> all_decodable(done),
            all_decodable(done) ==> tally(done).lines == done.len() && tally(done).bytes
                == total_len(done),
        ensures
            reader.remaining().len() == 0,
        decreases reader.remaining().len(),
    {
        match reader.next_record() {
            None => {
                break ;
            },
            Some(record) => {
                let ghost next = done.push(record@);
                proof {
                    assert(next.drop_last() =~= done);
                    lemma_total_len_push(done, record@);
                    assert(total_len(next) == reader.position());
                    lemma_tally_bounds(done);
                    lemma_record_counts(record@);
                    lemma_all_decodable_push(done, record@);
                }
                line = line + 1;
                if !info.count_record(record) {
                    skipped.push(line);
                    assert(line_numbers(skipped@) =~= malformed_lines(next));
                }
                proof {
                    done = next;
                }
            },
        }
    }
    assert(records(file@) =~= done);
    if skipped.len() == 0 {
        Ok(info)
    } else {
        Err(Malformed { lines: skipped, counted: info })
    }
}

/// What to count and where.
#[derive(Debug)]
pub struct Config {
    /// The tokens of the sources, in the order in which they are worked on.
    pub files: Vec<String>,
    /// Show the number of lines.
    pub lines: bool,
    /// Show the number of words.
    pub words: bool,
    /// Show the number of bytes.
    pub bytes: bool,
    /// Show the number of characters.
    pub chars: bool,
}

impl Config {
    /// At least one count is shown.
    pub open spec fn shows_some(&self) -> bool {
        self.lines || self.words || self.bytes || self.chars
    }

    /// A configuration for the given tokens and selection. Without a token
    /// the source is standard input; with nothing selected, lines, words
    /// and bytes are shown.
    pub fn new(files: Vec<String>, lines: bool, words: bool, bytes: bool, chars: bool) -> (config:
        Config)
        ensures
            config.shows_some(),
            tokens(config.files@) == if files@.len() == 0 {
                seq![seq!['-']]
            } else {
                tokens(files@)
            },
            files@.len() > 0 ==> config.files@ == files@,
            (lines || words || bytes || chars) ==> {
                &&& config.lines == lines
                &&& config.words == words
                &&& config.bytes == bytes
                &&& config.chars == chars
            },
            !(lines || words || bytes || chars) ==> {
                &&& config.lines
                &&& config.words
                &&& config.bytes
                &&& !config.chars
            },
    {
        let files = files_or_stdin(files);
        if lines || words || bytes || chars {
            Config { files, lines, words, bytes, chars }
        } else {
            Config { files, lines: true, words: true, bytes: true, chars: false }
        }
    }
}

/// One count as it is shown: right-justified in eight columns, or nothing
/// at all when it is not selected.
pub open spec fn field(value: nat, show: bool) -> Seq<char> {
    if show {
        numeral(value, 8)
    } else {
        Seq::empty()
    }
}

/// The selected counts, in the order lines, words, bytes, characters, with
/// nothing between them.
pub open spec fn fields(config: Config, c: Counts) -> Seq<char> {
    field(c.lines, config.lines) + field(c.words, config.words) + field(c.bytes, config.bytes)
        + field(c.chars, config.chars)
}

/// The line for one source: its counts, then a space and its token unless
/// it is standard input.
pub open spec fn row(config: Config, c: Counts, token: Seq<char>) -> Seq<char> {
    let name = if is_stdin(token) {
        Seq::empty()
    } else {
        seq![' '] + token
    };
    fields(config, c) + name + seq!['\n']
}

/// The line for the totals.
pub open spec fn total_row(config: Config, c: Counts) -> Seq<char> {
    fields(config, c) + " total\n"@
}

/// The counts of a source: of what was read from it, and nothing for a
/// source that could not be opened.
pub open spec fn source_counts(source: Source) -> Counts {
    match source.content() {
        Some(data) => tally(records(data)),
        None => Counts::zero(),
    }
}

/// The line for a source, and nothing for a source that could not be
/// opened.
pub open spec fn source_row(config: Config, token: Seq<char>, source: Source) -> Seq<char> {
    match source.content() {
        Some(data) => row(config, tally(records(data)), token),
        None => Seq::empty(),
    }
}

/// The lines for the first `n` sources.
pub open spec fn rows(config: Config, names: Seq<Seq<char>>, sources: Seq<Source>, n: int) -> Seq<
    char,
>
    decreases n,
{
    if n <= 0 {
        Seq::empty()
    } else {
        rows(config, names, sources, n - 1) + source_row(config, names[n - 1], sources[n - 1])
    }
}

/// The element-wise sum of the counts of the first `n` sources.
pub open spec fn totals(sources: Seq<Source>, n: int) -> Counts
    decreases n,
{
    if n <= 0 {
        Counts::zero()
    } else {
        totals(sources, n - 1).plus(source_counts(sources[n - 1]))
    }
}

/// The number of bytes read from the first `n` sources together.
pub open spec fn total_size(sources: Seq<Source>, n: int) -> nat
    decreases n,
{
    if n <= 0 {
        0
    } else {
        total_size(sources, n - 1) + sources[n - 1].size()
    }
}

/// The bytes read from some of the sources are no more than those read
/// from all.
pub proof fn lemma_total_size_grows(sources: Seq<Source>, i: int, n: int)
    requires
        i <= n,
    ensures
        total_size(sources, i) <= total_size(sources, n),
    decreases n - i,
{
    if i < n {
        lemma_total_size_grows(sources, i, n - 1);
    }
}

/// No total exceeds the number of bytes that were read.
pub proof fn lemma_totals_bound(sources: Seq<Source>, n: int)
    ensures
        totals(sources, n).lines <= total_size(sources, n),
        totals(sources, n).words <= total_size(sources, n),
        totals(sources, n).bytes <= total_size(sources, n),
        totals(sources, n).chars <= total_size(sources, n),
    decreases n,
{
    if n > 0 {
        lemma_totals_bound(sources, n - 1);
        match sources[n - 1].content() {
            Some(data) => {
                lemma_tally_bounds(records(data));
                lemma_records_size(data);
            },
            None => {},
        }
    }
}

/// `value` right-justified in eight columns if `show` is set, and nothing
/// otherwise.
pub fn format_field(value: usize, show: bool) -> (text: String)
    ensures
        text@ == field(value as nat, show),
{
    if show {
        format_number(value as u128, 8)
    } else {
        String::new()
    }
}

proof fn lemma_join_four(
    base: Seq<char>,
    a: Seq<char>,
    b: Seq<char>,
    c: Seq<char>,
    d: Seq<char>,
)
    ensures
        base + a + b + c + d =~= base + (a + b + c + d),
{
}

fn append_fields(out: &mut String, config: &Config, info: &FileInfo)
    ensures
        final(out)@ == old(out)@ + fields(*config, info@),
{
    let lines = format_field(info.num_lines, config.lines);
    let words = format_field(info.num_words, config.words);
    let bytes = format_field(info.num_bytes, config.bytes);
    let chars = format_field(info.num_chars, config.chars);
    out.append(lines.as_str());
    out.append(words.as_str());
    out.append(bytes.as_str());
    out.append(chars.as_str());
    proof {
        lemma_join_four(old(out)@, lines@, words@, bytes@, chars@);
    }
}

fn append_row(out: &mut String, config: &Config, info: &FileInfo, token: &String)
    ensures
        final(out)@ == old(out)@ + row(*config, info@, token@),
{
    append_fields(out, config, info);
    let ghost shown = out@;
    if !stdin_token(token) {
        out.append(" ");
        out.append(token.as_str());
    }
    out.append("\n");
    proof {
        reveal_strlit(" ");
        reveal_strlit("\n");
        let ghost name = if is_stdin(token@) {
            Seq::<char>::empty()
        } else {
            seq![' '] + token@
        };
        assert(out@ =~= shown + name + seq!['\n']);
        assert(shown + name + seq!['\n'] =~= old(out)@ + (fields(*config, info@) + name + seq![
            '\n',
        ]));
    }
}

/// Counts what was read from a source and reports the records that were
/// skipped.
fn count_content(data: &[u8], token: &String, stderr: &mut String) -> (info: FileInfo)
    ensures
        info@ == tally(records(data@)),
        final(stderr)@ == old(stderr)@ + line_reports(token@, malformed_lines(records(data@))),
{
    match count(data) {
        Ok(info) => {
            proof {
                lemma_malformed_lines(records(data@));
                assert(malformed_lines(records(data@)) =~= Seq::empty());
            }
            info
        },
        Err(e) => {
            complain_of_lines(stderr, token.as_str(), &e.lines);
            e.counted
        },
    }
}

/// Counts one source: appends its line and its diagnostics, and adds its
/// counts to `total`.
fn count_source(
    config: &Config,
    token: &String,
    source: &Source,
    stdout: &mut String,
    stderr: &mut String,
    total: &mut FileInfo,
)
    requires
        old(total)@.plus(source_counts(*source)).fits(),
    ensures
        final(stdout)@ == old(stdout)@ + source_row(*config, token@, *source),
        final(stderr)@ == old(stderr)@ + source_complaints(token@, *source),
        final(total)@ == old(total)@.plus(source_counts(*source)),
{
    match source.data() {
        None => {},
        Some(data) => {
            let info = count_content(data, token, stderr);
            append_row(stdout, config, &info, token);
            total.add(&info);
        },
    }
    let ghost skipped = stderr@;
    match source.cause() {
        None => {},
        Some(cause) => {
            complain(stderr, token.as_str(), cause);
        },
    }
    assert(stderr@ =~= skipped + failure_report(token@, *source));
    assert(stderr@ =~= old(stderr)@ + source_complaints(token@, *source));
}

/// Counts every source in turn and renders the report: a line of counts
/// for each source that could be opened, then, if and only if more than one
/// token was given, a line with the element-wise sum of those counts. A
/// source that could not be opened, a record that is not valid UTF-8 and a
/// stream that broke off are reported on the diagnostic stream and stop
/// nothing.
pub fn run(config: &Config, sources: &Vec<Source>) -> (out: Output)
    requires
        sources@.len() == config.files@.len(),
        total_size(sources@, sources@.len() as int) <= usize::MAX,
    ensures
        out.stdout@ == rows(
            *config,
            tokens(config.files@),
            sources@,
            sources@.len() as int,
        ) + if sources@.len() > 1 {
            total_row(*config, totals(sources@, sources@.len() as int))
        } else {
            Seq::empty()
        },
        out.stderr@ == complaints(tokens(config.files@), sources@, sources@.len() as int),
{
    let ghost names = tokens(config.files@);
    let mut stdout = String::new();
    let mut stderr = String::new();
    let mut total = FileInfo::new();
    let mut i: usize = 0;
    while i < sources.len()
        invariant
            i <= sources@.len() == config.files@.len(),
            names == tokens(config.files@),
            total_size(sources@, sources@.len() as int) <= usize::MAX,
            stdout@ == rows(*config, names, sources@, i as int),
            stderr@ == complaints(names, sources@, i as int),
            total@ == totals(sources@, i as int),
        decreases sources@.len() - i,
    {
        proof {
            lemma_totals_bound(sources@, i + 1);
            lemma_total_size_grows(sources@, i + 1, sources@.len() as int);
        }
        count_source(config, &config.files[i], &sources[i], &mut stdout, &mut stderr, &mut total);
        i = i + 1;
    }
    if sources.len() > 1 {
        append_fields(&mut stdout, config, &total);
        stdout.append(" total\n");
    }
    Output { stdout, stderr }
}

/// Whether the bytes read from all sources together can be counted in a
/// `usize`.
pub fn total_fits(sources: &Vec<Source>) -> (fits: bool)
    ensures
        fits == (total_size(sources@, sources@.len() as int) <= usize::MAX),
{
    let mut sum: usize = 0;
    let mut i: usize = 0;
    while i < sources.len()
        invariant
            i <= sources@.len(),
            sum == total_size(sources@, i as int),
        decreases sources@.len() - i,
    {
        let size = match sources[i].data() {
            Some(data) => data.len(),
            None => 0,
        };
        match sum.checked_add(size) {
            Some(more) => {
                sum = more;
            },
            None => {
                proof {
                    lemma_total_size_grows(sources@, i + 1, sources@.len() as int);
                }
                return false;
            },
        }
        i = i + 1;
    }
    true
}

/// Runs the report where it can be run: with one source for each token
/// and counts that fit. Otherwise nothing is done and `None` comes back.
pub fn try_run(config: &Config, sources: &Vec<Source>) -> (result: Option<Output>)
    ensures
        result is Some <==> sources@.len() == config.files@.len() && total_size(
            sources@,
            sources@.len() as int,
        ) <= usize::MAX,
        result matches Some(out) ==> {
            &&& out.stdout@ == rows(
                *config,
                tokens(config.files@),
                sources@,
                sources@.len() as int,
            ) + if sources@.len() > 1 {
                total_row(*config, totals(sources@, sources@.len() as int))
            } else {
                Seq::empty()
            }
            &&& out.stderr@ == complaints(
                tokens(config.files@),
                sources@,
                sources@.len() as int,
            )
        },
{
    if sources.len() == config.files.len() && total_fits(sources) {
        Some(run(config, sources))
    } else {
        None
    }
}

} // verus!

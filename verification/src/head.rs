//! The truncation transform: the first lines or the first bytes of each
//! source.
use crate::config::ConfigError;
use crate::lines::{
    chunk, is_record, lemma_records_well_split, lemma_split_joined, read_chunk, records,
    well_split, LineReader, LINE_FEED,
};
use crate::report::{
    all_decodable, complain, complain_of_line, failure_report, files_or_stdin,
    lemma_texts_encoding, line_reports, malformed_lines, texts, tokens, Output, Source,
};
use crate::text::{decode_lossy, from_utf8, shown_text};
use vstd::prelude::*;
use vstd::string::StringExecFns;
use vstd::utf8::{decode_utf8_encode_utf8, encode_utf8, valid_utf8};

verus! {

/// The line limit that applies when none is given.
pub const DEFAULT_LINES: usize = 10;

/// `c` is one of the ten decimal digits.
pub open spec fn is_digit(c: char) -> bool {
    48 <= c as u32 <= 57
}

/// Every character of `s` is a decimal digit.
pub open spec fn all_digits(s: Seq<char>) -> bool {
    forall|i: int| 0 <= i < s.len() ==> is_digit(#[trigger] s[i])
}

/// The number that the digits of `s` denote.
pub open spec fn decimal_value(s: Seq<char>) -> nat
    decreases s.len(),
{
    if s.len() == 0 {
        0
    } else {
        decimal_value(s.drop_last()) * 10 + (s.last() as u32 - 48) as nat
    }
}

/// `s` without the plus sign that may stand in front of a number.
pub open spec fn unsigned_part(s: Seq<char>) -> Seq<char> {
    if s.len() > 0 && s[0] == '+' {
        s.drop_first()
    } else {
        s
    }
}

/// The positive integer that `s` denotes: decimal digits, at least one,
/// after an optional plus sign, with a value from one up to the largest
/// `usize`.
pub open spec fn positive_int(s: Seq<char>) -> Option<usize> {
    let digits = unsigned_part(s);
    if digits.len() > 0 && all_digits(digits) && 0 < decimal_value(digits) <= usize::MAX {
        Some(decimal_value(digits) as usize)
    } else {
        None
    }
}

/// More digits never denote less.
pub proof fn lemma_decimal_value_grows(s: Seq<char>, k: int)
    requires
        0 <= k <= s.len(),
        all_digits(s),
    ensures
        decimal_value(s.take(k)) <= decimal_value(s),
    decreases s.len() - k,
{
    if k < s.len() {
        let init = s.drop_last();
        assert(is_digit(s[s.len() - 1]));
        assert(all_digits(init)) by {
            assert forall|i: int| 0 <= i < init.len() implies is_digit(#[trigger] init[i]) by {
                assert(init[i] == s[i]);
            }
        }
        lemma_decimal_value_grows(init, k);
        assert(init.take(k) =~= s.take(k));
    } else {
        assert(s.take(k) =~= s);
    }
}

/// Parses a positive integer. Whatever is not one comes back as the
/// error, unchanged.
pub fn parse_positive_int(val: &str) -> (result: Result<usize, String>)
    ensures
        match result {
            Ok(n) => positive_int(val@) == Some(n),
            Err(e) => positive_int(val@) is None && e@ == val@,
        },
{
    let ghost digits = unsigned_part(val@);
    let mut value: usize = 0;
    let mut signed = false;
    let mut seen = false;
    for c in it: val.chars()
        invariant
            it.seq() == val@,
            digits == unsigned_part(val@),
            signed == (it.index() > 0 && val@[0] == '+'),
            seen == (it.index() > if signed { 1int } else { 0int }),
            signed ==> digits == val@.drop_first(),
            !signed && it.index() > 0 ==> digits == val@,
            ({
                let k = it.index() - if signed { 1int } else { 0int };
                &&& 0 <= k <= digits.len()
                &&& all_digits(digits.take(k))
                &&& value == decimal_value(digits.take(k))
            }),
    {
        let ghost k = it.index() - if signed { 1int } else { 0int };
        assert(c == val@[it.index()]);
        let code: u32 = c as u32;
        if !seen && !signed && c == '+' {
            signed = true;
            assert(digits.take(0) =~= Seq::<char>::empty());
        } else {
            assert(digits[k] == c);
            assert('+' as u32 == 43);
            let ghost next = digits.take(k + 1);
            assert(next.drop_last() =~= digits.take(k));
            assert(next.last() == c);
            if code < 48 || code > 57 {
                assert(!all_digits(digits)) by {
                    assert(!is_digit(digits[k]));
                }
                return Err(String::from_str(val));
            }
            assert(all_digits(next)) by {
                assert forall|i: int| 0 <= i < next.len() implies is_digit(#[trigger] next[i]) by {
                    if i < k {
                        assert(digits.take(k)[i] == next[i]);
                    }
                }
            }
            let grown = match value.checked_mul(10) {
                Some(tens) => tens.checked_add((code - 48) as usize),
                None => None,
            };
            match grown {
                Some(v) => {
                    value = v;
                },
                None => {
                    assert(decimal_value(next) > usize::MAX);
                    proof {
                        if all_digits(digits) {
                            lemma_decimal_value_grows(digits, k + 1);
                        }
                    }
                    return Err(String::from_str(val));
                },
            }
            seen = true;
        }
    }
    proof {
        let k = val@.len() - if signed { 1int } else { 0int };
        assert(digits.take(k) =~= digits);
    }
    if seen && value > 0 {
        Ok(value)
    } else {
        Err(String::from_str(val))
    }
}

/// Which sources to truncate and where to stop.
#[derive(Debug)]
pub struct Config {
    /// The tokens of the sources, in the order in which they are worked on.
    pub files: Vec<String>,
    /// How many lines to pass on; applies when no byte limit is set.
    pub lines: usize,
    /// How many bytes to pass on, for truncation by bytes.
    pub bytes: Option<usize>,
}

impl Config {
    /// Both limits are positive.
    pub open spec fn well_formed(&self) -> bool {
        &&& self.lines > 0
        &&& self.bytes matches Some(b) ==> b > 0
        &&& self.files@.len() > 0
    }

    /// A configuration for the given tokens and limits, the limits as they
    /// were typed. Without a token the source is standard input.
    pub fn new(files: Vec<String>, lines: Option<&str>, bytes: Option<&str>) -> (result: Result<
        Config,
        ConfigError,
    >)
        ensures
            match result {
                Ok(config) => {
                    &&& config.well_formed()
                    &&& lines is None || bytes is None
                    &&& match lines {
                        Some(l) => positive_int(l@) == Some(config.lines),
                        None => config.lines == DEFAULT_LINES,
                    }
                    &&& match bytes {
                        Some(b) => positive_int(b@) is Some && config.bytes == positive_int(b@),
                        None => config.bytes is None,
                    }
                    &&& tokens(config.files@) == if files@.len() == 0 {
                        seq![seq!['-']]
                    } else {
                        tokens(files@)
                    }
                    &&& files@.len() > 0 ==> config.files@ == files@
                },
                Err(ConfigError::LimitConflict) => lines is Some && bytes is Some,
                Err(ConfigError::IllegalLineCount(value)) => {
                    &&& bytes is None
                    &&& lines matches Some(l) && positive_int(l@) is None && value@ == l@
                },
                Err(ConfigError::IllegalByteCount(value)) => {
                    &&& lines is None
                    &&& bytes matches Some(b) && positive_int(b@) is None && value@ == b@
                },
                Err(ConfigError::NumberingConflict) => false,
            },
    {
        if lines.is_some() && bytes.is_some() {
            return Err(ConfigError::LimitConflict);
        }
        let lines = match lines {
            None => DEFAULT_LINES,
            Some(text) => match parse_positive_int(text) {
                Ok(n) => n,
                Err(value) => {
                    return Err(ConfigError::IllegalLineCount(value));
                },
            },
        };
        let bytes = match bytes {
            None => None,
            Some(text) => match parse_positive_int(text) {
                Ok(n) => Some(n),
                Err(value) => {
                    return Err(ConfigError::IllegalByteCount(value));
                },
            },
        };
        let files = files_or_stdin(files);
        assert(tokens(files@).len() == files@.len());
        Ok(Config { files, lines, bytes })
    }
}

/// The records that truncation to `limit` lines reads: the first `limit`
/// of them, or all when there are fewer.
pub open spec fn selected(rs: Seq<Seq<u8>>, limit: nat) -> Seq<Seq<u8>> {
    if limit <= rs.len() {
        rs.take(limit as int)
    } else {
        rs
    }
}

/// What truncation passes on of a source: with a byte limit the text shown
/// for the first chunk, else the texts of the records that were read.
pub open spec fn head_text(data: Seq<u8>, lines: nat, bytes: Option<usize>) -> Seq<char> {
    match bytes {
        Some(limit) => shown_text(chunk(data, limit as nat)),
        None => texts(selected(records(data), lines)),
    }
}

/// What truncation reports of the content of a source: in line mode the
/// records that were read and are not valid UTF-8.
pub open spec fn head_complaints(token: Seq<char>, data: Seq<u8>, lines: nat, bytes: Option<usize>)
    -> Seq<char> {
    match bytes {
        Some(limit) => Seq::empty(),
        None => line_reports(token, malformed_lines(selected(records(data), lines))),
    }
}

/// Passes on at most `lines` lines of `data`, or, where `bytes` is set,
/// at most that many bytes.
pub fn output_lines(token: &str, data: &[u8], lines: usize, bytes: Option<usize>) -> (out: Output)
    ensures
        out.stdout@ == head_text(data@, lines as nat, bytes),
        out.stderr@ == head_complaints(token@, data@, lines as nat, bytes),
{
    let mut stdout = String::new();
    let mut stderr = String::new();
    match bytes {
        Some(limit) => {
            stdout = decode_lossy(read_chunk(data, limit));
        },
        None => {
            let mut reader = LineReader::new(data);
            let mut read: usize = 0;
            let ghost mut done: Seq<Seq<u8>> = Seq::empty();
            while read < lines
                invariant
                    read == done.len() <= lines,
                    records(data@) =~= done + reader.remaining(),
                    stdout@ == texts(done),
                    stderr@ == line_reports(token@, malformed_lines(done)),
                ensures
                    done =~= selected(records(data@), lines as nat),
                    stdout@ == texts(done),
                    stderr@ == line_reports(token@, malformed_lines(done)),
                decreases lines - read,
            {
                match reader.next_record() {
                    None => {
                        break ;
                    },
                    Some(record) => {
                        let ghost next = done.push(record@);
                        assert(next.drop_last() =~= done);
                        read = read + 1;
                        match from_utf8(record) {
                            Some(text) => {
                                stdout.append(text);
                            },
                            None => {
                                complain_of_line(&mut stderr, token, read);
                                assert(malformed_lines(next).drop_last() =~= malformed_lines(
                                    done,
                                ));
                            },
                        }
                        proof {
                            done = next;
                        }
                    },
                }
            }
        },
    }
    Output { stdout, stderr }
}

/// How many of the first `n` sources could be opened.
pub open spec fn opened(sources: Seq<Source>, n: int) -> nat
    decreases n,
{
    if n <= 0 {
        0
    } else {
        opened(sources, n - 1) + if sources[n - 1].content() is Some {
            1nat
        } else {
            0nat
        }
    }
}

/// The header line for a source. A blank line comes before every header
/// but the first.
pub open spec fn header(token: Seq<char>, first: bool) -> Seq<char> {
    let gap = if first {
        Seq::empty()
    } else {
        seq!['\n']
    };
    gap + "==> "@ + token + " <==\n"@
}

/// What is passed on for a source: its head, under a header when more than
/// one token was given, and nothing for a source that could not be opened.
pub open spec fn source_output(
    config: Config,
    token: Seq<char>,
    source: Source,
    many: bool,
    first: bool,
) -> Seq<char> {
    match source.content() {
        None => Seq::empty(),
        Some(data) => {
            let above = if many {
                header(token, first)
            } else {
                Seq::empty()
            };
            above + head_text(data, config.lines as nat, config.bytes)
        },
    }
}

/// What is reported of a source: the records that were read and are not
/// valid UTF-8, then the failure of the source itself.
pub open spec fn source_report(config: Config, token: Seq<char>, source: Source) -> Seq<char> {
    let skipped = match source.content() {
        Some(data) => head_complaints(token, data, config.lines as nat, config.bytes),
        None => Seq::empty(),
    };
    skipped + failure_report(token, source)
}

/// What is passed on for the first `n` sources.
pub open spec fn outputs(config: Config, names: Seq<Seq<char>>, sources: Seq<Source>, n: int) -> Seq<
    char,
>
    decreases n,
{
    if n <= 0 {
        Seq::empty()
    } else {
        outputs(config, names, sources, n - 1) + source_output(
            config,
            names[n - 1],
            sources[n - 1],
            sources.len() > 1,
            opened(sources, n - 1) == 0,
        )
    }
}

/// What is reported of the first `n` sources.
pub open spec fn reports(config: Config, names: Seq<Seq<char>>, sources: Seq<Source>, n: int) -> Seq<
    char,
>
    decreases n,
{
    if n <= 0 {
        Seq::empty()
    } else {
        reports(config, names, sources, n - 1) + source_report(
            config,
            names[n - 1],
            sources[n - 1],
        )
    }
}

/// Truncates one source: appends what is passed on and what is reported.
/// `many` says that more than one token was given, `first` that no header
/// has been written yet.
fn head_source(
    config: &Config,
    token: &String,
    source: &Source,
    many: bool,
    first: bool,
    stdout: &mut String,
    stderr: &mut String,
)
    ensures
        final(stdout)@ == old(stdout)@ + source_output(*config, token@, *source, many, first),
        final(stderr)@ == old(stderr)@ + source_report(*config, token@, *source),
{
    match source.data() {
        None => {},
        Some(data) => {
            if many {
                if !first {
                    stdout.append("\n");
                }
                stdout.append("==> ");
                stdout.append(token.as_str());
                stdout.append(" <==\n");
                proof {
                    reveal_strlit("\n");
                    assert(stdout@ =~= old(stdout)@ + header(token@, first));
                }
            }
            let ghost shown = stdout@;
            let out = output_lines(token.as_str(), data, config.lines, config.bytes);
            stdout.append(out.stdout.as_str());
            stderr.append(out.stderr.as_str());
            assert(stdout@ =~= old(stdout)@ + source_output(*config, token@, *source, many, first));
        },
    }
    let ghost reported = stderr@;
    match source.cause() {
        None => {},
        Some(cause) => {
            complain(stderr, token.as_str(), cause);
        },
    }
    assert(stderr@ =~= reported + failure_report(token@, *source));
    assert(stderr@ =~= old(stderr)@ + source_report(*config, token@, *source));
}

/// Truncates every source in turn. When more than one token was given,
/// what is passed on for a source stands under a header that names the
/// token. A source that could not be opened, a record that is not valid
/// UTF-8 and a stream that broke off are reported on the diagnostic stream
/// and stop nothing.
pub fn run(config: &Config, sources: &Vec<Source>) -> (out: Output)
    requires
        sources@.len() == config.files@.len(),
    ensures
        out.stdout@ == outputs(*config, tokens(config.files@), sources@, sources@.len() as int),
        out.stderr@ == reports(*config, tokens(config.files@), sources@, sources@.len() as int),
{
    let ghost names = tokens(config.files@);
    let many = sources.len() > 1;
    let mut stdout = String::new();
    let mut stderr = String::new();
    let mut first = true;
    let mut i: usize = 0;
    while i < sources.len()
        invariant
            i <= sources@.len() == config.files@.len(),
            names == tokens(config.files@),
            many == (sources@.len() > 1),
            first == (opened(sources@, i as int) == 0),
            stdout@ == outputs(*config, names, sources@, i as int),
            stderr@ == reports(*config, names, sources@, i as int),
        decreases sources@.len() - i,
    {
        head_source(config, &config.files[i], &sources[i], many, first, &mut stdout, &mut stderr);
        if sources[i].data().is_some() {
            first = false;
        }
        i = i + 1;
    }
    Output { stdout, stderr }
}

/// Truncates every source where there is one for each token. Otherwise
/// nothing is done and `None` comes back.
pub fn try_run(config: &Config, sources: &Vec<Source>) -> (result: Option<Output>)
    ensures
        result is Some <==> sources@.len() == config.files@.len(),
        result matches Some(out) ==> {
            &&& out.stdout@ == outputs(
                *config,
                tokens(config.files@),
                sources@,
                sources@.len() as int,
            )
            &&& out.stderr@ == reports(
                *config,
                tokens(config.files@),
                sources@,
                sources@.len() as int,
            )
        },
{
    if sources.len() == config.files.len() {
        Some(run(config, sources))
    } else {
        None
    }
}

/// Truncation by lines reads as many records as the limit says, or as the
/// source has when those are fewer.
pub proof fn lemma_lines_read(data: Seq<u8>, limit: nat)
    ensures
        selected(records(data), limit).len() == if limit <= records(data).len() {
            limit
        } else {
            records(data).len()
        },
{
}

/// Where the records that are read are valid UTF-8, what truncation by
/// lines passes on is those records and nothing else: split into lines
/// again, the output has as many lines as the limit says, or as the source
/// has when those are fewer.
pub proof fn lemma_line_limit(data: Seq<u8>, limit: nat)
    requires
        all_decodable(selected(records(data), limit)),
    ensures
        encode_utf8(head_text(data, limit, None)) =~= selected(records(data), limit).flatten(),
        records(encode_utf8(head_text(data, limit, None))) =~= selected(records(data), limit),
        records(encode_utf8(head_text(data, limit, None))).len() == if limit <= records(
            data,
        ).len() {
            limit
        } else {
            records(data).len()
        },
{
    let rs = records(data);
    let read = selected(rs, limit);
    lemma_records_well_split(data);
    assert(well_split(read)) by {
        assert forall|i: int| 0 <= i < read.len() implies is_record(#[trigger] read[i]) by {
            assert(read[i] == rs[i]);
        }
        assert forall|i: int| 0 <= i < read.len() - 1 implies (#[trigger] read[i]).last()
            == LINE_FEED by {
            assert(read[i] == rs[i]);
        }
    }
    lemma_texts_encoding(read);
    lemma_split_joined(read);
}

/// Truncation by bytes reads as many bytes as the limit says, or as the
/// source has when those are fewer. Where they are valid UTF-8, they are
/// what is passed on, byte for byte.
pub proof fn lemma_byte_limit(data: Seq<u8>, lines: nat, limit: usize)
    ensures
        chunk(data, limit as nat).len() == if limit <= data.len() {
            limit as nat
        } else {
            data.len()
        },
        valid_utf8(chunk(data, limit as nat)) ==> encode_utf8(
            head_text(data, lines, Some(limit)),
        ) == chunk(data, limit as nat),
{
    if valid_utf8(chunk(data, limit as nat)) {
        decode_utf8_encode_utf8(chunk(data, limit as nat));
    }
}

} // verus!

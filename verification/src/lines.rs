//! Line mode and chunk mode over a byte buffer.
//!
//! A record is one line of a source together with the line feed that ends
//! it. The last record of a source may lack the line feed.
use vstd::prelude::*;
use vstd::slice::slice_subrange;

verus! {

/// The byte that terminates a line.
pub const LINE_FEED: u8 = 10;

/// The position just past the record that begins at `start`: past the next
/// line feed, or the end of `s` when there is none. A position outside `s`
/// begins no record and is returned as it is.
pub open spec fn line_end(s: Seq<u8>, start: int) -> int
    decreases s.len() - start,
{
    if start < 0 || start >= s.len() {
        start
    } else if s[start] == LINE_FEED {
        start + 1
    } else {
        line_end(s, start + 1)
    }
}

/// What `line_end` finds: the record is not empty, stays inside `s`, holds
/// no line feed before its last byte, and stops short of the end of `s`
/// only at a line feed.
pub proof fn lemma_line_end(s: Seq<u8>, start: int)
    requires
        0 <= start < s.len(),
    ensures
        start < line_end(s, start) <= s.len(),
        forall|i: int| start <= i < line_end(s, start) - 1 ==> s[i] != LINE_FEED,
        line_end(s, start) < s.len() ==> s[line_end(s, start) - 1] == LINE_FEED,
    decreases s.len() - start,
{
    if s[start] != LINE_FEED {
        if start + 1 < s.len() {
            lemma_line_end(s, start + 1);
        } else {
            assert(line_end(s, start + 1) == start + 1);
        }
    }
}

/// The records of `s` from position `start` on, in order.
pub open spec fn records_from(s: Seq<u8>, start: int) -> Seq<Seq<u8>>
    decreases s.len() - start,
{
    if start < 0 || start >= s.len() {
        Seq::empty()
    } else {
        proof {
            lemma_line_end(s, start);
        }
        seq![s.subrange(start, line_end(s, start))] + records_from(s, line_end(s, start))
    }
}

/// The records of `s`, in order.
pub open spec fn records(s: Seq<u8>) -> Seq<Seq<u8>> {
    records_from(s, 0)
}

/// The number of line feeds in `s` at position `from` or later.
pub open spec fn line_feeds_from(s: Seq<u8>, from: int) -> nat
    decreases s.len() - from,
{
    if from < 0 || from >= s.len() {
        0
    } else {
        line_feeds_from(s, from + 1) + if s[from] == LINE_FEED {
            1nat
        } else {
            0nat
        }
    }
}

/// The number of line feeds in `s`.
pub open spec fn line_feeds(s: Seq<u8>) -> nat {
    line_feeds_from(s, 0)
}

/// `s` ends in bytes that no line feed terminates.
pub open spec fn ends_unterminated(s: Seq<u8>) -> bool {
    s.len() > 0 && s.last() != LINE_FEED
}

proof fn lemma_no_line_feeds(s: Seq<u8>, from: int, to: int)
    requires
        0 <= from <= to <= s.len(),
        forall|i: int| from <= i < to ==> s[i] != LINE_FEED,
    ensures
        line_feeds_from(s, from) == line_feeds_from(s, to),
    decreases to - from,
{
    if from < to {
        lemma_no_line_feeds(s, from + 1, to);
    }
}

proof fn lemma_record_count_from(s: Seq<u8>, start: int)
    requires
        0 <= start <= s.len(),
    ensures
        records_from(s, start).len() == line_feeds_from(s, start) + if start < s.len()
            && ends_unterminated(s) {
            1nat
        } else {
            0nat
        },
    decreases s.len() - start,
{
    if start < s.len() {
        let end = line_end(s, start);
        lemma_line_end(s, start);
        lemma_record_count_from(s, end);
        lemma_no_line_feeds(s, start, end - 1);
        if s[end - 1] != LINE_FEED {
            lemma_no_line_feeds(s, end - 1, end);
        }
    }
}

/// A source has one record for each line feed, and one more when bytes
/// follow the last line feed: the last record counts without a terminator.
pub proof fn lemma_record_count(s: Seq<u8>)
    ensures
        records(s).len() == line_feeds(s) + if ends_unterminated(s) {
            1nat
        } else {
            0nat
        },
{
    lemma_record_count_from(s, 0);
}

proof fn lemma_records_join_from(s: Seq<u8>, start: int)
    requires
        0 <= start <= s.len(),
    ensures
        records_from(s, start).flatten() =~= s.skip(start),
    decreases s.len() - start,
{
    if start < s.len() {
        let end = line_end(s, start);
        let first = s.subrange(start, end);
        let rest = records_from(s, end);
        lemma_line_end(s, start);
        lemma_records_join_from(s, end);
        assert(records_from(s, start).drop_first() =~= rest);
        assert(first + s.skip(end) =~= s.skip(start));
    }
}

/// The records of a source, put end to end, are the source: splitting
/// neither drops nor adds a byte.
pub proof fn lemma_records_join(s: Seq<u8>)
    ensures
        records(s).flatten() =~= s,
{
    lemma_records_join_from(s, 0);
}

/// The number of bytes that the records hold together.
pub open spec fn total_len(rs: Seq<Seq<u8>>) -> nat {
    rs.flatten().len()
}

/// One more record adds its length.
pub proof fn lemma_total_len_push(rs: Seq<Seq<u8>>, r: Seq<u8>)
    ensures
        total_len(rs.push(r)) == total_len(rs) + r.len(),
{
    rs.lemma_flatten_push(r);
}

proof fn lemma_records_len_from(s: Seq<u8>, start: int)
    requires
        0 <= start <= s.len(),
    ensures
        records_from(s, start).len() <= s.len() - start,
    decreases s.len() - start,
{
    if start < s.len() {
        lemma_line_end(s, start);
        lemma_records_len_from(s, line_end(s, start));
    }
}

/// A source has no more records than bytes, and its records hold as many
/// bytes as it has.
pub proof fn lemma_records_size(s: Seq<u8>)
    ensures
        records(s).len() <= s.len(),
        total_len(records(s)) == s.len(),
{
    lemma_records_len_from(s, 0);
    lemma_records_join(s);
}

/// `r` has the shape of a record: it is not empty and holds no line feed
/// before its last byte.
pub open spec fn is_record(r: Seq<u8>) -> bool {
    &&& r.len() > 0
    &&& forall|i: int| 0 <= i < r.len() - 1 ==> r[i] != LINE_FEED
}

/// `rs` has the shape of what splitting yields: records, each but the last
/// ended by a line feed.
pub open spec fn well_split(rs: Seq<Seq<u8>>) -> bool {
    &&& forall|i: int| 0 <= i < rs.len() ==> is_record(#[trigger] rs[i])
    &&& forall|i: int| 0 <= i < rs.len() - 1 ==> (#[trigger] rs[i]).last() == LINE_FEED
}

proof fn lemma_records_well_split_from(s: Seq<u8>, start: int)
    requires
        0 <= start <= s.len(),
    ensures
        well_split(records_from(s, start)),
    decreases s.len() - start,
{
    if start < s.len() {
        let end = line_end(s, start);
        let rs = records_from(s, start);
        let rest = records_from(s, end);
        lemma_line_end(s, start);
        lemma_records_well_split_from(s, end);
        assert forall|i: int| 0 <= i < rs.len() implies is_record(#[trigger] rs[i]) by {
            if i > 0 {
                assert(rs[i] == rest[i - 1]);
            }
        }
        assert forall|i: int| 0 <= i < rs.len() - 1 implies (#[trigger] rs[i]).last()
            == LINE_FEED by {
            if i > 0 {
                assert(rs[i] == rest[i - 1]);
            }
        }
    }
}

/// What splitting yields has the shape of a list of records.
pub proof fn lemma_records_well_split(s: Seq<u8>)
    ensures
        well_split(records(s)),
{
    lemma_records_well_split_from(s, 0);
}

proof fn lemma_line_end_found(s: Seq<u8>, start: int, end: int)
    requires
        0 <= start < end <= s.len(),
        forall|i: int| start <= i < end - 1 ==> s[i] != LINE_FEED,
        s[end - 1] == LINE_FEED || end == s.len(),
    ensures
        line_end(s, start) == end,
    decreases end - start,
{
    if start + 1 < end {
        lemma_line_end_found(s, start + 1, end);
    } else if s[start] != LINE_FEED {
        assert(line_end(s, start + 1) == start + 1);
    }
}

proof fn lemma_line_end_shift(s: Seq<u8>, d: int, i: int)
    requires
        0 <= d <= s.len(),
        0 <= i,
    ensures
        line_end(s, d + i) == d + line_end(s.skip(d), i),
    decreases s.len() - d - i,
{
    if d + i < s.len() && s[d + i] != LINE_FEED {
        lemma_line_end_shift(s, d, i + 1);
    }
}

proof fn lemma_records_shift(s: Seq<u8>, d: int, i: int)
    requires
        0 <= d <= s.len(),
        0 <= i,
    ensures
        records_from(s, d + i) =~= records_from(s.skip(d), i),
    decreases s.len() - d - i,
{
    if d + i < s.len() {
        lemma_line_end(s, d + i);
        lemma_line_end_shift(s, d, i);
        let end = line_end(s.skip(d), i);
        lemma_records_shift(s, d, end);
        assert(s.subrange(d + i, d + end) =~= s.skip(d).subrange(i, end));
    }
}

/// Splitting undoes joining: a list with the shape of records, put end to
/// end and split again, comes back as it was.
pub proof fn lemma_split_joined(rs: Seq<Seq<u8>>)
    requires
        well_split(rs),
    ensures
        records(rs.flatten()) =~= rs,
    decreases rs.len(),
{
    if rs.len() > 0 {
        let first = rs[0];
        let rest = rs.drop_first();
        let s = rs.flatten();
        assert(is_record(first));
        assert(well_split(rest)) by {
            assert forall|i: int| 0 <= i < rest.len() implies is_record(#[trigger] rest[i]) by {
                assert(rest[i] == rs[i + 1]);
            }
            assert forall|i: int| 0 <= i < rest.len() - 1 implies (#[trigger] rest[i]).last()
                == LINE_FEED by {
                assert(rest[i] == rs[i + 1]);
            }
        }
        lemma_split_joined(rest);
        assert(s =~= first + rest.flatten());
        if rest.len() > 0 {
            assert(rs[0].last() == LINE_FEED);
        } else {
            assert(rest.flatten() =~= Seq::<u8>::empty());
        }
        lemma_line_end_found(s, 0, first.len() as int);
        lemma_records_shift(s, first.len() as int, 0);
        assert(s.skip(first.len() as int) =~= rest.flatten());
        assert(s.subrange(0, first.len() as int) =~= first);
    } else {
        assert(rs.flatten() =~= Seq::<u8>::empty());
    }
}

/// The first `limit` bytes of `s`, or all of `s` when it is shorter.
pub open spec fn chunk(s: Seq<u8>, limit: nat) -> Seq<u8> {
    if limit <= s.len() {
        s.take(limit as int)
    } else {
        s
    }
}

/// A cursor that hands out the records of a buffer one by one.
pub struct LineReader<'a> {
    data: &'a [u8],
    pos: usize,
}

impl<'a> LineReader<'a> {
    #[verifier::type_invariant]
    spec fn in_bounds(&self) -> bool {
        self.pos <= self.data@.len()
    }

    /// The bytes that the reader was made for.
    pub closed spec fn source(&self) -> Seq<u8> {
        self.data@
    }

    /// How many bytes have been handed out.
    pub closed spec fn position(&self) -> int {
        self.pos as int
    }

    /// The records that are still to come.
    pub open spec fn remaining(&self) -> Seq<Seq<u8>> {
        records_from(self.source(), self.position())
    }

    /// A reader at the start of `data`.
    pub fn new(data: &'a [u8]) -> (reader: Self)
        ensures
            reader.source() == data@,
            reader.position() == 0,
            reader.remaining() == records(data@),
    {
        LineReader { data, pos: 0 }
    }

    /// Reads up to and including the next line feed. `None` signals the end
    /// of the input.
    pub fn next_record(&mut self) -> (record: Option<&'a [u8]>)
        ensures
            final(self).source() == old(self).source(),
            old(self).position() <= final(self).position() <= old(self).source().len(),
            match record {
                None => old(self).remaining().len() == 0 && final(self).remaining().len() == 0,
                Some(r) => {
                    &&& old(self).remaining() == seq![r@] + final(self).remaining()
                    &&& r@ == old(self).source().subrange(
                        old(self).position(),
                        final(self).position(),
                    )
                    &&& r@.len() > 0
                },
            },
    {
        proof {
            use_type_invariant(&*self);
        }
        let data: &'a [u8] = self.data;
        let start = self.pos;
        if start >= data.len() {
            return None;
        }
        let mut end = start;
        let mut found = false;
        while !found && end < data.len()
            invariant
                start <= end <= data@.len(),
                start < data@.len(),
                forall|i: int| start <= i < end - (if found { 1int } else { 0int }) ==> data@[i] != LINE_FEED,
                found ==> end > start && data@[end - 1] == LINE_FEED,
                line_end(data@, start as int) == if found {
                    end as int
                } else {
                    line_end(data@, end as int)
                },
            decreases data@.len() - end + if found { 0int } else { 1int },
        {
            if data[end] == LINE_FEED {
                found = true;
            }
            end = end + 1;
        }
        proof {
            lemma_line_end(data@, start as int);
        }
        self.pos = end;
        Some(slice_subrange(data, start, end))
    }
}

/// Chunk mode: up to `limit` bytes from the start of `data`, fewer when the
/// input ends first.
pub fn read_chunk(data: &[u8], limit: usize) -> (bytes: &[u8])
    ensures
        bytes@ == chunk(data@, limit as nat),
{
    if limit <= data.len() {
        slice_subrange(data, 0, limit)
    } else {
        assert(data@.subrange(0, data@.len() as int) =~= data@);
        slice_subrange(data, 0, data.len())
    }
}

} // verus!

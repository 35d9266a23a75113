//! Text decoding and the character classes the tools rely on.
use vstd::prelude::*;
use vstd::utf8::{
    decode_utf8, decode_utf8_encode_utf8, encode_scalar, encode_utf8, pop_first_scalar, valid_utf8,
};

verus! {

/// The characters with the Unicode `White_Space` property.
pub open spec fn is_whitespace(c: char) -> bool {
    let v = c as u32;
    ||| 0x09 <= v <= 0x0D
    ||| v == 0x20
    ||| v == 0x85
    ||| v == 0xA0
    ||| v == 0x1680
    ||| 0x2000 <= v <= 0x200A
    ||| v == 0x2028
    ||| v == 0x2029
    ||| v == 0x202F
    ||| v == 0x205F
    ||| v == 0x3000
}

/// A text is blank when trimming whitespace from it leaves nothing.
pub open spec fn is_blank(s: Seq<char>) -> bool {
    forall|i: int| 0 <= i < s.len() ==> is_whitespace(#[trigger] s[i])
}

/// Position `i` of `s` holds the first character of a word: a character
/// that is not whitespace, at the start of `s` or right after whitespace.
pub open spec fn starts_word(s: Seq<char>, i: int) -> bool {
    &&& 0 <= i < s.len()
    &&& !is_whitespace(s[i])
    &&& (i == 0 || is_whitespace(s[i - 1]))
}

/// How many of the first `n` positions of `s` start a word.
pub open spec fn word_starts(s: Seq<char>, n: int) -> nat
    decreases n,
{
    if n <= 0 {
        0
    } else {
        word_starts(s, n - 1) + if starts_word(s, n - 1) {
            1nat
        } else {
            0nat
        }
    }
}

/// The number of maximal runs of non-whitespace characters in `s`.
pub open spec fn word_count(s: Seq<char>) -> nat {
    word_starts(s, s.len() as int)
}

/// No more positions start a word than there are positions.
pub proof fn lemma_word_starts_bound(s: Seq<char>, n: int)
    requires
        0 <= n,
    ensures
        word_starts(s, n) <= n,
    decreases n,
{
    if n > 0 {
        lemma_word_starts_bound(s, n - 1);
    }
}

/// Encoding never yields fewer bytes than there are characters.
pub proof fn lemma_encoded_len(s: Seq<char>)
    ensures
        s.len() <= encode_utf8(s).len(),
    decreases s.len(),
{
    if s.len() > 0 {
        lemma_encoded_len(s.drop_first());
        assert(encode_scalar(s[0] as u32).len() >= 1);
    }
}

/// Decoding never yields more characters than there are bytes.
pub proof fn lemma_decoded_len(bytes: Seq<u8>)
    requires
        valid_utf8(bytes),
    ensures
        decode_utf8(bytes).len() <= bytes.len(),
{
    decode_utf8_encode_utf8(bytes);
    lemma_encoded_len(decode_utf8(bytes));
}

/// The encoding of two texts put together is the two encodings put
/// together.
pub proof fn lemma_encode_concat(a: Seq<char>, b: Seq<char>)
    ensures
        encode_utf8(a + b) =~= encode_utf8(a) + encode_utf8(b),
    decreases a.len(),
{
    if a.len() == 0 {
        assert(a + b =~= b);
    } else {
        lemma_encode_concat(a.drop_first(), b);
        assert((a + b).drop_first() =~= a.drop_first() + b);
    }
}

/// Every byte of `bytes` is below 0x80.
pub open spec fn is_ascii_bytes(bytes: Seq<u8>) -> bool {
    forall|i: int| 0 <= i < bytes.len() ==> bytes[i] < 0x80
}

/// ASCII is valid UTF-8 with one character for each byte.
pub proof fn lemma_ascii_text(bytes: Seq<u8>)
    requires
        is_ascii_bytes(bytes),
    ensures
        valid_utf8(bytes),
        decode_utf8(bytes).len() == bytes.len(),
    decreases bytes.len(),
{
    if bytes.len() > 0 {
        let lead = bytes[0];
        assert((lead & 0x7f) as u32 <= 0x7f) by (bit_vector);
        lemma_ascii_text(pop_first_scalar(bytes));
    }
}

/// Valid UTF-8 that holds a byte from 0x80 up has fewer characters than
/// bytes.
pub proof fn lemma_multibyte_text(bytes: Seq<u8>, at: int)
    requires
        valid_utf8(bytes),
        0 <= at < bytes.len(),
        bytes[at] >= 0x80,
    ensures
        decode_utf8(bytes).len() < bytes.len(),
    decreases bytes.len(),
{
    let rest = pop_first_scalar(bytes);
    lemma_decoded_len(rest);
    if bytes[0] < 0x80 {
        assert(rest[at - 1] == bytes[at]);
        lemma_multibyte_text(rest, at - 1);
    }
}

/// Whether `c` is whitespace.
pub fn whitespace(c: char) -> (b: bool)
    ensures
        b == is_whitespace(c),
{
    let v: u32 = c as u32;
    (0x09 <= v && v <= 0x0D) || v == 0x20 || v == 0x85 || v == 0xA0 || v == 0x1680 || (0x2000 <= v
        && v <= 0x200A) || v == 0x2028 || v == 0x2029 || v == 0x202F || v == 0x205F || v == 0x3000
}

/// Whether `text` holds nothing but whitespace.
pub fn blank(text: &str) -> (b: bool)
    ensures
        b == is_blank(text@),
{
    let mut all = true;
    for c in it: text.chars()
        invariant
            it.seq() == text@,
            all == is_blank(text@.take(it.index())),
    {
        let ghost seen = text@.take(it.index());
        let ghost next = text@.take(it.index() + 1);
        assert(c == text@[it.index()]);
        assert(is_blank(next) <==> is_blank(seen) && is_whitespace(c)) by {
            if is_blank(next) {
                assert forall|i: int| 0 <= i < seen.len() implies is_whitespace(
                    #[trigger] seen[i],
                ) by {
                    assert(seen[i] == next[i]);
                }
                assert(next[it.index()] == c);
            }
            if is_blank(seen) && is_whitespace(c) {
                assert forall|i: int| 0 <= i < next.len() implies is_whitespace(
                    #[trigger] next[i],
                ) by {
                    if i < seen.len() {
                        assert(next[i] == seen[i]);
                    }
                }
            }
        }
        if !whitespace(c) {
            all = false;
        }
    }
    assert(text@.take(text@.len() as int) =~= text@);
    all
}

/// The number of whitespace-delimited words in `text`.
pub fn count_words(text: &str) -> (n: usize)
    ensures
        n == word_count(text@),
{
    let size = text.as_bytes().len();
    proof {
        lemma_encoded_len(text@);
        assert(text@.len() <= size);
    }
    let mut words: usize = 0;
    let mut after_space = true;
    for c in it: text.chars()
        invariant
            it.seq() == text@,
            text@.len() <= usize::MAX,
            words == word_starts(text@, it.index()),
            after_space == (it.index() == 0 || is_whitespace(text@[it.index() - 1])),
    {
        assert(c == text@[it.index()]);
        proof {
            lemma_word_starts_bound(text@, it.index());
        }
        let space = whitespace(c);
        if after_space && !space {
            words = words + 1;
        }
        after_space = space;
    }
    words
}

/// The number of Unicode scalar values in `text`.
pub fn count_chars(text: &str) -> (n: usize)
    ensures
        n == text@.len(),
{
    text.unicode_len()
}

/// Decodes `bytes` as UTF-8 with `core::str::from_utf8`: the text comes
/// back exactly when the bytes are well-formed, and is then the sequence of
/// scalar values that they encode.
#[verifier::external_body]
pub(crate) fn from_utf8(bytes: &[u8]) -> (text: Option<&str>)
    ensures
        text is Some <==> valid_utf8(bytes@),
        text matches Some(t) ==> t@ == decode_utf8(bytes@),
{
    core::str::from_utf8(bytes).ok()
}

/// What `String::from_utf8_lossy` makes of bytes: the text in which each
/// malformed sequence is replaced by U+FFFD.
pub uninterp spec fn lossy_text(bytes: Seq<u8>) -> Seq<char>;

/// The text that is shown for `bytes`: what they encode where they are
/// valid UTF-8, and the lossy rendering otherwise.
pub open spec fn shown_text(bytes: Seq<u8>) -> Seq<char> {
    if valid_utf8(bytes) {
        decode_utf8(bytes)
    } else {
        lossy_text(bytes)
    }
}

/// Decodes `bytes` with `String::from_utf8_lossy`. The result depends on
/// the bytes alone. Valid UTF-8 comes back as the text that it encodes; of
/// other input no more than the name of the result is claimed.
#[verifier::external_body]
pub(crate) fn from_utf8_lossy(bytes: &[u8]) -> (text: String)
    ensures
        text@ == lossy_text(bytes@),
        valid_utf8(bytes@) ==> text@ == decode_utf8(bytes@),
{
    String::from_utf8_lossy(bytes).into_owned()
}

/// The text that is shown for `bytes`, malformed sequences replaced.
pub fn decode_lossy(bytes: &[u8]) -> (text: String)
    ensures
        text@ == shown_text(bytes@),
{
    from_utf8_lossy(bytes)
}

} // verus!

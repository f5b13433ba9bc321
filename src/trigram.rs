//! Text normalisation and trigram extraction.
//!
//! Text is normalised by keeping only its ASCII letters and digits, folded to
//! lower case. Trigrams are the overlapping three-byte windows of a byte
//! string, each folded to ASCII lower case, and each packs into a `u32`.
use vstd::prelude::*;
use vstd::utf8::{is_ascii_chars, valid_utf8, encode_utf8};
use std::string::FromUtf8Error;
use vstd::string::StringSliceAdditionalSpecFns;

verus! {

/// An ASCII letter or digit.
pub open spec fn is_alphanumeric(c: char) -> bool {
    ('0' <= c && c <= '9') || ('a' <= c && c <= 'z') || ('A' <= c && c <= 'Z')
}

/// The lower-case form of an ASCII letter; any other character is kept.
pub open spec fn lower_char(c: char) -> char {
    if 'A' <= c && c <= 'Z' {
        ((c as u32) + 32) as char
    } else {
        c
    }
}

/// The ASCII letters and digits of `s`, in order, folded to lower case.
pub open spec fn normalized(s: Seq<char>) -> Seq<char>
    decreases s.len(),
{
    if s.len() == 0 {
        Seq::empty()
    } else if is_alphanumeric(s.last()) {
        normalized(s.drop_last()).push(lower_char(s.last()))
    } else {
        normalized(s.drop_last())
    }
}

/// The lower-case form of an ASCII upper-case byte; any other byte is kept.
pub open spec fn lower_byte(b: u8) -> u8 {
    if 65 <= b && b <= 90 {
        (b + 32) as u8
    } else {
        b
    }
}

/// Number of three-byte windows in a string of `n` bytes.
pub open spec fn window_count(n: nat) -> nat {
    if n >= 2 {
        (n - 2) as nat
    } else {
        0
    }
}

/// Three bytes of text.
#[derive(Clone, Copy, Debug, PartialEq, Eq, Structural, Hash)]
pub struct Trigram {
    pub first: u8,
    pub second: u8,
    pub third: u8,
}

/// The trigrams of `bytes`: window `i` holds bytes `i`, `i + 1` and `i + 2`,
/// each folded to lower case.
pub open spec fn trigrams_of(bytes: Seq<u8>) -> Seq<Trigram> {
    Seq::new(
        window_count(bytes.len()),
        |i: int|
            Trigram {
                first: lower_byte(bytes[i]),
                second: lower_byte(bytes[i + 1]),
                third: lower_byte(bytes[i + 2]),
            },
    )
}

/// The packed code of a trigram: `first * 2^16 + second * 2^8 + third`.
pub open spec fn code_of(t: Trigram) -> u32 {
    ((t.first as int) * 65536 + (t.second as int) * 256 + (t.third as int)) as u32
}

/// The packed codes of the trigrams of `bytes`.
pub open spec fn codes_of(bytes: Seq<u8>) -> Seq<u32> {
    trigrams_of(bytes).map_values(|t: Trigram| code_of(t))
}

/// The bytes of the normalised form of `text`.
pub open spec fn normalized_bytes(text: Seq<char>) -> Seq<u8> {
    normalized(text).map_values(|c: char| c as u8)
}

/// The packed trigram codes of the normalised form of `text`.
pub open spec fn text_codes(text: Seq<char>) -> Seq<u32> {
    codes_of(normalized_bytes(text))
}

/// Normalising a concatenation normalises each part.
pub proof fn lemma_normalized_append(a: Seq<char>, b: Seq<char>)
    ensures
        normalized(a + b) == normalized(a) + normalized(b),
    decreases b.len(),
{
    if b.len() == 0 {
        assert(a + b =~= a);
        assert(normalized(a) + normalized(b) =~= normalized(a));
    } else {
        assert((a + b).drop_last() =~= a + b.drop_last());
        assert((a + b).last() == b.last());
        lemma_normalized_append(a, b.drop_last());
        if is_alphanumeric(b.last()) {
            assert(normalized(a + b) =~= normalized(a) + normalized(b));
        } else {
            assert(normalized(a + b) =~= normalized(a) + normalized(b));
        }
    }
}

/// Every trigram code of a piece of a text is a trigram code of the whole
/// text: a substring query finds the text it was cut from.
pub proof fn lemma_substring_codes(text: Seq<char>, query: Seq<char>, start: int)
    requires
        0 <= start,
        start + query.len() <= text.len(),
        text.subrange(start, start + query.len()) == query,
    ensures
        forall|j: int|
            0 <= j < text_codes(query).len() ==> text_codes(text).contains(
                #[trigger] text_codes(query)[j],
            ),
{
    let a = text.subrange(0, start);
    let b = text.subrange(start + query.len(), text.len() as int);
    assert(text =~= a + query + b);
    lemma_normalized_append(a + query, b);
    lemma_normalized_append(a, query);
    let na = normalized(a);
    let nq = normalized(query);
    let nb = normalized(b);
    assert(normalized(text) == na + nq + nb);
    let x = normalized_bytes(text);
    let y = normalized_bytes(query);
    let off = na.len() as int;
    assert(x =~= na.map_values(|c: char| c as u8) + y + nb.map_values(|c: char| c as u8));
    assert forall|j: int| 0 <= j < text_codes(query).len() implies text_codes(text).contains(
        #[trigger] text_codes(query)[j],
    ) by {
        assert(j < window_count(y.len()));
        assert(x[off + j] == y[j]);
        assert(x[off + j + 1] == y[j + 1]);
        assert(x[off + j + 2] == y[j + 2]);
        assert(off + j < window_count(x.len()));
        assert(trigrams_of(x)[off + j] == trigrams_of(y)[j]);
        assert(text_codes(text)[off + j] == text_codes(query)[j]);
    }
}

proof fn lemma_normalized_ascii(s: Seq<char>)
    ensures
        is_ascii_chars(normalized(s)),
        forall|i: int| 0 <= i < normalized(s).len() ==> #[trigger] normalized(s)[i] != 'A' && (
        normalized(s)[i] < 'A' || normalized(s)[i] > 'Z'),
    decreases s.len(),
{
    if s.len() > 0 {
        lemma_normalized_ascii(s.drop_last());
    }
}

/// Relies on `String::push`: the character is appended at the end.
#[verifier::external_body]
pub(crate) fn push_char(s: &mut String, c: char)
    ensures
        final(s)@ == old(s)@.push(c),
{
    s.push(c)
}

fn is_ascii_alphanumeric(c: char) -> (r: bool)
    ensures
        r == is_alphanumeric(c),
{
    ('0' <= c && c <= '9') || ('a' <= c && c <= 'z') || ('A' <= c && c <= 'Z')
}

fn to_ascii_lowercase(c: char) -> (r: char)
    ensures
        r == lower_char(c),
{
    if 'A' <= c && c <= 'Z' {
        ((c as u8) + 32) as char
    } else {
        c
    }
}

/// Keeps the ASCII letters and digits of `text`, folded to lower case.
pub fn lowercase_alphanumeric_only(text: &str) -> (r: String)
    ensures
        r@ == normalized(text@),
{
    let mut normalized_text = String::new();
    for c in it: text.chars()
        invariant
            it.seq() == text@,
            normalized_text@ == normalized(text@.subrange(0, it.index() as int)),
    {
        proof {
            let pre = text@.subrange(0, it.index() as int);
            let post = text@.subrange(0, it.index() as int + 1);
            assert(post.drop_last() =~= pre);
        }
        if is_ascii_alphanumeric(c) {
            push_char(&mut normalized_text, to_ascii_lowercase(c));
        }
    }
    assert(text@.subrange(0, text@.len() as int) =~= text@);
    normalized_text
}

fn ascii_lowercase_byte(b: u8) -> (r: u8)
    ensures
        r == lower_byte(b),
{
    if 65 <= b && b <= 90 {
        b + 32
    } else {
        b
    }
}

#[verifier::external_type_specification]
#[verifier::external_body]
pub struct ExFromUtf8Error(FromUtf8Error);

/// Relies on `String::from_utf8`: it succeeds exactly on valid UTF-8, and the
/// string it returns holds those bytes.
#[verifier::external_body]
pub(crate) fn string_from_utf8(bytes: Vec<u8>) -> (r: Result<String, FromUtf8Error>)
    ensures
        r is Ok <==> valid_utf8(bytes@),
        r matches Ok(s) ==> encode_utf8(s@) == bytes@,
{
    String::from_utf8(bytes)
}

impl Trigram {
    /// The trigrams of the bytes of `text`, in order, each folded to lower case.
    pub fn from_str(text: &str) -> (r: Vec<Trigram>)
        ensures
            r@ == trigrams_of(text.spec_bytes()),
    {
        let text_bytes = text.as_bytes();
        let trigrams_count: usize = if text_bytes.len() >= 2 {
            text_bytes.len() - 2
        } else {
            0
        };
        let mut trigrams: Vec<Trigram> = Vec::with_capacity(trigrams_count);
        let mut i: usize = 0;
        while i < trigrams_count
            invariant
                text_bytes@ == text.spec_bytes(),
                trigrams_count == window_count(text_bytes@.len()),
                i <= trigrams_count,
                trigrams@ == trigrams_of(text_bytes@).subrange(0, i as int),
            decreases trigrams_count - i,
        {
            let trigram = Trigram {
                first: ascii_lowercase_byte(text_bytes[i]),
                second: ascii_lowercase_byte(text_bytes[i + 1]),
                third: ascii_lowercase_byte(text_bytes[i + 2]),
            };
            trigrams.push(trigram);
            i = i + 1;
            assert(trigrams@ =~= trigrams_of(text_bytes@).subrange(0, i as int));
        }
        assert(trigrams@ =~= trigrams_of(text_bytes@));
        trigrams
    }

    /// The packed code `first << 16 | second << 8 | third`.
    pub fn to_u32(&self) -> (r: u32)
        ensures
            r == code_of(*self),
            r as int == (self.first as int) * 65536 + (self.second as int) * 256 + (
            self.third as int),
    {
        let (a, b, c) = (self.first, self.second, self.third);
        let r = ((a as u32) << 16) | ((b as u32) << 8) | (c as u32);
        assert(((a as u32) << 16) | ((b as u32) << 8) | (c as u32) == (a as u32) * 65536 + (
        b as u32) * 256 + (c as u32)) by (bit_vector);
        r
    }

    /// The three bytes as a string, where they are valid UTF-8.
    pub fn to_string(&self) -> (r: Result<String, FromUtf8Error>)
        ensures
            r is Ok <==> valid_utf8(seq![self.first, self.second, self.third]),
            r matches Ok(s) ==> encode_utf8(s@) == seq![self.first, self.second, self.third],
    {
        let bytes: Vec<u8> = vec![self.first, self.second, self.third];
        assert(bytes@ =~= seq![self.first, self.second, self.third]);
        string_from_utf8(bytes)
    }
}

/// A string equals a trigram where its first three bytes are the trigram's.
pub open spec fn str_matches_trigram(s: Seq<u8>, t: Trigram) -> bool {
    s.len() >= 3 && s[0] == t.first && s[1] == t.second && s[2] == t.third
}

impl PartialEq<Trigram> for str {
    fn eq(&self, other: &Trigram) -> (r: bool) {
        let bytes = self.as_bytes();
        bytes.len() >= 3 && bytes[0] == other.first && bytes[1] == other.second && bytes[2]
            == other.third
    }
}

impl vstd::std_specs::cmp::PartialEqSpecImpl<Trigram> for str {
    open spec fn obeys_eq_spec() -> bool {
        true
    }

    open spec fn eq_spec(&self, other: &Trigram) -> bool {
        str_matches_trigram(self.spec_bytes(), *other)
    }
}

/// The packed trigram codes of the normalised form of `text`.
pub fn text_trigram_codes(text: &str) -> (r: Vec<u32>)
    ensures
        r@ == text_codes(text@),
{
    let normalized_text = lowercase_alphanumeric_only(text);
    let normalized_str = normalized_text.as_str();
    proof {
        lemma_normalized_ascii(text@);
        vstd::string::is_ascii_spec_bytes(normalized_str);
        assert(normalized_str.spec_bytes() =~= normalized_bytes(text@));
    }
    let trigrams = Trigram::from_str(normalized_str);
    let mut codes: Vec<u32> = Vec::with_capacity(trigrams.len());
    let mut i: usize = 0;
    while i < trigrams.len()
        invariant
            i <= trigrams@.len(),
            trigrams@ == trigrams_of(normalized_bytes(text@)),
            codes@ == codes_of(normalized_bytes(text@)).subrange(0, i as int),
        decreases trigrams@.len() - i,
    {
        codes.push(trigrams[i].to_u32());
        i = i + 1;
        assert(codes@ =~= codes_of(normalized_bytes(text@)).subrange(0, i as int));
    }
    assert(codes@ =~= codes_of(normalized_bytes(text@)));
    codes
}

} // verus!

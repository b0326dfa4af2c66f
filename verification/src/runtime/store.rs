//! Where the last sequence number of a node is kept across restarts.

use vstd::prelude::*;
use crate::runtime::error::SeqStoreError;
use crate::text;

verus! {

/// Keeps the last sequence number that a node has used.
///
/// What a store keeps it may lose, and it may fail: nothing is known of a store
/// in general.
pub trait SeqStore {
    /// The number that is kept, if it can be had.
    fn load(&self) -> Result<u64, SeqStoreError>;

    /// Keeps a number, unless it is less than the one that is kept.
    fn persist(&mut self, seq: u64) -> Result<(), SeqStoreError>;
}

/// What is said of a number that is less than the one that is kept.
pub open spec fn backward(stored: u64, seq: u64) -> Seq<char> {
    "refusing to move persisted sequence backward from "@ + text::decimal(stored as nat) + " to "@
        + text::decimal(seq as nat)
}

/// Refuses a number that is less than the one that is kept.
pub fn check_advance(stored: u64, seq: u64) -> (checked: Result<(), SeqStoreError>)
    ensures
        match checked {
            Ok(_) => seq >= stored,
            Err(error) => seq < stored && error@ == backward(stored, seq),
        },
{
    if seq < stored {
        let mut words = "refusing to move persisted sequence backward from ".to_owned();
        text::append_decimal(&mut words, stored);
        words.append(" to ");
        text::append_decimal(&mut words, seq);
        Err(SeqStoreError::new(words))
    } else {
        Ok(())
    }
}

/// Keeps the number in memory.
#[derive(Debug)]
pub struct MemorySeqStore {
    seq: u64,
}

impl MemorySeqStore {
    /// The number that is kept.
    pub closed spec fn stored(&self) -> u64 {
        self.seq
    }

    /// A store that keeps the given number.
    pub fn with_seq(seq: u64) -> (store: Self)
        ensures
            store.stored() == seq,
    {
        MemorySeqStore { seq }
    }
}

impl Default for MemorySeqStore {
    /// A store that keeps zero.
    fn default() -> (store: Self)
        ensures
            store.stored() == 0,
    {
        MemorySeqStore { seq: 0 }
    }
}

impl SeqStore for MemorySeqStore {
    fn load(&self) -> (seq: Result<u64, SeqStoreError>)
        ensures
            seq == Ok::<u64, SeqStoreError>(self.stored()),
    {
        Ok(self.seq)
    }

    fn persist(&mut self, seq: u64) -> (kept: Result<(), SeqStoreError>)
        ensures
            match kept {
                Ok(_) => {
                    &&& seq >= old(self).stored()
                    &&& final(self).stored() == seq
                },
                Err(error) => {
                    &&& seq < old(self).stored()
                    &&& final(self).stored() == old(self).stored()
                    &&& error@ == backward(old(self).stored(), seq)
                },
            },
    {
        match check_advance(self.seq, seq) {
            Ok(_) => {
                self.seq = seq;
                Ok(())
            },
            Err(error) => Err(error),
        }
    }
}

/// The character is a decimal digit.
pub open spec fn is_digit(c: char) -> bool {
    '0' <= c && c <= '9'
}

/// The number that decimal digits spell.
pub open spec fn digits_value(digits: Seq<char>) -> nat
    decreases digits.len(),
{
    if digits.len() == 0 {
        0
    } else {
        digits_value(digits.drop_last()) * 10 + (digits.last() as nat - '0' as nat) as nat
    }
}

/// The digits of a number that may have a sign in front.
pub open spec fn unsigned(text: Seq<char>) -> Seq<char> {
    if text.len() > 0 && text[0] == '+' {
        text.drop_first()
    } else {
        text
    }
}

/// The number that a text spells: decimal digits, with or without a plus sign
/// in front, of a number that fits in sixty-four bits.
pub open spec fn number_in(text: Seq<char>) -> Option<u64> {
    let digits = unsigned(text);
    if digits.len() > 0 && (forall|i: int| 0 <= i < digits.len() ==> is_digit(#[trigger] digits[i]))
        && digits_value(digits) <= u64::MAX {
        Some(digits_value(digits) as u64)
    } else {
        None
    }
}

/// The character is white space: it has the property White_Space of Unicode.
pub open spec fn is_white_space(c: char) -> bool {
    let n = c as u32;
    ||| 0x09 <= n <= 0x0d
    ||| n == 0x20
    ||| n == 0x85
    ||| n == 0xa0
    ||| n == 0x1680
    ||| 0x2000 <= n <= 0x200a
    ||| n == 0x2028
    ||| n == 0x2029
    ||| n == 0x202f
    ||| n == 0x205f
    ||| n == 0x3000
}

/// A text from its first character on that is not white space.
pub open spec fn without_leading(text: Seq<char>) -> Seq<char>
    decreases text.len(),
{
    if text.len() > 0 && is_white_space(text[0]) {
        without_leading(text.drop_first())
    } else {
        text
    }
}

/// A text up to its last character that is not white space.
pub open spec fn without_trailing(text: Seq<char>) -> Seq<char>
    decreases text.len(),
{
    if text.len() > 0 && is_white_space(text.last()) {
        without_trailing(text.drop_last())
    } else {
        text
    }
}

/// A text without the white space at both ends.
pub open spec fn trimmed(text: Seq<char>) -> Seq<char> {
    without_trailing(without_leading(text))
}

/// Calls `str::trim`, which removes white space from both ends of a text.
#[verifier::external_body]
fn trim(contents: &str) -> (rest: &str)
    ensures
        rest@ == trimmed(contents@),
{
    contents.trim()
}

/// Calls `str::parse::<u64>`, which takes decimal digits with or without a
/// plus sign in front, and fails on anything else and on numbers that do not
/// fit. Nothing is stated of the description of an error.
#[verifier::external_body]
fn parse_number(digits: &str) -> (value: Result<u64, String>)
    ensures
        match value {
            Ok(v) => number_in(digits@) == Some(v),
            Err(_) => number_in(digits@) is None,
        },
{
    digits.parse::<u64>().map_err(|error| error.to_string())
}

/// The number that a file holds.
pub fn parse_sequence(contents: &str) -> (seq: Result<u64, String>)
    ensures
        match seq {
            Ok(s) => number_in(trimmed(contents@)) == Some(s),
            Err(_) => number_in(trimmed(contents@)) is None,
        },
        forall|value: u64|
            contents@ == (#[trigger] text::decimal(value as nat)).push('\n') ==> seq == Ok::<
                u64,
                String,
            >(value),
{
    let digits = trim(contents);
    let seq = parse_number(digits);
    proof {
        assert forall|value: u64|
            contents@ == (#[trigger] text::decimal(value as nat)).push('\n') implies seq == Ok::<
            u64,
            String,
        >(value) by {
            decimals_are_read_back(value);
            lines_are_trimmed(value as nat);
        }
    }
    seq
}

/// What a file that keeps a number holds.
pub fn sequence_line(seq: u64) -> (line: String)
    ensures
        line@ == text::decimal(seq as nat).push('\n'),
{
    let mut line = String::new();
    text::append_decimal(&mut line, seq);
    line.append("\n");
    proof {
        reveal_strlit("\n");
        assert(line@ =~= text::decimal(seq as nat).push('\n'));
    }
    line
}

/// Decimal digits spell their number.
pub proof fn decimals_are_read_back(value: u64)
    ensures
        number_in(text::decimal(value as nat)) == Some(value),
{
    decimal_digits(value as nat);
}

/// Of a number in decimal digits and a line feed, the number is left.
pub(crate) proof fn lines_are_trimmed(value: nat)
    ensures
        trimmed(text::decimal(value).push('\n')) == text::decimal(value),
{
    let digits = text::decimal(value);
    let line = digits.push('\n');
    decimal_digits(value);
    assert(is_digit(digits[0]));
    assert(line[0] == digits[0]);
    assert(without_leading(line) == line);
    assert(is_digit(digits[digits.len() - 1]));
    assert(line.drop_last() =~= digits);
    assert(without_trailing(digits) == digits);
}

/// Decimal digits are digits, spell their number, and are at least one.
proof fn decimal_digits(value: nat)
    ensures
        text::decimal(value).len() > 0,
        forall|i: int|
            0 <= i < text::decimal(value).len() ==> is_digit(#[trigger] text::decimal(value)[i]),
        digits_value(text::decimal(value)) == value,
    decreases value,
{
    let digits = text::decimal(value);
    if value < 10 {
        assert(digits.drop_last() =~= Seq::<char>::empty());
        assert(digits_value(digits.drop_last()) == 0);
    } else {
        decimal_digits(value / 10);
        assert(digits.drop_last() =~= text::decimal(value / 10));
    }
}

/// Keeps the number in a file. Reading and writing the file belong to the
/// caller.
#[derive(Clone, Debug)]
pub struct FileSeqStore {
    path: String,
}

impl FileSeqStore {
    /// The path of the file.
    pub closed spec fn location(&self) -> Seq<char> {
        self.path@
    }

    /// A store that uses the file at a path.
    pub fn new(path: String) -> (store: Self)
        ensures
            store.location() == path@,
    {
        FileSeqStore { path }
    }

    /// The path of the file.
    pub fn path(&self) -> (path: &str)
        ensures
            path@ == self.location(),
    {
        self.path.as_str()
    }

    /// The number that the file keeps, from what it holds; without a file it
    /// is zero.
    pub fn loaded(&self, contents: Option<String>) -> (seq: Result<u64, SeqStoreError>)
        ensures
            match seq {
                Ok(s) => match contents {
                    None => s == 0,
                    Some(held) => number_in(trimmed(held@)) == Some(s),
                },
                Err(error) => {
                    &&& contents matches Some(held)
                    &&& number_in(trimmed(held@)) is None
                    &&& exists|details: Seq<char>|
                        error@ == "invalid sequence in "@ + self.location() + ": "@ + details
                },
            },
    {
        match contents {
            None => Ok(0),
            Some(held) => match parse_sequence(held.as_str()) {
                Ok(seq) => Ok(seq),
                Err(details) => Err(failure("invalid sequence in ", self.path(), details.as_str())),
            },
        }
    }
}

/// What is said of something that failed.
pub fn failure(what: &str, path: &str, details: &str) -> (error: SeqStoreError)
    ensures
        error@ == what@ + path@ + ": "@ + details@,
{
    let mut words = String::new();
    words.append(what);
    words.append(path);
    words.append(": ");
    words.append(details);
    assert(words@ =~= what@ + path@ + ": "@ + details@);
    SeqStoreError::new(words)
}

} // verus!

//! The dictionary text format: one entry per line, a five-letter lowercase
//! word, one space, and a decimal usage count.
//!
//! Parsing happens once, at load time; a malformed line is an error of the
//! load, never of a later game. The predicates below say exactly which lines
//! are accepted, and the parser's contract ties each error to the lines on
//! which it is returned.

use vstd::prelude::*;

use crate::mask::WORD_LEN;

verus! {

/// One dictionary entry: a word and how often it is used.
#[derive(Debug, PartialEq, Eq)]
pub struct DictEntry {
    /// The word, of the fixed length.
    pub word: String,
    /// The word's usage count, a weight for candidate selection.
    pub count: u64,
}

impl DictEntry {
    /// A well-formed entry carries a word of the fixed length.
    pub open spec fn wf(&self) -> bool {
        self.word@.len() == WORD_LEN
    }
}

impl Clone for DictEntry {
    /// Clones the entry; the copy equals the original.
    fn clone(&self) -> (r: Self)
        ensures
            r == *self,
    {
        DictEntry { word: self.word.clone(), count: self.count }
    }
}

/// Why a dictionary line was rejected.
#[derive(Debug, Clone, Copy, PartialEq, Eq, Structural)]
pub enum DictError {
    /// The line does not start with a five-letter lowercase word followed by
    /// one space.
    MalformedWord,
    /// What follows the space is not a non-empty run of decimal digits.
    MalformedCount,
    /// The count is a run of digits but does not fit the count type.
    CountTooLarge,
}

/// A lowercase letter of the alphabet the words are drawn from.
pub open spec fn is_lower_letter(c: char) -> bool {
    'a' <= c <= 'z'
}

/// A decimal digit.
pub open spec fn is_digit(c: char) -> bool {
    '0' <= c <= '9'
}

/// The numeric value of a digit.
pub open spec fn digit_value(c: char) -> int {
    c as int - '0' as int
}

/// The value of a run of decimal digits, most significant first.
pub open spec fn digits_value(s: Seq<char>) -> int
    decreases s.len(),
{
    if s.len() == 0 {
        0
    } else {
        digits_value(s.drop_last()) * 10 + digit_value(s.last())
    }
}

/// The line starts with a word of the fixed length, all lowercase letters,
/// followed by one space.
pub open spec fn word_part_ok(s: Seq<char>) -> bool {
    &&& s.len() > WORD_LEN
    &&& forall|i: int| 0 <= i < WORD_LEN ==> is_lower_letter(#[trigger] s[i])
    &&& s[WORD_LEN as int] == ' '
}

/// Everything after the space is a digit, and there is at least one.
pub open spec fn count_part_ok(s: Seq<char>) -> bool {
    &&& s.len() > WORD_LEN + 1
    &&& forall|i: int| WORD_LEN + 1 <= i < s.len() ==> is_digit(#[trigger] s[i])
}

/// The digits after the space, as a sequence.
pub open spec fn count_digits(s: Seq<char>) -> Seq<char> {
    s.subrange(WORD_LEN + 1, s.len() as int)
}

/// A line the loader accepts: well-shaped word part, well-shaped count part,
/// and a count that fits the count type.
pub open spec fn line_ok(s: Seq<char>) -> bool {
    word_part_ok(s) && count_part_ok(s) && digits_value(count_digits(s)) <= u64::MAX
}

/// The error a malformed line is rejected with: the word part is judged
/// first, then the shape of the count, then its size.
pub open spec fn line_error(s: Seq<char>) -> DictError {
    if !word_part_ok(s) {
        DictError::MalformedWord
    } else if !count_part_ok(s) {
        DictError::MalformedCount
    } else {
        DictError::CountTooLarge
    }
}

/// The value of a digit run never shrinks when more digits follow: the value
/// of a prefix is a lower bound for the value of the whole run.
proof fn lemma_digits_value_of_prefix(s: Seq<char>, n: int)
    requires
        0 <= n <= s.len(),
        forall|i: int| 0 <= i < s.len() ==> is_digit(#[trigger] s[i]),
    ensures
        digits_value(s) >= digits_value(s.take(n)),
        digits_value(s) >= 0,
    decreases s.len(),
{
    if s.len() == 0 {
        assert(s.take(n) =~= s);
    } else if n == s.len() {
        assert(s.take(n) =~= s);
        lemma_digits_value_of_prefix(s.drop_last(), s.len() - 1);
    } else {
        lemma_digits_value_of_prefix(s.drop_last(), n);
        assert(s.drop_last().take(n) =~= s.take(n));
        assert(digits_value(s.drop_last()) * 10 >= digits_value(s.drop_last())) by {
            lemma_digits_value_of_prefix(s.drop_last(), 0);
        }
    }
}

/// Parses one dictionary line. Returns the entry exactly on well-formed
/// lines, and ties each error to the lines on which it arises: a bad word
/// part, a bad count part, or a count that does not fit.
pub fn parse_dictionary_line(line: &str) -> (r: Result<DictEntry, DictError>)
    ensures
        r is Ok <==> line_ok(line@),
        r matches Ok(entry) ==> {
            &&& entry.word@ == line@.subrange(0, WORD_LEN as int)
            &&& entry.count == digits_value(count_digits(line@))
            &&& entry.wf()
        },
        r matches Err(e) ==> e == line_error(line@),
{
    let len = line.unicode_len();

    // The word part: five lowercase letters, then one space.
    if len <= WORD_LEN {
        return Err(DictError::MalformedWord);
    }
    let mut i: usize = 0;
    while i < WORD_LEN
        invariant
            line@.len() == len,
            len > WORD_LEN,
            i <= WORD_LEN,
            forall|k: int| 0 <= k < i ==> is_lower_letter(#[trigger] line@[k]),
        decreases WORD_LEN - i,
    {
        let c = line.get_char(i);
        if !(c >= 'a' && c <= 'z') {
            return Err(DictError::MalformedWord);
        }
        i += 1;
    }
    if line.get_char(WORD_LEN) != ' ' {
        return Err(DictError::MalformedWord);
    }

    // The count part: at least one character, all digits.
    if len == WORD_LEN + 1 {
        return Err(DictError::MalformedCount);
    }
    let mut j: usize = WORD_LEN + 1;
    while j < len
        invariant
            line@.len() == len,
            len > WORD_LEN + 1,
            word_part_ok(line@),
            WORD_LEN + 1 <= j <= len,
            forall|k: int| WORD_LEN + 1 <= k < j ==> is_digit(#[trigger] line@[k]),
        decreases len - j,
    {
        let c = line.get_char(j);
        if !(c >= '0' && c <= '9') {
            return Err(DictError::MalformedCount);
        }
        j += 1;
    }

    // The count's value, watching for overflow of the count type.
    let ghost digits = count_digits(line@);
    let mut count: u64 = 0;
    let mut k: usize = WORD_LEN + 1;
    while k < len
        invariant
            line@.len() == len,
            len > WORD_LEN + 1,
            WORD_LEN + 1 <= k <= len,
            word_part_ok(line@),
            count_part_ok(line@),
            digits == count_digits(line@),
            count == digits_value(digits.take(k - (WORD_LEN + 1))),
        decreases len - k,
    {
        let c = line.get_char(k);
        let d = (c as u32 - '0' as u32) as u64;
        proof {
            assert(is_digit(line@[k as int]));
            assert(digits.take(k + 1 - (WORD_LEN + 1)).drop_last() =~= digits.take(
                k - (WORD_LEN + 1),
            ));
            assert(digits.take(k + 1 - (WORD_LEN + 1)).last() == line@[k as int]);
        }
        if count > (u64::MAX - d) / 10 {
            proof {
                assert(count * 10 + d > u64::MAX) by (nonlinear_arith)
                    requires
                        count > (u64::MAX - d) / 10,
                        0 <= d <= 9,
                ;
                lemma_digits_value_of_prefix(digits, k + 1 - (WORD_LEN + 1));
            }
            return Err(DictError::CountTooLarge);
        }
        count = count * 10 + d;
        k += 1;
    }
    proof {
        assert(digits.take(len - (WORD_LEN + 1)) =~= digits);
        assert(line@.subrange(0, WORD_LEN as int).len() == WORD_LEN);
    }
    let word = line.substring_char(0, WORD_LEN);
    Ok(DictEntry { word: String::from_str(word), count })
}

/// Parses a whole dictionary, one entry per line, stopping at the first
/// malformed line. Succeeds exactly when every line is well-formed, and then
/// returns one entry per line, in order; otherwise it reports the first
/// malformed line's error.
pub fn parse_dictionary(lines: &Vec<String>) -> (r: Result<Vec<DictEntry>, DictError>)
    ensures
        r is Ok <==> forall|k: int| 0 <= k < lines@.len() ==> line_ok((#[trigger] lines@[k])@),
        r matches Err(e) ==> exists|k: int|
            {
                &&& 0 <= k < lines@.len()
                &&& !line_ok((#[trigger] lines@[k])@)
                &&& forall|j: int| 0 <= j < k ==> line_ok((#[trigger] lines@[j])@)
                &&& e == line_error(lines@[k]@)
            },
        r matches Ok(entries) ==> {
            &&& entries@.len() == lines@.len()
            &&& forall|k: int|
                0 <= k < lines@.len() ==> {
                    &&& (#[trigger] entries@[k]).word@ == lines@[k]@.subrange(0, WORD_LEN as int)
                    &&& entries@[k].count == digits_value(count_digits(lines@[k]@))
                    &&& entries@[k].wf()
                }
        },
{
    let mut entries: Vec<DictEntry> = Vec::new();
    let mut i: usize = 0;
    while i < lines.len()
        invariant
            i <= lines@.len(),
            entries@.len() == i,
            forall|k: int| 0 <= k < i ==> line_ok((#[trigger] lines@[k])@),
            forall|k: int|
                0 <= k < i ==> {
                    &&& (#[trigger] entries@[k]).word@ == lines@[k]@.subrange(0, WORD_LEN as int)
                    &&& entries@[k].count == digits_value(count_digits(lines@[k]@))
                    &&& entries@[k].wf()
                },
        decreases lines@.len() - i,
    {
        match parse_dictionary_line(lines[i].as_str()) {
            Ok(entry) => entries.push(entry),
            Err(e) => {
                proof {
                    assert(!line_ok(lines@[i as int]@) && e == line_error(lines@[i as int]@));
                }
                return Err(e);
            },
        }
        i += 1;
    }
    Ok(entries)
}

} // verus!

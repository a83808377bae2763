//! Numbers as text: reading whitespace-separated integers and writing numbers
//! joined by a separator.

use vstd::prelude::*;
use vstd::string::StringExecFns;

verus! {

/// The words of a text: what `str::split_whitespace` yields for it, in order.
pub uninterp spec fn words_of(text: Seq<char>) -> Seq<Seq<char>>;

/// The number that a word stands for: what `str::parse::<i32>` makes of it,
/// `None` where it fails.
pub uninterp spec fn parsed_i32(word: Seq<char>) -> Option<i32>;

/// The text of a number: what `i32::to_string` gives for it.
pub uninterp spec fn decimal_of(n: i32) -> Seq<char>;

/// `str::split_whitespace`: the words of `text`, each copied into a `String`
/// of its own. The contract names them `words_of(text@)` and claims no more.
#[verifier::external_body]
fn split_whitespace(text: &str) -> (words: Vec<String>)
    ensures
        words@.len() == words_of(text@).len(),
        forall|k: int| 0 <= k < words@.len() ==> (#[trigger] words@[k])@ == words_of(text@)[k],
{
    text.split_whitespace().map(String::from).collect()
}

/// `str::parse::<i32>`: the number that `word` stands for, `None` where the
/// standard library finds none in it. The contract names the outcome
/// `parsed_i32(word@)` and claims no more.
#[verifier::external_body]
fn parse_i32(word: &str) -> (r: Option<i32>)
    ensures
        r == parsed_i32(word@),
{
    word.parse::<i32>().ok()
}

/// `i32::to_string`: the text of `n`. The contract names it `decimal_of(n)`
/// and claims no more.
#[verifier::external_body]
fn to_decimal(n: i32) -> (text: String)
    ensures
        text@ == decimal_of(n),
{
    n.to_string()
}

/// A word of the input that is no number.
#[derive(Debug, PartialEq, Eq)]
pub struct ParseFailure {
    /// The place of the word among the words of the input, from 0.
    pub index: usize,
    /// The word.
    pub word: String,
}

/// The numbers of `parsed` where every entry holds one, else the place of the
/// first entry that holds none.
pub fn collect_numbers(parsed: &[Option<i32>]) -> (r: Result<Vec<i32>, usize>)
    ensures
        match r {
            Ok(numbers) => {
                &&& numbers@.len() == parsed@.len()
                &&& forall|k: int| 0 <= k < parsed@.len() ==> #[trigger] parsed@[k] == Some(numbers@[k])
            },
            Err(index) => {
                &&& index < parsed@.len()
                &&& parsed@[index as int].is_none()
                &&& forall|k: int| 0 <= k < index ==> (#[trigger] parsed@[k]).is_some()
            },
        },
{
    let mut numbers: Vec<i32> = Vec::new();
    let mut k: usize = 0;
    while k < parsed.len()
        invariant
            k <= parsed@.len(),
            numbers@.len() == k,
            forall|j: int| 0 <= j < k ==> #[trigger] parsed@[j] == Some(numbers@[j]),
        decreases parsed@.len() - k,
    {
        match parsed[k] {
            Some(n) => {
                numbers.push(n);
            },
            None => {
                return Err(k);
            },
        }
        k += 1;
    }
    Ok(numbers)
}

/// The numbers that the words of `text` stand for, in order.
///
/// Succeeds where every word is a number. Else the failure holds the first
/// word that is none.
pub fn parse_numbers(text: &str) -> (r: Result<Vec<i32>, ParseFailure>)
    ensures
        match r {
            Ok(numbers) => {
                &&& numbers@.len() == words_of(text@).len()
                &&& forall|k: int| 0 <= k < numbers@.len() ==> parsed_i32(#[trigger] words_of(text@)[k]) == Some(numbers@[k])
            },
            Err(failure) => {
                &&& failure.index < words_of(text@).len()
                &&& failure.word@ == words_of(text@)[failure.index as int]
                &&& parsed_i32(failure.word@).is_none()
                &&& forall|k: int| 0 <= k < failure.index ==> parsed_i32(#[trigger] words_of(text@)[k]).is_some()
            },
        },
{
    let words = split_whitespace(text);
    let mut parsed: Vec<Option<i32>> = Vec::new();
    let mut k: usize = 0;
    while k < words.len()
        invariant
            k <= words@.len(),
            words@.len() == words_of(text@).len(),
            forall|j: int| 0 <= j < words@.len() ==> (#[trigger] words@[j])@ == words_of(text@)[j],
            parsed@.len() == k,
            forall|j: int| 0 <= j < k ==> #[trigger] parsed@[j] == parsed_i32(words_of(text@)[j]),
        decreases words@.len() - k,
    {
        let outcome = parse_i32(words[k].as_str());
        parsed.push(outcome);
        k += 1;
    }
    match collect_numbers(parsed.as_slice()) {
        Ok(numbers) => {
            assert forall|j: int| 0 <= j < numbers@.len() implies parsed_i32(#[trigger] words_of(text@)[j]) == Some(numbers@[j]) by {
                assert(parsed@[j] == Some(numbers@[j]));
            }
            Ok(numbers)
        },
        Err(index) => {
            assert forall|j: int| 0 <= j < index implies parsed_i32(#[trigger] words_of(text@)[j]).is_some() by {
                assert(parsed@[j].is_some());
            }
            Err(ParseFailure { index, word: words[index].clone() })
        },
    }
}

/// The parts one after the other, with the separator between each two.
pub open spec fn joined(parts: Seq<Seq<char>>, separator: Seq<char>) -> Seq<char>
    decreases parts.len(),
{
    if parts.len() == 0 {
        Seq::empty()
    } else if parts.len() == 1 {
        parts[0]
    } else {
        joined(parts.drop_last(), separator) + separator + parts.last()
    }
}

/// The texts that the strings hold, in order.
pub open spec fn texts_of(parts: Seq<String>) -> Seq<Seq<char>> {
    parts.map_values(|part: String| part@)
}

/// The texts of the numbers, in order.
pub open spec fn decimals_of(numbers: Seq<i32>) -> Seq<Seq<char>> {
    numbers.map_values(|n: i32| decimal_of(n))
}

/// The parts as one text, with `separator` between each two.
pub fn join(parts: &[String], separator: &str) -> (text: String)
    ensures
        text@ == joined(texts_of(parts@), separator@),
{
    let mut text = String::new();
    let mut k: usize = 0;
    while k < parts.len()
        invariant
            k <= parts@.len(),
            text@ == joined(texts_of(parts@.take(k as int)), separator@),
        decreases parts@.len() - k,
    {
        let ghost done = texts_of(parts@.take(k as int));
        let ghost next = texts_of(parts@.take(k + 1));
        proof {
            assert(parts@.take(k + 1).drop_last() == parts@.take(k as int));
            assert(next.drop_last() == done);
            assert(next.last() == parts@[k as int]@);
        }
        if k > 0 {
            text.append(separator);
        }
        text.append(parts[k].as_str());
        proof {
            if k == 0 {
                assert(done.len() == 0);
                assert(text@ == next[0]);
            }
        }
        k += 1;
    }
    proof {
        assert(parts@.take(k as int) == parts@);
    }
    text
}

/// The numbers as one text: each as `i32::to_string` writes it, with
/// `separator` between each two.
pub fn render(numbers: &[i32], separator: &str) -> (text: String)
    ensures
        text@ == joined(decimals_of(numbers@), separator@),
{
    let mut parts: Vec<String> = Vec::new();
    let mut k: usize = 0;
    while k < numbers.len()
        invariant
            k <= numbers@.len(),
            parts@.len() == k,
            forall|j: int| 0 <= j < k ==> (#[trigger] parts@[j])@ == decimal_of(numbers@[j]),
        decreases numbers@.len() - k,
    {
        let part = to_decimal(numbers[k]);
        parts.push(part);
        k += 1;
    }
    proof {
        assert(texts_of(parts@) == decimals_of(numbers@));
    }
    join(parts.as_slice(), separator)
}

} // verus!

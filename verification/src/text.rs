//! Texts as sequences of characters.
use vstd::prelude::*;

verus! {

/// The texts of a list of strings.
pub open spec fn texts(list: Seq<String>) -> Seq<Seq<char>> {
    list.map_values(|s: String| s@)
}

/// `word` stands in `line` from position `at` on.
pub open spec fn stands_at(word: Seq<char>, line: Seq<char>, at: int) -> bool {
    &&& 0 <= at
    &&& at + word.len() <= line.len()
    &&& line.subrange(at, at + word.len()) == word
}

/// `word` stands somewhere in `line`.
pub open spec fn occurs(word: Seq<char>, line: Seq<char>) -> bool {
    exists|at: int| stands_at(word, line, at)
}

/// `found` is the ASCII character `wanted` or another case of it. The simple
/// case folding of Unicode adds the Kelvin sign to `k` and the long s to `s`.
pub open spec fn same_but_for_case(wanted: char, found: char) -> bool {
    ||| found == wanted
    ||| 'a' <= wanted <= 'z' && found as int == wanted as int - 32
    ||| 'A' <= wanted <= 'Z' && found as int == wanted as int + 32
    ||| (wanted == 'k' || wanted == 'K') && found == '\u{212A}'
    ||| (wanted == 's' || wanted == 'S') && found == '\u{17F}'
}

/// `word` stands in `line` from position `at` on, if case does not count.
pub open spec fn stands_at_in_any_case(word: Seq<char>, line: Seq<char>, at: int) -> bool {
    &&& 0 <= at
    &&& at + word.len() <= line.len()
    &&& forall|k: int|
        0 <= k < word.len() ==> same_but_for_case(#[trigger] word[k], line[at + k])
}

/// `word` stands somewhere in `line`, if case does not count.
pub open spec fn occurs_in_any_case(word: Seq<char>, line: Seq<char>) -> bool {
    exists|at: int| stands_at_in_any_case(word, line, at)
}

/// `c` with an ASCII capital letter made small.
pub open spec fn ascii_lower(c: char) -> int {
    if 'A' <= c <= 'Z' {
        c as int + 32
    } else {
        c as int
    }
}

/// The two texts differ at most in the case of ASCII letters.
pub open spec fn equal_but_for_ascii_case(one: Seq<char>, other: Seq<char>) -> bool {
    &&& one.len() == other.len()
    &&& forall|i: int| 0 <= i < one.len() ==> ascii_lower(#[trigger] one[i]) == ascii_lower(other[i])
}

/// A copy of a list of strings.
pub fn copy_list(list: &[String]) -> (copy: Vec<String>)
    ensures
        copy@ == list@,
{
    let mut copy: Vec<String> = Vec::new();
    let mut i: usize = 0;
    while i < list.len()
        invariant
            i <= list@.len(),
            copy@ == list@.take(i as int),
        decreases list@.len() - i,
    {
        copy.push(list[i].clone());
        i += 1;
    }
    copy
}

/// One text after the other.
pub fn joined(first: &str, second: &str) -> (both: String)
    ensures
        both@ == first@ + second@,
{
    let mut both = first.to_owned();
    both.append(second);
    both
}

/// A decimal digit.
pub open spec fn digit(n: int) -> char {
    ('0' as int + n) as char
}

/// A number in decimal.
pub open spec fn decimal(n: nat) -> Seq<char>
    decreases n,
{
    if n < 10 {
        seq![digit(n as int)]
    } else {
        decimal(n / 10).push(digit((n % 10) as int))
    }
}

/// Writes a decimal digit.
fn digit_text(n: usize) -> (written: &'static str)
    requires
        n < 10,
    ensures
        written@ == seq![digit(n as int)],
{
    proof {
        reveal_strlit("0");
        reveal_strlit("1");
        reveal_strlit("2");
        reveal_strlit("3");
        reveal_strlit("4");
        reveal_strlit("5");
        reveal_strlit("6");
        reveal_strlit("7");
        reveal_strlit("8");
        reveal_strlit("9");
    }
    match n {
        0 => "0",
        1 => "1",
        2 => "2",
        3 => "3",
        4 => "4",
        5 => "5",
        6 => "6",
        7 => "7",
        8 => "8",
        _ => "9",
    }
}

/// Writes a number in decimal.
pub fn decimal_text(n: usize) -> (written: String)
    ensures
        written@ == decimal(n as nat),
    decreases n,
{
    if n < 10 {
        digit_text(n).to_owned()
    } else {
        let front = decimal_text(n / 10);
        let both = joined(front.as_str(), digit_text(n % 10));
        assert(both@ =~= decimal(n as nat));
        both
    }
}

/// The texts of a list are those of its strings, one by one.
pub proof fn lemma_texts_are_those_of_the_strings(list: Seq<String>)
    ensures
        texts(list).len() == list.len(),
        forall|i: int| 0 <= i < list.len() ==> #[trigger] texts(list)[i] == list[i]@,
{
}

/// The number that is written in decimal.
pub open spec fn number_in(written: Seq<char>) -> int
    decreases written.len(),
{
    if written.len() == 0 {
        0
    } else {
        10 * number_in(written.drop_last()) + (written.last() as int - '0' as int)
    }
}

/// A number that was written in decimal reads as that number, is made of digits, and
/// has no zero in front unless it is zero.
pub proof fn lemma_decimal_reads_back(n: nat)
    ensures
        number_in(decimal(n)) == n,
        forall|i: int| 0 <= i < decimal(n).len() ==> '0' <= #[trigger] decimal(n)[i] <= '9',
        decimal(n).len() > 0,
        n > 0 ==> decimal(n)[0] != '0',
        n == 0 ==> decimal(n).len() == 1,
    decreases n,
{
    let d = (n % 10) as int;
    assert(digit(d) as int == '0' as int + d);
    if n < 10 {
        assert(decimal(n).drop_last() =~= Seq::empty());
        assert(number_in(decimal(n).drop_last()) == 0);
        assert(n % 10 == n);
    } else {
        lemma_decimal_reads_back(n / 10);
        assert(decimal(n).drop_last() =~= decimal(n / 10));
        assert(decimal(n)[0] == decimal(n / 10)[0]);
        assert(n == 10 * (n / 10) + n % 10);
    }
}

} // verus!

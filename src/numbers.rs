//! Letters used to write numbers out in British English words.
use vstd::prelude::*;

verus! {

/// Letters in "one" to "nineteen" for 1 to 19; nothing for anything else.
pub open spec fn small_letters(x: nat) -> nat {
    if 1 <= x <= 19 {
        seq![3nat, 3, 5, 4, 4, 3, 5, 5, 4, 3, 6, 6, 8, 8, 7, 7, 9, 8, 8][x - 1]
    } else {
        0
    }
}

/// Letters in "twenty" to "ninety" for the tens digits 2 to 9.
pub open spec fn tens_letters(t: nat) -> nat {
    seq![6nat, 6, 5, 5, 5, 7, 6, 6][t - 2]
}

/// Letters needed to write `n` in words, without spaces or hyphens ("zero",
/// "forty two", "three hundred and forty two", "one thousand"): "and" joins
/// the hundreds to what follows, and every number above 999 is written as
/// "one thousand".
pub open spec fn letter_count(n: nat) -> nat
    decreases n,
{
    if n == 0 {
        4
    } else if n < 20 {
        small_letters(n)
    } else if n < 100 {
        tens_letters(n / 10) + small_letters(n % 10)
    } else if n < 1000 {
        small_letters(n / 100) + 7 + if n % 100 > 0 {
            3 + letter_count(n % 100)
        } else {
            0
        }
    } else {
        11
    }
}

/// Number of characters in a word.
fn slen(s: &str) -> (r: u64)
    ensures
        r == s@.len(),
{
    s.unicode_len() as u64
}

fn one_to_nineteen(x: u32) -> (r: u64)
    ensures
        r == small_letters(x as nat),
{
    proof {
        reveal_strlit("one");
        reveal_strlit("two");
        reveal_strlit("three");
        reveal_strlit("four");
        reveal_strlit("five");
        reveal_strlit("six");
        reveal_strlit("seven");
        reveal_strlit("eight");
        reveal_strlit("nine");
        reveal_strlit("ten");
        reveal_strlit("eleven");
        reveal_strlit("twelve");
        reveal_strlit("thirteen");
        reveal_strlit("fourteen");
        reveal_strlit("fifteen");
        reveal_strlit("sixteen");
        reveal_strlit("seventeen");
        reveal_strlit("eighteen");
        reveal_strlit("nineteen");
        reveal_strlit("");
    }
    slen(
        match x {
            1 => "one",
            2 => "two",
            3 => "three",
            4 => "four",
            5 => "five",
            6 => "six",
            7 => "seven",
            8 => "eight",
            9 => "nine",
            10 => "ten",
            11 => "eleven",
            12 => "twelve",
            13 => "thirteen",
            14 => "fourteen",
            15 => "fifteen",
            16 => "sixteen",
            17 => "seventeen",
            18 => "eighteen",
            19 => "nineteen",
            _ => "",
        },
    )
}

/// Letter count of `n` written in words (see `letter_count`).
pub fn number_letter_count(n: u32) -> (r: u64)
    ensures
        r == letter_count(n as nat),
    decreases n,
{
    proof {
        reveal_strlit("zero");
        reveal_strlit("twenty");
        reveal_strlit("thirty");
        reveal_strlit("forty");
        reveal_strlit("fifty");
        reveal_strlit("sixty");
        reveal_strlit("seventy");
        reveal_strlit("eighty");
        reveal_strlit("ninety");
        reveal_strlit("hundred");
        reveal_strlit("and");
        reveal_strlit("onethousand");
    }
    if n < 20 {
        match n {
            0 => slen("zero"),
            _ => one_to_nineteen(n),
        }
    } else if n < 30 {
        slen("twenty") + one_to_nineteen(n - 20)
    } else if n < 40 {
        slen("thirty") + one_to_nineteen(n - 30)
    } else if n < 50 {
        slen("forty") + one_to_nineteen(n - 40)
    } else if n < 60 {
        slen("fifty") + one_to_nineteen(n - 50)
    } else if n < 70 {
        slen("sixty") + one_to_nineteen(n - 60)
    } else if n < 80 {
        slen("seventy") + one_to_nineteen(n - 70)
    } else if n < 90 {
        slen("eighty") + one_to_nineteen(n - 80)
    } else if n < 100 {
        slen("ninety") + one_to_nineteen(n - 90)
    } else if n < 1000 {
        let hundred_count = n / 100;
        let leftover = n % 100;
        one_to_nineteen(hundred_count) + slen("hundred") + (if leftover > 0 {
            slen("and") + number_letter_count(leftover)
        } else {
            0
        })
    } else {
        slen("onethousand")
    }
}

} // verus!

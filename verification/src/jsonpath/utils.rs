use vstd::prelude::*;

use crate::parser::tokenizer::push_char;
use crate::parser::utils::{
    all_digits, digit_value, digits_value, is_digit, parse_isize, parse_isize_str, split_sign,
};

verus! {

/// What `{:?}` prints for a vector of characters.
pub uninterp spec fn debug_chars(v: Seq<char>) -> Seq<char>;

/// `format!("{:?}", v)` on a `Vec<char>`.
#[verifier::external_body]
fn debug_chars_string(v: &Vec<char>) -> (s: String)
    ensures
        s@ == debug_chars(v@),
{
    format!("{:?}", v)
}

/// The characters of `vec`, as a `String`.
pub fn vec_to_string(vec: &Vec<char>) -> (s: String)
    ensures
        s@ == vec@,
{
    let mut s = String::new();
    let mut i: usize = 0;
    while i < vec.len()
        invariant
            i <= vec@.len(),
            s@ == vec@.take(i as int),
        decreases vec@.len() - i,
    {
        push_char(&mut s, vec[i]);
        i = i + 1;
        assert(s@ =~= vec@.take(i as int));
    }
    assert(vec@.take(vec@.len() as int) =~= vec@);
    s
}

/// The message of a failed `vec_to_number`.
pub open spec fn number_error(v: Seq<char>) -> Seq<char> {
    "vec_to_number: "@ + debug_chars(v)
}

/// Reads `vec` as an `isize`, as `str::parse::<isize>` does.
pub fn vec_to_number(vec: &Vec<char>) -> (res: Result<isize, String>)
    ensures
        match res {
            Ok(n) => parse_isize(vec@) == Some(n as int),
            Err(m) => parse_isize(vec@) is None && m@ == number_error(vec@),
        },
{
    let s = vec_to_string(vec);
    match parse_isize_str(s.as_str()) {
        Some(n) => Ok(n),
        None => {
            let mut msg = String::from_str("vec_to_number: ");
            let d = debug_chars_string(vec);
            msg.append(d.as_str());
            Err(msg)
        },
    }
}

/// Reads `vec` as an `isize`; on failure, the message that `msg_handler`
/// makes.
pub fn vec_to_int<F: Fn() -> String>(vec: &Vec<char>, msg_handler: F) -> (res: Result<isize, String>)
    requires
        call_requires(msg_handler, ()),
    ensures
        match res {
            Ok(n) => parse_isize(vec@) == Some(n as int),
            Err(m) => parse_isize(vec@) is None && call_ensures(msg_handler, (), m),
        },
{
    let s = vec_to_string(vec);
    match parse_isize_str(s.as_str()) {
        Some(n) => Ok(n),
        None => Err(msg_handler()),
    }
}

/// The character of a decimal digit.
pub open spec fn digit_char(d: nat) -> char {
    if d == 0 {
        '0'
    } else if d == 1 {
        '1'
    } else if d == 2 {
        '2'
    } else if d == 3 {
        '3'
    } else if d == 4 {
        '4'
    } else if d == 5 {
        '5'
    } else if d == 6 {
        '6'
    } else if d == 7 {
        '7'
    } else if d == 8 {
        '8'
    } else {
        '9'
    }
}

/// The decimal digits of `n`, as `{}` prints an unsigned integer.
pub open spec fn decimal(n: nat) -> Seq<char>
    decreases n,
{
    if n < 10 {
        seq![digit_char(n)]
    } else {
        decimal(n / 10).push(digit_char(n % 10))
    }
}

fn digit_to_char(d: usize) -> (c: char)
    requires
        d < 10,
    ensures
        c == digit_char(d as nat),
{
    match d {
        0 => '0',
        1 => '1',
        2 => '2',
        3 => '3',
        4 => '4',
        5 => '5',
        6 => '6',
        7 => '7',
        8 => '8',
        _ => '9',
    }
}

/// `n.to_string()`.
pub fn usize_to_string(n: usize) -> (s: String)
    ensures
        s@ == decimal(n as nat),
    decreases n,
{
    if n < 10 {
        let mut s = String::new();
        push_char(&mut s, digit_to_char(n));
        assert(s@ =~= seq![digit_char(n as nat)]);
        s
    } else {
        let mut s = usize_to_string(n / 10);
        push_char(&mut s, digit_to_char(n % 10));
        s
    }
}

proof fn lemma_digit_char(d: nat)
    requires
        d < 10,
    ensures
        is_digit(digit_char(d)),
        digit_value(digit_char(d)) == d,
{
    assert('0' as int == 48);
    assert('9' as int == 57);
    if d == 0 {
        assert(digit_char(d) as int == 48);
    } else if d == 1 {
        assert(digit_char(d) as int == 49);
    } else if d == 2 {
        assert(digit_char(d) as int == 50);
    } else if d == 3 {
        assert(digit_char(d) as int == 51);
    } else if d == 4 {
        assert(digit_char(d) as int == 52);
    } else if d == 5 {
        assert(digit_char(d) as int == 53);
    } else if d == 6 {
        assert(digit_char(d) as int == 54);
    } else if d == 7 {
        assert(digit_char(d) as int == 55);
    } else if d == 8 {
        assert(digit_char(d) as int == 56);
    } else {
        assert(digit_char(d) as int == 57);
    }
}

proof fn lemma_decimal_digits(n: nat)
    ensures
        decimal(n).len() > 0,
        all_digits(decimal(n)),
        digits_value(decimal(n)) == n,
        decimal(n)[0] != '-' && decimal(n)[0] != '+',
    decreases n,
{
    lemma_digit_char(n % 10);
    if n < 10 {
        assert(n % 10 == n);
        let e = seq![digit_char(n)];
        assert(e.drop_last() =~= Seq::<char>::empty());
        assert(digits_value(e) == digits_value(e.drop_last()) * 10 + digit_value(e.last()));
    } else {
        lemma_decimal_digits(n / 10);
        let d = decimal(n / 10);
        let e = d.push(digit_char(n % 10));
        assert(e.drop_last() =~= d);
        assert(e.last() == digit_char(n % 10));
        assert(digits_value(e) == digits_value(d) * 10 + digit_value(e.last()));
        assert(n == (n / 10) * 10 + n % 10);
        assert(all_digits(e)) by {
            assert forall|i: int| 0 <= i < e.len() implies is_digit(#[trigger] e[i]) by {
                if i < d.len() {
                    assert(e[i] == d[i]);
                }
            }
        }
        assert(e[0] == d[0]);
    }
}

/// What `usize_to_string` writes, `vec_to_number` and `string_to_num`
/// read back: printing a number in decimal and parsing it gives the number.
pub proof fn law_decimal_parses_back(n: nat)
    requires
        n <= isize::MAX,
    ensures
        parse_isize(decimal(n)) == Some(n as int),
{
    lemma_decimal_digits(n);
    let s = decimal(n);
    assert(split_sign(s) == (false, s));
}

} // verus!

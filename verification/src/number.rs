//! Natural numbers in decimal: reading them from text and writing them.

use crate::text::{chars_of, fill, find_where, lemma_find_where, lemma_find_where_is};
use vstd::prelude::*;
use vstd::string::*;

verus! {

/// Why a text does not name a natural number within a bound.
#[derive(Clone, Copy, Debug, PartialEq, Eq, Structural)]
pub enum NumberError {
    /// The text is empty.
    Empty,
    /// The text holds something else than digits after an optional `+`.
    InvalidDigit,
    /// The number is beyond the bound.
    TooLarge,
}

/// The digit that stands for `d`.
pub open spec fn digit(d: int) -> char {
    ('0' as int + d) as char
}

/// The decimal digits.
pub open spec fn is_digit(c: char) -> bool {
    '0' as int <= c as int <= '9' as int
}

/// The predicate that holds of everything but the decimal digits.
pub open spec fn not_digit() -> spec_fn(char) -> bool {
    |c: char| !is_digit(c)
}

/// `n` in decimal, without leading zeros.
pub open spec fn decimal(n: nat) -> Seq<char>
    decreases n,
{
    if n < 10 {
        seq![digit(n as int)]
    } else {
        decimal(n / 10).push(digit((n % 10) as int))
    }
}

/// The number that the digits of `s` stand for.
pub open spec fn digits_value(s: Seq<char>) -> nat
    decreases s.len(),
{
    if s.len() == 0 {
        0
    } else {
        10 * digits_value(s.drop_last()) + (s.last() as int - '0' as int) as nat
    }
}

/// `s` without one leading `+`.
pub open spec fn unsigned_part(s: Seq<char>) -> Seq<char> {
    if s.len() > 0 && s[0] == '+' {
        s.skip(1)
    } else {
        s
    }
}

/// The number up to `max` that `s` names: an optional `+`, then digits and nothing else.
/// A number too large is found before a wrong character behind it.
pub open spec fn number_up_to(s: Seq<char>, max: nat) -> Result<nat, NumberError> {
    let body = unsigned_part(s);
    let n = find_where(body, not_digit());
    let v = digits_value(body.take(n));
    if s.len() == 0 {
        Err(NumberError::Empty)
    } else if v > max {
        Err(NumberError::TooLarge)
    } else if body.len() == 0 || n < body.len() {
        Err(NumberError::InvalidDigit)
    } else {
        Ok(v)
    }
}

impl NumberError {
    /// The error in words.
    pub open spec fn words(self) -> Seq<char> {
        match self {
            NumberError::Empty => "cannot parse integer from empty string"@,
            NumberError::InvalidDigit => "invalid digit found in string"@,
            NumberError::TooLarge => "number too large to fit in target type"@,
        }
    }

    /// The error in words.
    pub fn message(&self) -> (r: String)
        ensures
            r@ == self.words(),
    {
        match self {
            NumberError::Empty => "cannot parse integer from empty string".to_owned(),
            NumberError::InvalidDigit => "invalid digit found in string".to_owned(),
            NumberError::TooLarge => "number too large to fit in target type".to_owned(),
        }
    }
}

proof fn lemma_digits_value_grows(s: Seq<char>, i: int, j: int)
    requires
        0 <= i <= j <= s.len(),
    ensures
        digits_value(s.take(i)) <= digits_value(s.take(j)),
    decreases j - i,
{
    if i < j {
        lemma_digits_value_grows(s, i, j - 1);
        assert(s.take(j).drop_last() =~= s.take(j - 1));
    }
}

/// The number up to `max` that `s` names.
pub fn parse_number(s: &str, max: u64) -> (r: Result<u64, NumberError>)
    ensures
        match r {
            Ok(v) => number_up_to(s@, max as nat) == Ok::<nat, NumberError>(v as nat),
            Err(e) => number_up_to(s@, max as nat) == Err::<nat, NumberError>(e),
        },
{
    let cs = chars_of(s);
    if cs.len() == 0 {
        return Err(NumberError::Empty);
    }
    let from: usize = if cs[0] == '+' { 1 } else { 0 };
    let ghost body = unsigned_part(s@);
    assert(body =~= s@.skip(from as int));
    let mut v: u64 = 0;
    let mut i: usize = from;
    while i < cs.len()
        invariant
            from <= i <= cs@.len(),
            from <= 1,
            cs@ == s@,
            s@.len() > 0,
            body == unsigned_part(s@),
            body == s@.skip(from as int),
            v <= max,
            v == digits_value(body.take(i - from)),
            forall|j: int| 0 <= j < i - from ==> is_digit(#[trigger] body[j]),
        decreases cs@.len() - i,
    {
        let c = cs[i];
        assert(c == body[i - from]);
        if c < '0' || c > '9' {
            proof {
                lemma_find_where(body, not_digit(), i - from);
            }
            return Err(NumberError::InvalidDigit);
        }
        let d: u32 = c as u32 - '0' as u32;
        let w: u128 = v as u128 * 10 + d as u128;
        proof {
            assert(body.take(i - from + 1).drop_last() =~= body.take(i - from));
            assert(w == digits_value(body.take(i - from + 1)));
        }
        if w > max as u128 {
            proof {
                lemma_find_where_is(body, not_digit());
                let n = find_where(body, not_digit());
                if n <= i - from {
                    assert(is_digit(body[n]));
                }
                lemma_digits_value_grows(body, i - from + 1, n);
            }
            return Err(NumberError::TooLarge);
        }
        v = w as u64;
        i += 1;
    }
    proof {
        lemma_find_where(body, not_digit(), body.len() as int);
        assert(body.take(body.len() as int) =~= body);
    }
    if from == cs.len() {
        return Err(NumberError::InvalidDigit);
    }
    Ok(v)
}

/// `n` in decimal.
pub fn write_number(n: u64) -> (r: String)
    ensures
        r@ == decimal(n as nat),
    decreases n,
{
    let digits = "0123456789";
    proof {
        reveal_strlit("0123456789");
    }
    let last: usize = (n % 10) as usize;
    let one = digits.substring_char(last, last + 1);
    assert(one@ =~= seq![digit(last as int)]);
    if n < 10 {
        one.to_owned()
    } else {
        let mut r = write_number(n / 10);
        r.append(one);
        assert(r@ =~= decimal((n / 10) as nat).push(digit(last as int)));
        r
    }
}

/// A number in decimal is made of digits that stand for it.
pub(crate) proof fn lemma_decimal(n: nat)
    ensures
        decimal(n).len() > 0,
        forall|i: int| 0 <= i < decimal(n).len() ==> is_digit(#[trigger] decimal(n)[i]),
        digits_value(decimal(n)) == n,
    decreases n,
{
    if n < 10 {
        let s = decimal(n);
        assert(s.drop_last() =~= Seq::<char>::empty());
        assert(digits_value(s.drop_last()) == 0);
    } else {
        lemma_decimal(n / 10);
        assert(decimal(n).drop_last() =~= decimal(n / 10));
    }
}

/// A number that is written in decimal is read back as it was.
pub proof fn written_numbers_read_back(n: nat, max: nat)
    requires
        n <= max,
    ensures
        number_up_to(decimal(n), max) == Ok::<nat, NumberError>(n),
{
    let s = decimal(n);
    lemma_decimal(n);
    assert(is_digit(s[0]));
    assert(unsigned_part(s) == s);
    lemma_find_where(s, not_digit(), s.len() as int);
    assert(s.take(s.len() as int) =~= s);
}

proof fn lemma_zeros_count_nothing(z: nat, n: nat)
    ensures
        digits_value(fill('0', z as int) + decimal(n)) == n,
        forall|i: int|
            0 <= i < (fill('0', z as int) + decimal(n)).len() ==> is_digit(
                #[trigger] (fill('0', z as int) + decimal(n))[i],
            ),
    decreases n, z,
{
    let s = fill('0', z as int) + decimal(n);
    lemma_decimal(n);
    let front = s.drop_last();
    assert forall|i: int| 0 <= i < s.len() implies is_digit(#[trigger] s[i]) by {
        if i >= z {
            assert(s[i] == decimal(n)[i - z]);
        }
    }
    if n >= 10 {
        lemma_zeros_count_nothing(z, n / 10);
        assert(front =~= fill('0', z as int) + decimal(n / 10));
        assert(s.last() == digit((n % 10) as int));
    } else {
        assert(s.last() == digit(n as int));
        if z == 0 {
            assert(front =~= Seq::<char>::empty());
            assert(digits_value(front) == 0);
        } else {
            lemma_zeros_count_nothing((z - 1) as nat, 0);
            assert(front =~= fill('0', z - 1) + decimal(0));
        }
    }
}

proof fn lemma_digits_are_zeros_and_a_number(s: Seq<char>) -> (z: nat)
    requires
        s.len() > 0,
        forall|i: int| 0 <= i < s.len() ==> is_digit(#[trigger] s[i]),
    ensures
        s == fill('0', z as int) + decimal(digits_value(s)),
    decreases s.len(),
{
    let front = s.drop_last();
    assert(is_digit(s[s.len() - 1]));
    let d = s.last() as int - '0' as int;
    assert(s.last() == digit(d));
    if front.len() == 0 {
        assert(digits_value(front) == 0);
        assert(s =~= fill('0', 0) + decimal(digits_value(s)));
        0
    } else {
        assert forall|i: int| 0 <= i < front.len() implies is_digit(#[trigger] front[i]) by {
            assert(front[i] == s[i]);
        }
        let z = lemma_digits_are_zeros_and_a_number(front);
        let v = digits_value(front);
        let w = digits_value(s);
        let zeros = fill('0', z as int);
        assert(w == 10 * v + d);
        assert(s =~= front.push(digit(d)));
        if v == 0 {
            assert(decimal(0) =~= seq!['0']);
            assert(front =~= fill('0', z as int + 1));
            assert(decimal(w) == seq![digit(d)]);
            assert(s =~= front + decimal(w));
            z + 1
        } else {
            assert(w / 10 == v && w % 10 == d);
            assert(decimal(w) == decimal(v).push(digit(d)));
            assert(s =~= zeros + decimal(w));
            z
        }
    }
}

/// A number may have zeros and a plus sign before it, up to the bound and no further.
pub proof fn numbers_read_back_with_sign_and_zeros(z: nat, n: nat, max: nat)
    ensures
        ({
            let s = fill('0', z as int) + decimal(n);
            let r = if n <= max {
                Ok::<nat, NumberError>(n)
            } else {
                Err(NumberError::TooLarge)
            };
            number_up_to(s, max) == r && number_up_to(seq!['+'] + s, max) == r
        }),
        number_up_to(Seq::empty(), max) == Err::<nat, NumberError>(NumberError::Empty),
{
    let s = fill('0', z as int) + decimal(n);
    lemma_decimal(n);
    lemma_zeros_count_nothing(z, n);
    lemma_find_where(s, not_digit(), s.len() as int);
    assert(s.take(s.len() as int) =~= s);
    assert(is_digit(s[0]));
    assert((seq!['+'] + s).skip(1) =~= s);
}

/// Nothing else is read as a number: what is, has at most a plus sign and zeros before it.
pub proof fn only_numbers_are_read(s: Seq<char>, max: nat)
    ensures
        number_up_to(s, max) matches Ok(v) ==> v <= max && exists|z: nat|
            #![trigger fill('0', z as int)]
            s == fill('0', z as int) + decimal(v) || s == seq!['+'] + (fill('0', z as int)
                + decimal(v)),
{
    if let Ok(v) = number_up_to(s, max) {
        let body = unsigned_part(s);
        lemma_find_where_is(body, not_digit());
        assert(body.take(body.len() as int) =~= body);
        assert forall|i: int| 0 <= i < body.len() implies is_digit(#[trigger] body[i]) by {
            assert(!not_digit()(body[i]));
        }
        let z = lemma_digits_are_zeros_and_a_number(body);
        let text = fill('0', z as int) + decimal(v);
        assert(body == text);
        if s[0] == '+' {
            assert(s =~= seq!['+'] + body);
            assert(s == seq!['+'] + text);
        } else {
            assert(s == text);
        }
    }
}

} // verus!

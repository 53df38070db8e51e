//! Whole numbers in decimal notation.
use crate::text::{lemma_prefix_len, prefix_len};
use vstd::prelude::*;
use vstd::slice::slice_subrange;

verus! {

/// Why a text is no unsigned number.
#[derive(Clone, Copy, Debug, PartialEq, Eq, Structural)]
pub enum IntError {
    /// There is nothing to read.
    Empty,
    /// A character is no digit.
    InvalidDigit,
    /// The number is too large.
    TooLarge,
}

/// Whether `c` is a decimal digit.
pub open spec fn digit(c: char) -> bool {
    '0' <= c <= '9'
}

/// Holds of decimal digits.
pub open spec fn digits() -> spec_fn(char) -> bool {
    |c: char| digit(c)
}

/// The number that the digits of `s` spell.
pub open spec fn number(s: Seq<char>) -> nat
    decreases s.len(),
{
    if s.len() == 0 {
        0
    } else {
        number(s.drop_last()) * 10 + (s.last() as nat - '0' as nat) as nat
    }
}

/// `s` without the plus sign in front, if something follows it.
pub open spec fn unsigned_part(s: Seq<char>) -> Seq<char> {
    if s.len() > 1 && s[0] == '+' {
        s.skip(1)
    } else {
        s
    }
}

/// What `s` reads as, for numbers up to `limit`. The digits up to the first
/// other character decide whether it is too large.
pub open spec fn reading(s: Seq<char>, limit: nat) -> Result<nat, IntError> {
    let body = unsigned_part(s);
    let n = prefix_len(body, digits());
    if s.len() == 0 {
        Err(IntError::Empty)
    } else if number(body.take(n as int)) > limit {
        Err(IntError::TooLarge)
    } else if n < body.len() {
        Err(IntError::InvalidDigit)
    } else {
        Ok(number(body))
    }
}

/// A longer prefix of digits spells a number at least as large.
proof fn lemma_number_grows(s: Seq<char>, i: int, j: int)
    requires
        0 <= i <= j <= s.len(),
    ensures
        number(s.take(i)) <= number(s.take(j)),
    decreases j,
{
    if i < j {
        assert(s.take(j).drop_last() =~= s.take(j - 1));
        lemma_number_grows(s, i, j - 1);
    }
}

/// The unsigned number up to `limit` that the text spells.
pub fn parse_unsigned(s: &[char], limit: u64) -> (r: Result<u64, IntError>)
    ensures
        match r {
            Ok(v) => reading(s@, limit as nat) == Ok::<nat, IntError>(v as nat),
            Err(e) => reading(s@, limit as nat) == Err::<nat, IntError>(e),
        },
        r is Ok ==> r->Ok_0 <= limit,
{
    if s.len() == 0 {
        return Err(IntError::Empty);
    }
    let body: &[char] = if s.len() > 1 && s[0] == '+' {
        slice_subrange(s, 1, s.len())
    } else {
        s
    };
    assert(body@ =~= unsigned_part(s@));
    let ghost n = prefix_len(body@, digits());
    proof {
        lemma_prefix_len(body@, digits(), n);
    }
    let mut v: u64 = 0;
    let mut i: usize = 0;
    while i < body.len()
        invariant
            i <= body@.len(),
            i <= n <= body@.len(),
            n == prefix_len(body@, digits()),
            body@ == unsigned_part(s@),
            s@.len() > 0,
            v == number(body@.take(i as int)),
            v <= limit,
        decreases body@.len() - i,
    {
        let c = body[i];
        proof {
            lemma_prefix_len(body@, digits(), n);
            assert(digits()(c) == digit(c));
        }
        if !('0' <= c && c <= '9') {
            assert(i == n);
            return Err(IntError::InvalidDigit);
        }
        assert(i < n);
        let d: u32 = c as u32 - '0' as u32;
        let next: u128 = v as u128 * 10 + d as u128;
        proof {
            assert(body@.take(i + 1).drop_last() =~= body@.take(i as int));
            assert(next == number(body@.take(i + 1)));
        }
        if next > limit as u128 {
            proof {
                lemma_number_grows(body@, i + 1, n as int);
            }
            return Err(IntError::TooLarge);
        }
        v = next as u64;
        i += 1;
    }
    assert(body@.take(i as int) =~= body@);
    Ok(v)
}

impl IntError {
    /// The error in words.
    pub open spec fn words(self) -> Seq<char> {
        match self {
            IntError::Empty => "cannot parse integer from empty string"@,
            IntError::InvalidDigit => "invalid digit found in string"@,
            IntError::TooLarge => "number too large to fit in target type"@,
        }
    }

    /// The error in words.
    pub fn message(&self) -> (r: &'static str)
        ensures
            r@ == self.words(),
            self is Empty ==> r@ == "cannot parse integer from empty string"@,
            self is InvalidDigit ==> r@ == "invalid digit found in string"@,
            self is TooLarge ==> r@ == "number too large to fit in target type"@,
    {
        match self {
            IntError::Empty => "cannot parse integer from empty string",
            IntError::InvalidDigit => "invalid digit found in string",
            IntError::TooLarge => "number too large to fit in target type",
        }
    }
}

/// The digit for `d`.
pub open spec fn digit_char(d: nat) -> char {
    ('0' as nat + d) as char
}

/// `n` in decimal, without leading zeros.
pub open spec fn decimal(n: nat) -> Seq<char>
    decreases n,
{
    if n < 10 {
        seq![digit_char(n)]
    } else {
        decimal(n / 10).push(digit_char(n % 10))
    }
}

/// Puts `n` in decimal behind the text.
pub fn push_decimal(out: &mut String, n: u64)
    ensures
        final(out)@ == old(out)@ + decimal(n as nat),
    decreases n,
{
    if n >= 10 {
        push_decimal(out, n / 10);
    }
    let d: u8 = (n % 10) as u8;
    out.push((48 + d) as char);
    assert(out@ =~= old(out)@ + decimal(n as nat));
}

/// `n` in decimal.
pub fn to_decimal(n: u64) -> (s: String)
    ensures
        s@ == decimal(n as nat),
{
    let mut s = String::new();
    push_decimal(&mut s, n);
    assert(s@ =~= decimal(n as nat));
    s
}

/// Decimal notation is made of digits, at least one, and spells its number.
pub proof fn lemma_decimal_digits(n: nat)
    ensures
        decimal(n).len() > 0,
        forall|i: int| 0 <= i < decimal(n).len() ==> digit(#[trigger] decimal(n)[i]),
        number(decimal(n)) == n,
    decreases n,
{
    if n < 10 {
        assert(decimal(n).drop_last() =~= Seq::empty());
        assert(number(decimal(n).drop_last()) == 0);
    } else {
        lemma_decimal_digits(n / 10);
        assert(decimal(n).drop_last() =~= decimal(n / 10));
    }
}

/// Decimal notation holds nothing but digits.
pub proof fn lemma_decimal_holds_digits(n: nat, c: char)
    requires
        !digit(c),
    ensures
        !decimal(n).contains(c),
{
    lemma_decimal_digits(n);
    assert forall|i: int| 0 <= i < decimal(n).len() implies #[trigger] decimal(n)[i] != c by {
        assert(digit(decimal(n)[i]));
    }
}

/// Reading a number's decimal notation gives the number back.
pub proof fn law_decimal_reads_back(n: nat, limit: nat)
    requires
        n <= limit,
    ensures
        reading(decimal(n), limit) == Ok::<nat, IntError>(n),
{
    let s = decimal(n);
    lemma_decimal_digits(n);
    assert(digit(s[0]));
    assert(unsigned_part(s) == s);
    lemma_prefix_len(s, digits(), s.len());
    assert(s.take(s.len() as int) =~= s);
}

/// The digits are the ten characters from `0` on, and each digit behind a
/// number makes it ten times as large and adds its worth.
pub proof fn law_digits_and_their_worth(s: Seq<char>, c: char)
    ensures
        digit(c) <==> 48 <= c as int <= 57,
        digit(c) ==> number(s.push(c)) == 10 * number(s) + (c as int - 48),
        number(Seq::empty()) == 0,
{
    assert(s.push(c).drop_last() =~= s);
}

/// Whether all of the text is digits.
pub open spec fn all_digits(s: Seq<char>) -> bool {
    forall|i: int| 0 <= i < s.len() ==> digit(#[trigger] s[i])
}

/// Digits read as the number they spell, if it is no larger than the limit, and
/// a plus sign in front makes no difference. Nothing at all is no number.
pub proof fn law_digits_read(s: Seq<char>, limit: nat)
    requires
        all_digits(s),
    ensures
        s.len() == 0 ==> reading(s, limit) == Err::<nat, IntError>(IntError::Empty),
        s.len() > 0 && number(s) <= limit ==> reading(s, limit) == Ok::<nat, IntError>(number(s)),
        s.len() > 0 && number(s) > limit ==> reading(s, limit) == Err::<nat, IntError>(
            IntError::TooLarge,
        ),
        s.len() > 0 ==> reading(seq!['+'] + s, limit) == reading(s, limit),
        s.len() == 0 ==> reading(seq!['+'] + s, limit) == Err::<nat, IntError>(
            IntError::InvalidDigit,
        ),
{
    let plus = seq!['+'] + s;
    assert forall|i: int| 0 <= i < s.len() implies digits()(#[trigger] s[i]) by {}
    lemma_prefix_len(s, digits(), s.len());
    assert(s.take(s.len() as int) =~= s);
    if s.len() > 0 {
        assert(digit(s[0]));
        assert(plus.skip(1) =~= s);
    } else {
        assert(plus[0] == '+');
        lemma_prefix_len(plus, digits(), 0);
        assert(number(plus.take(0)) == 0);
    }
}

/// A text that goes on with something else behind its digits is no number: too
/// large if the digits already are, and otherwise for that character. A plus
/// sign in front makes no difference.
pub proof fn law_other_characters_are_refused(
    s: Seq<char>,
    c: char,
    rest: Seq<char>,
    limit: nat,
)
    requires
        all_digits(s),
        !digit(c),
    ensures
        ({
            let text = s.push(c) + rest;
            let refusal = Err::<nat, IntError>(
                if number(s) > limit {
                    IntError::TooLarge
                } else {
                    IntError::InvalidDigit
                },
            );
            &&& reading(seq!['+'] + text, limit) == refusal
            &&& s.len() > 0 || c != '+' || rest.len() == 0 ==> reading(text, limit) == refusal
        }),
{
    let text = s.push(c) + rest;
    let plus = seq!['+'] + text;
    assert forall|i: int| 0 <= i < s.len() implies digits()(#[trigger] text[i]) by {
        assert(text[i] == s[i]);
    }
    assert(text[s.len() as int] == c);
    lemma_prefix_len(text, digits(), s.len());
    assert(text.take(s.len() as int) =~= s);
    assert(plus.skip(1) =~= text);
    if s.len() > 0 {
        assert(digit(s[0]) && text[0] == s[0]);
    }
}

/// Decimal notation is digits alone, and has no needless zero in front.
pub proof fn law_no_leading_zero(n: nat)
    ensures
        all_digits(decimal(n)),
        n > 0 ==> decimal(n)[0] != '0',
        n == 0 ==> decimal(n) == seq!['0'],
    decreases n,
{
    lemma_decimal_digits(n);
    if n >= 10 {
        law_no_leading_zero(n / 10);
        lemma_decimal_digits(n / 10);
    }
}

} // verus!

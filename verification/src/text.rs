//! Small verified text helpers shared by the record codec and the datafile
//! naming scheme: decimal rendering and parsing of numbers, string equality,
//! and appending single characters to a `String`.

use vstd::prelude::*;

verus! {

/// Whether `c` is an ASCII decimal digit.
pub open spec fn is_digit(c: char) -> bool {
    48 <= (c as u32) <= 57
}

/// Numeric value of an ASCII digit (meaningful only when `is_digit(c)`).
pub open spec fn digit_val(c: char) -> int {
    (c as u32) - 48
}

/// The ASCII digit character for `d` (meaningful only for `0 <= d <= 9`).
pub open spec fn digit_char(d: int) -> char {
    ((48 + d) as u8) as char
}

/// `10^n`.
pub open spec fn pow10(n: nat) -> nat
    decreases n,
{
    if n == 0 {
        1
    } else {
        10 * pow10((n - 1) as nat)
    }
}

/// The decimal rendering of `n`, most significant digit first, with no
/// leading zeros (`0` renders as "0").
pub open spec fn dec_rep(n: nat) -> Seq<char>
    decreases n,
{
    if n < 10 {
        seq![digit_char(n as int)]
    } else {
        dec_rep(n / 10).push(digit_char((n % 10) as int))
    }
}

/// All characters of `d` are ASCII digits.
pub open spec fn all_digits(d: Seq<char>) -> bool {
    forall|j: int| 0 <= j < d.len() ==> is_digit(#[trigger] d[j])
}

/// The number denoted by a digit sequence, most significant digit first.
pub open spec fn digits_value(d: Seq<char>) -> int
    decreases d.len(),
{
    if d.len() == 0 {
        0
    } else {
        digit_val(d[0]) * pow10((d.len() - 1) as nat) + digits_value(d.drop_first())
    }
}

/// Consume digits of `s` from position `i` onward, accumulating onto `acc`;
/// returns the accumulated value and the first non-digit position.
pub open spec fn parse_digits(s: Seq<char>, i: int, acc: int) -> (int, int)
    decreases s.len() - i,
{
    if 0 <= i < s.len() && is_digit(s[i]) {
        parse_digits(s, i + 1, acc * 10 + digit_val(s[i]))
    } else {
        (acc, i)
    }
}

pub proof fn lemma_digit_roundtrip(d: int)
    requires
        0 <= d <= 9,
    ensures
        is_digit(digit_char(d)),
        digit_val(digit_char(d)) == d,
{
    let u: u8 = (48 + d) as u8;
    vstd::utf8::char_u32_cast((u as char), u as u32);
    assert((u as char) as u32 == u as u32);
}

pub proof fn lemma_digits_value_push(d: Seq<char>, c: char)
    ensures
        digits_value(d.push(c)) == digits_value(d) * 10 + digit_val(c),
    decreases d.len(),
{
    let x = d.push(c);
    if d.len() == 0 {
        assert(x.len() == 1);
        assert(x[0] == c);
        assert(x.drop_first() =~= Seq::<char>::empty());
        assert(digits_value(x) == digit_val(c) * pow10(0) + digits_value(x.drop_first()));
        assert(pow10(0) == 1);
        assert(digit_val(c) * 1 == digit_val(c));
        assert(digits_value(d) == 0);
    } else {
        assert(x.len() == d.len() + 1);
        assert(x[0] == d[0]);
        assert(x.drop_first() =~= d.drop_first().push(c));
        lemma_digits_value_push(d.drop_first(), c);
        let n = (d.len() - 1) as nat;
        assert(digits_value(x) == digit_val(x[0]) * pow10((x.len() - 1) as nat) + digits_value(
            x.drop_first(),
        ));
        assert((x.len() - 1) as nat == d.len() as nat);
        assert(pow10(d.len() as nat) == 10 * pow10(n));
        assert(digit_val(d[0]) * (10 * pow10(n)) == (digit_val(d[0]) * pow10(n)) * 10)
            by (nonlinear_arith);
        assert(digits_value(x) == (digit_val(d[0]) * pow10(n)) * 10 + (digits_value(d.drop_first())
            * 10 + digit_val(c)));
        assert(digits_value(d) == digit_val(d[0]) * pow10(n) + digits_value(d.drop_first()));
    }
}

pub proof fn lemma_dec_rep_value(n: nat)
    ensures
        digits_value(dec_rep(n)) == n,
        all_digits(dec_rep(n)),
        dec_rep(n).len() >= 1,
    decreases n,
{
    if n < 10 {
        lemma_digit_roundtrip(n as int);
        let q = dec_rep(n);
        assert(q =~= seq![digit_char(n as int)]);
        assert(q.len() == 1);
        assert(q[0] == digit_char(n as int));
        assert(q.drop_first() =~= Seq::<char>::empty());
        assert(digits_value(q) == digit_val(q[0]) * pow10(0) + digits_value(q.drop_first()));
        assert(pow10(0) == 1);
        assert(digit_val(q[0]) == n);
        assert(digit_val(q[0]) * 1 == digit_val(q[0]));
    } else {
        lemma_dec_rep_value(n / 10);
        lemma_digit_roundtrip((n % 10) as int);
        lemma_digits_value_push(dec_rep(n / 10), digit_char((n % 10) as int));
        assert(digits_value(dec_rep(n)) == (n / 10) * 10 + n % 10);
        assert((n / 10) * 10 + n % 10 == n) by (nonlinear_arith);
        assert forall|j: int| 0 <= j < dec_rep(n).len() implies is_digit(#[trigger] dec_rep(n)[j]) by {
            if j < dec_rep(n / 10).len() {
                assert(dec_rep(n)[j] == dec_rep(n / 10)[j]);
            }
        }
    }
}

/// Consuming a known digit block: if the characters of `s` from `i` to
/// `i + len` are exactly the digit sequence `d` and the block is followed by
/// a non-digit (or the end of `s`), `parse_digits` consumes exactly the block.
pub proof fn lemma_parse_digits_block(s: Seq<char>, i: int, acc: int, d: Seq<char>)
    requires
        0 <= i,
        i + d.len() <= s.len(),
        all_digits(d),
        s.subrange(i, i + d.len()) =~= d,
        i + d.len() == s.len() || !is_digit(s[i + d.len()]),
    ensures
        parse_digits(s, i, acc) == (acc * pow10(d.len()) + digits_value(d), i + d.len()),
    decreases d.len(),
{
    if d.len() == 0 {
        assert(parse_digits(s, i, acc) == (acc, i));
        assert(acc * 1 == acc) by (nonlinear_arith);
    } else {
        assert(s[i] == d[0]);
        assert(is_digit(s[i]));
        let acc2 = acc * 10 + digit_val(d[0]);
        assert(s.subrange(i + 1, i + d.len()) =~= d.drop_first());
        lemma_parse_digits_block(s, i + 1, acc2, d.drop_first());
        let m = (d.len() - 1) as nat;
        assert(parse_digits(s, i, acc) == (acc2 * pow10(m) + digits_value(d.drop_first()), i
            + d.len()));
        assert((acc * 10 + digit_val(d[0])) * pow10(m) == acc * (10 * pow10(m)) + digit_val(d[0])
            * pow10(m)) by (nonlinear_arith);
        assert(pow10(d.len() as nat) == 10 * pow10(m));
    }
}

/// Extending the string beyond the stopping point does not change the parse.
pub proof fn lemma_parse_digits_extend(s: Seq<char>, t: Seq<char>, i: int, acc: int)
    requires
        0 <= i <= s.len(),
        parse_digits(s, i, acc).1 < s.len(),
    ensures
        parse_digits(s + t, i, acc) == parse_digits(s, i, acc),
    decreases s.len() - i,
{
    if i < s.len() && is_digit(s[i]) {
        assert((s + t)[i] == s[i]);
        lemma_parse_digits_extend(s, t, i + 1, acc * 10 + digit_val(s[i]));
    } else {
        assert((s + t)[i] == s[i]);
    }
}

/// The parse position never moves backwards and never passes the end.
pub proof fn lemma_parse_digits_range(s: Seq<char>, i: int, acc: int)
    requires
        0 <= i <= s.len(),
    ensures
        i <= parse_digits(s, i, acc).1 <= s.len(),
    decreases s.len() - i,
{
    if i < s.len() && is_digit(s[i]) {
        lemma_parse_digits_range(s, i + 1, acc * 10 + digit_val(s[i]));
    }
}

/// The accumulated value never shrinks.
pub proof fn lemma_parse_digits_grows(s: Seq<char>, i: int, acc: int)
    requires
        0 <= i,
        0 <= acc,
    ensures
        parse_digits(s, i, acc).0 >= acc,
    decreases s.len() - i,
{
    if 0 <= i < s.len() && is_digit(s[i]) {
        assert(acc * 10 >= acc) by (nonlinear_arith)
            requires
                acc >= 0,
        ;
        lemma_parse_digits_grows(s, i + 1, acc * 10 + digit_val(s[i]));
    }
}

/// Appends one character to a string.
///
/// Relies on `String::push` from std: it appends exactly the given `char`.
#[verifier::external_body]
pub fn push_char(s: &mut String, c: char)
    ensures
        final(s)@ == old(s)@.push(c),
{
    s.push(c);
}

/// The ASCII digit character for `d < 10`, as an executable function.
pub fn digit_to_char(d: u64) -> (c: char)
    requires
        d < 10,
    ensures
        c == digit_char(d as int),
{
    (48 + d as u8) as char
}

/// Renders `n` in decimal, most significant digit first.
pub fn u64_to_dec(n: u64) -> (r: String)
    ensures
        r@ == dec_rep(n as nat),
    decreases n,
{
    if n < 10 {
        let mut s = String::new();
        push_char(&mut s, digit_to_char(n));
        proof {
            assert(s@ =~= dec_rep(n as nat));
        }
        s
    } else {
        let mut s = u64_to_dec(n / 10);
        push_char(&mut s, digit_to_char(n % 10));
        s
    }
}

/// Character-by-character string equality.
pub fn str_eq(a: &str, b: &str) -> (r: bool)
    ensures
        r == (a@ == b@),
{
    let la = a.unicode_len();
    let lb = b.unicode_len();
    if la != lb {
        assert(a@ != b@);
        return false;
    }
    let mut i: usize = 0;
    while i < la
        invariant
            la == a@.len(),
            la == b@.len(),
            0 <= i <= la,
            forall|j: int| 0 <= j < i ==> a@[j] == b@[j],
        decreases la - i,
    {
        if a.get_char(i) != b.get_char(i) {
            assert(a@[i as int] != b@[i as int]);
            return false;
        }
        i += 1;
    }
    proof {
        assert(a@ =~= b@);
    }
    true
}

} // verus!

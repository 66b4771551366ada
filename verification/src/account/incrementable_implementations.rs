//! [`Incrementable`] for the built-in integer types and for `String`.
//!
//! Integers increment with silent wraparound.  A `String` increments its
//! trailing counter: a suffix `(<digits>)` has its digits read as a bounded
//! integer (with silent wraparound, both while reading and when stepping) and
//! rewritten one higher; a string without such a suffix gets `(1)` appended.

use vstd::prelude::*;

use crate::account::Incrementable;

verus! {

/// Whether a character is a decimal digit.
pub open spec fn is_digit_char(c: char) -> bool {
    48 <= c as u32 && c as u32 <= 57
}

/// The numeric value of a decimal digit.
pub open spec fn digit_val(c: char) -> int {
    c as u32 - 48
}

/// The decimal digit with the given value.
pub open spec fn digit_char(d: int) -> char {
    ((d + 48) as u8) as char
}

/// The decimal rendering of a natural number, most significant digit first.
pub open spec fn dec_digits(n: nat) -> Seq<char>
    decreases n,
{
    if n < 10 {
        seq![digit_char(n as int)]
    } else {
        dec_digits(n / 10).push(digit_char((n % 10) as int))
    }
}

/// The decimal rendering of an integer.
pub open spec fn dec_int(n: int) -> Seq<char> {
    if n < 0 {
        seq!['-'] + dec_digits((-n) as nat)
    } else {
        dec_digits(n as nat)
    }
}

/// The start of the maximal run of digits ending at position `i`: the least
/// index `d` such that every character in `d..=i` is a digit.
pub open spec fn run_start(s: Seq<char>, i: int) -> int
    decreases i + 1,
{
    if i < 0 {
        0
    } else if is_digit_char(s[i]) {
        run_start(s, i - 1)
    } else {
        i + 1
    }
}

/// What [`run_start`] returns: a position bounding a run of digits, preceded
/// by a non-digit (or the start of the string).
pub proof fn lemma_run_start(s: Seq<char>, i: int)
    requires
        i < s.len(),
    ensures
        0 <= run_start(s, i),
        i >= 0 ==> run_start(s, i) <= i + 1,
        i < 0 ==> run_start(s, i) == 0,
        forall|j: int| run_start(s, i) <= j <= i ==> is_digit_char(s[j]),
        run_start(s, i) >= 1 ==> !is_digit_char(s[run_start(s, i) - 1]),
    decreases i + 1,
{
    if i >= 0 && is_digit_char(s[i]) {
        lemma_run_start(s, i - 1);
    }
}

/// The value of a digit sequence, read with `i32` wraparound: each step
/// multiplies by ten and adds the next digit, both with wrapping.
pub open spec fn parse_wrap(digits: Seq<char>) -> i32
    decreases digits.len(),
{
    if digits.len() == 0 {
        0
    } else {
        vstd::wrapping::i32_specs::wrapping_add(
            vstd::wrapping::i32_specs::wrapping_mul(parse_wrap(digits.drop_last()), 10),
            digit_val(digits.last()) as i32,
        )
    }
}

/// An `i32` one higher, wrapping around at the top.
pub open spec fn wrap_inc_i32(v: i32) -> i32 {
    if v == i32::MAX {
        i32::MIN
    } else {
        (v + 1) as i32
    }
}

/// Whether a string ends in a counter suffix `(<digits>)`.
pub open spec fn has_counter(s: Seq<char>) -> bool {
    let d = run_start(s, s.len() - 2);
    &&& s.len() >= 3
    &&& s[s.len() - 1] == ')'
    &&& is_digit_char(s[s.len() - 2])
    &&& d >= 1
    &&& s[d - 1] == '('
}

/// A string with its trailing counter stepped: the digits of a `(<digits>)`
/// suffix are rewritten one higher (with wraparound), and a string without
/// such a suffix gets `(1)` appended.
pub open spec fn increment_str(s: Seq<char>) -> Seq<char> {
    if has_counter(s) {
        let d = run_start(s, s.len() - 2);
        s.take(d) + dec_int(wrap_inc_i32(parse_wrap(s.subrange(d, s.len() - 1))) as int) + seq![
            ')',
        ]
    } else {
        s + seq!['(', '1', ')']
    }
}

/// Relies on `String::push`: appends one character.
#[verifier::external_body]
fn push_char(s: &mut String, c: char)
    ensures
        final(s)@ == old(s)@.push(c),
{
    s.push(c)
}

/// Whether a character is a decimal digit.
fn char_is_digit(c: char) -> (r: bool)
    ensures
        r == is_digit_char(c),
{
    let u = c as u32;
    48 <= u && u <= 57
}

/// Appends the decimal rendering of `n`.
fn push_dec_u32(s: &mut String, n: u32)
    ensures
        final(s)@ == old(s)@ + dec_digits(n as nat),
{
    let mut digits: Vec<char> = Vec::new();
    let mut m: u32 = n;
    loop
        invariant_except_break
            dec_digits(n as nat) == dec_digits(m as nat) + digits@.reverse(),
        ensures
            dec_digits(n as nat) == digits@.reverse(),
        decreases m,
    {
        let ghost before = digits@;
        let d = m % 10;
        let c = ((48 + d) as u8) as char;
        digits.push(c);
        proof {
            assert(c == digit_char((m % 10) as int));
            assert(digits@.reverse() =~= seq![c] + before.reverse());
            if m >= 10 {
                assert(dec_digits(m as nat) == dec_digits((m / 10) as nat).push(
                    digit_char((m % 10) as int),
                ));
                assert(dec_digits((m / 10) as nat) + digits@.reverse() =~= dec_digits(m as nat)
                    + before.reverse());
            } else {
                assert(m % 10 == m);
                assert(dec_digits(m as nat) =~= seq![c]);
                assert(dec_digits(m as nat) + before.reverse() =~= digits@.reverse());
            }
        }
        if m < 10 {
            break;
        }
        m = m / 10;
    }
    let count = digits.len();
    let mut j: usize = 0;
    while j < count
        invariant
            count == digits@.len(),
            j <= count,
            s@ == old(s)@ + digits@.reverse().take(j as int),
        decreases count - j,
    {
        push_char(s, digits[count - 1 - j]);
        proof {
            assert(digits@.reverse()[j as int] == digits@[count - 1 - j]);
            assert(digits@.reverse().take(j + 1) =~= digits@.reverse().take(j as int).push(
                digits@[count - 1 - j],
            ));
            assert(s@ =~= old(s)@ + digits@.reverse().take(j + 1));
        }
        j = j + 1;
    }
    proof {
        assert(digits@.reverse().take(count as int) =~= digits@.reverse());
    }
}

/// Appends the decimal rendering of `n`, sign included.
fn push_dec_i32(s: &mut String, n: i32)
    ensures
        final(s)@ == old(s)@ + dec_int(n as int),
{
    if n < 0 {
        push_char(s, '-');
        let mag: u32 = (-(n as i64)) as u32;
        push_dec_u32(s, mag);
        proof {
            assert(final(s)@ =~= old(s)@ + dec_int(n as int));
        }
    } else {
        push_dec_u32(s, n as u32);
    }
}

impl Incrementable for String {
    /// The result's characters are those of the receiver with the trailing
    /// counter stepped.
    open spec fn inc_rel(self, r: String) -> bool {
        r@ == increment_str(self@)
    }

    fn increment(&self) -> (r: String) {
        let s = self.as_str();
        let n = s.unicode_len();
        let ghost sv = self@;
        if n >= 3 && s.get_char(n - 1) == ')' && char_is_digit(s.get_char(n - 2)) {
            // scan the digit run that ends just before the closing parenthesis
            let mut d: usize = n - 1;
            while d > 0 && char_is_digit(s.get_char(d - 1))
                invariant
                    d <= n - 1,
                    n >= 3,
                    n == sv.len(),
                    sv == s@,
                    run_start(sv, n - 2) == run_start(sv, d - 1),
                    forall|j: int| d <= j <= n - 2 ==> is_digit_char(sv[j]),
                decreases d,
            {
                d = d - 1;
            }
            proof {
                assert(run_start(sv, n - 2) == d);
                lemma_run_start(sv, n - 2);
            }
            if d > 0 && s.get_char(d - 1) == '(' {
                // parse the digits with wraparound
                let mut acc: i32 = 0;
                let mut j: usize = d;
                proof {
                    assert(sv.subrange(d as int, d as int) =~= Seq::<char>::empty());
                }
                while j < n - 1
                    invariant
                        d <= j <= n - 1,
                        d >= 1,
                        n == sv.len(),
                        sv == s@,
                        n >= 3,
                        forall|m: int| d <= m <= n - 2 ==> is_digit_char(sv[m]),
                        acc == parse_wrap(sv.subrange(d as int, j as int)),
                    decreases n - 1 - j,
                {
                    let c = s.get_char(j);
                    let dv = (c as u32) - 48;
                    acc = acc.wrapping_mul(10).wrapping_add(dv as i32);
                    proof {
                        assert(sv.subrange(d as int, j + 1).drop_last() =~= sv.subrange(
                            d as int,
                            j as int,
                        ));
                        assert(sv.subrange(d as int, j + 1).last() == sv[j as int]);
                    }
                    j = j + 1;
                }
                let next = if acc == i32::MAX {
                    i32::MIN
                } else {
                    acc + 1
                };
                let prefix = s.substring_char(0, d);
                let mut r = String::from_str(prefix);
                proof {
                    assert(r@ =~= sv.take(d as int));
                }
                push_dec_i32(&mut r, next);
                push_char(&mut r, ')');
                proof {
                    assert(has_counter(sv));
                    assert(r@ =~= increment_str(sv));
                }
                return r;
            }
        }
        let mut r = self.clone();
        proof {
            lemma_run_start(sv, sv.len() - 2);
            assert(!has_counter(sv));
        }
        push_char(&mut r, '(');
        push_char(&mut r, '1');
        push_char(&mut r, ')');
        proof {
            assert(r@ =~= sv + seq!['(', '1', ')']);
        }
        r
    }

    fn increment_mut(&mut self) {
        let r = self.increment();
        let mut tmp = r;
        core::mem::swap(self, &mut tmp);
    }
}

impl Incrementable for i8 {
    open spec fn inc_rel(self, r: i8) -> bool {
        r == if self == i8::MAX {
            i8::MIN
        } else {
            (self + 1) as i8
        }
    }

    fn increment(&self) -> (r: i8) {
        self.wrapping_add(1)
    }

    fn increment_mut(&mut self) {
        *self = self.wrapping_add(1);
    }
}

impl Incrementable for i16 {
    open spec fn inc_rel(self, r: i16) -> bool {
        r == if self == i16::MAX {
            i16::MIN
        } else {
            (self + 1) as i16
        }
    }

    fn increment(&self) -> (r: i16) {
        self.wrapping_add(1)
    }

    fn increment_mut(&mut self) {
        *self = self.wrapping_add(1);
    }
}

impl Incrementable for i32 {
    open spec fn inc_rel(self, r: i32) -> bool {
        r == if self == i32::MAX {
            i32::MIN
        } else {
            (self + 1) as i32
        }
    }

    fn increment(&self) -> (r: i32) {
        self.wrapping_add(1)
    }

    fn increment_mut(&mut self) {
        *self = self.wrapping_add(1);
    }
}

impl Incrementable for i64 {
    open spec fn inc_rel(self, r: i64) -> bool {
        r == if self == i64::MAX {
            i64::MIN
        } else {
            (self + 1) as i64
        }
    }

    fn increment(&self) -> (r: i64) {
        self.wrapping_add(1)
    }

    fn increment_mut(&mut self) {
        *self = self.wrapping_add(1);
    }
}

impl Incrementable for i128 {
    open spec fn inc_rel(self, r: i128) -> bool {
        r == if self == i128::MAX {
            i128::MIN
        } else {
            (self + 1) as i128
        }
    }

    fn increment(&self) -> (r: i128) {
        self.wrapping_add(1)
    }

    fn increment_mut(&mut self) {
        *self = self.wrapping_add(1);
    }
}

impl Incrementable for isize {
    open spec fn inc_rel(self, r: isize) -> bool {
        r == if self == isize::MAX {
            isize::MIN
        } else {
            (self + 1) as isize
        }
    }

    fn increment(&self) -> (r: isize) {
        self.wrapping_add(1)
    }

    fn increment_mut(&mut self) {
        *self = self.wrapping_add(1);
    }
}

impl Incrementable for u8 {
    open spec fn inc_rel(self, r: u8) -> bool {
        r == if self == u8::MAX {
            0u8
        } else {
            (self + 1) as u8
        }
    }

    fn increment(&self) -> (r: u8) {
        self.wrapping_add(1)
    }

    fn increment_mut(&mut self) {
        *self = self.wrapping_add(1);
    }
}

impl Incrementable for u16 {
    open spec fn inc_rel(self, r: u16) -> bool {
        r == if self == u16::MAX {
            0u16
        } else {
            (self + 1) as u16
        }
    }

    fn increment(&self) -> (r: u16) {
        self.wrapping_add(1)
    }

    fn increment_mut(&mut self) {
        *self = self.wrapping_add(1);
    }
}

impl Incrementable for u32 {
    open spec fn inc_rel(self, r: u32) -> bool {
        r == if self == u32::MAX {
            0u32
        } else {
            (self + 1) as u32
        }
    }

    fn increment(&self) -> (r: u32) {
        self.wrapping_add(1)
    }

    fn increment_mut(&mut self) {
        *self = self.wrapping_add(1);
    }
}

impl Incrementable for u64 {
    open spec fn inc_rel(self, r: u64) -> bool {
        r == if self == u64::MAX {
            0u64
        } else {
            (self + 1) as u64
        }
    }

    fn increment(&self) -> (r: u64) {
        self.wrapping_add(1)
    }

    fn increment_mut(&mut self) {
        *self = self.wrapping_add(1);
    }
}

impl Incrementable for u128 {
    open spec fn inc_rel(self, r: u128) -> bool {
        r == if self == u128::MAX {
            0u128
        } else {
            (self + 1) as u128
        }
    }

    fn increment(&self) -> (r: u128) {
        self.wrapping_add(1)
    }

    fn increment_mut(&mut self) {
        *self = self.wrapping_add(1);
    }
}

impl Incrementable for usize {
    open spec fn inc_rel(self, r: usize) -> bool {
        r == if self == usize::MAX {
            0usize
        } else {
            (self + 1) as usize
        }
    }

    fn increment(&self) -> (r: usize) {
        self.wrapping_add(1)
    }

    fn increment_mut(&mut self) {
        *self = self.wrapping_add(1);
    }
}

} // verus!

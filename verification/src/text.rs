//! The two field kinds of the wire format, numbers and counted strings, and
//! the writer and reader that put them on and take them off a run of
//! characters.

use std::collections::VecDeque;
use vstd::arithmetic::div_mod::{lemma_add_mod_noop, lemma_mul_mod_noop_left, lemma_small_mod};
use vstd::prelude::*;
use vstd::utf8::encode_utf8;

verus! {

/// `String::push` appends one character.
pub assume_specification[ String::push ](s: &mut String, ch: char)
    ensures
        final(s)@ == old(s)@.push(ch),
;

/// One past the largest `u64`.
pub open spec fn wrap() -> int {
    0x1_0000_0000_0000_0000
}

/// `c` is one of the ten decimal digits.
pub open spec fn is_digit(c: char) -> bool {
    '0' <= c <= '9'
}

/// The number that the digit `c` stands for.
pub open spec fn digit_value(c: char) -> nat {
    (c as u32 - 48) as nat
}

/// The digit that stands for `d`, for `d` below ten.
pub open spec fn digit_char(d: nat) -> char {
    (d + 48) as char
}

/// `n` in decimal, without leading zeros.
pub open spec fn decimal(n: nat) -> Seq<char>
    decreases n,
{
    if n < 10 {
        seq![digit_char(n)]
    } else {
        decimal(n / 10).push(digit_char(n % 10))
    }
}

/// The number that a run of digits reads as.
pub open spec fn digits_value(d: Seq<char>) -> nat
    decreases d.len(),
{
    if d.len() == 0 {
        0
    } else {
        digits_value(d.drop_last()) * 10 + digit_value(d.last())
    }
}

/// How many characters stand before the first digit of `s`.
pub open spec fn junk_len(s: Seq<char>) -> nat
    decreases s.len(),
{
    if s.len() == 0 || is_digit(s[0]) {
        0
    } else {
        1 + junk_len(s.drop_first())
    }
}

/// How many digits `s` begins with.
pub open spec fn run_len(s: Seq<char>) -> nat
    decreases s.len(),
{
    if s.len() == 0 || !is_digit(s[0]) {
        0
    } else {
        1 + run_len(s.drop_first())
    }
}

/// Reading a number off `s`: whatever stands before the first digit is
/// passed over, the digits that follow are read as a decimal number, kept
/// modulo 2^64, and the one character after them is taken along.  The
/// result is the number and what is left of `s`.
pub open spec fn number_read(s: Seq<char>) -> (u64, Seq<char>) {
    let t = s.skip(junk_len(s) as int);
    let k = run_len(t);
    (
        (digits_value(t.take(k as int)) % (wrap() as nat)) as u64,
        if k < t.len() {
            t.skip(k as int + 1)
        } else {
            t.skip(k as int)
        },
    )
}

/// Reading a counted string off `s`: a number, then as many characters as
/// it says, or all that are left if there are fewer.
pub open spec fn string_read(s: Seq<char>) -> (Seq<char>, Seq<char>) {
    let (n, t) = number_read(s);
    if n <= t.len() {
        (t.take(n as int), t.skip(n as int))
    } else {
        (t, Seq::empty())
    }
}

/// A number as it is written: a comma, then its decimal digits.
pub open spec fn number_field(n: u64) -> Seq<char> {
    seq![','] + decimal(n as nat)
}

/// The count that a string is written with: the length of its UTF-8 form,
/// as the machine word that `str::len` returns.
pub open spec fn byte_count(s: Seq<char>) -> usize {
    encode_utf8(s).len() as usize
}

/// A string as it is written: its byte count as a number, a comma, then
/// the string itself.
pub open spec fn string_field(s: Seq<char>) -> Seq<char> {
    number_field(byte_count(s) as u64) + seq![','] + s
}

/// The digit of `c`, if it is one.
pub fn digit_of(c: char) -> (d: Option<u64>)
    ensures
        d is Some <==> is_digit(c),
        d matches Some(v) ==> v == digit_value(c) && v < 10,
{
    if c >= '0' && c <= '9' {
        Some((c as u32 - 48) as u64)
    } else {
        None
    }
}

/// Collects the characters of the outgoing text.
pub struct CharWriter {
    inner: VecDeque<char>,
}

impl View for CharWriter {
    type V = Seq<char>;

    closed spec fn view(&self) -> Seq<char> {
        self.inner@
    }
}

impl CharWriter {
    /// A writer that has written nothing.
    pub fn new() -> (w: CharWriter)
        ensures
            w@ == Seq::<char>::empty(),
    {
        CharWriter { inner: VecDeque::new() }
    }

    /// Appends one character.
    pub fn write_char(&mut self, c: char)
        ensures
            final(self)@ == old(self)@.push(c),
    {
        self.inner.push_back(c);
    }

    /// Appends `number` as a field: a comma and the decimal digits.
    pub fn write_number(&mut self, number: u64)
        ensures
            final(self)@ == old(self)@ + number_field(number),
    {
        self.inner.push_back(',');
        self.write_digits(number);
    }

    /// Appends the decimal digits of `number`.
    pub fn write_digits(&mut self, number: u64)
        ensures
            final(self)@ == old(self)@ + decimal(number as nat),
    {
        let ghost base = self.inner@;
        let mut rev: Vec<char> = Vec::new();
        let mut n = number;
        if n == 0 {
            rev.push('0');
        }
        while n > 0
            invariant
                number > 0 ==> decimal(number as nat) == (if n > 0 {
                    decimal(n as nat)
                } else {
                    Seq::<char>::empty()
                }) + rev@.reverse(),
                number == 0 ==> n == 0 && rev@ == seq!['0'],
            decreases n,
        {
            let d = (n % 10) as u8;
            let c = (d + 48) as char;
            let ghost before = rev@;
            rev.push(c);
            proof {
                assert(c == digit_char((n % 10) as nat));
                assert(rev@.reverse() =~= seq![c] + before.reverse());
                if n >= 10 {
                    assert(decimal(n as nat) == decimal((n / 10) as nat).push(c));
                    assert(decimal((n / 10) as nat).push(c) + before.reverse() =~= decimal(
                        (n / 10) as nat,
                    ) + rev@.reverse());
                } else {
                    assert(decimal(n as nat) == seq![c]);
                    assert(seq![c] + before.reverse() =~= Seq::<char>::empty() + rev@.reverse());
                }
            }
            n = n / 10;
        }
        proof {
            assert(rev@.reverse() =~= decimal(number as nat)) by {
                if number == 0 {
                    assert(rev@.reverse() =~= seq!['0']);
                } else {
                    assert(Seq::<char>::empty() + rev@.reverse() =~= rev@.reverse());
                }
            }
        }
        let mut i = rev.len();
        while i > 0
            invariant
                0 <= i <= rev.len(),
                self.inner@ == base + rev@.reverse().take(rev.len() - i),
            decreases i,
        {
            i = i - 1;
            self.inner.push_back(rev[i]);
            proof {
                let r = rev@.reverse();
                assert(r.take(rev.len() - i) =~= r.take(rev.len() - i - 1).push(rev[i as int]));
            }
        }
        proof {
            let r = rev@.reverse();
            assert(r.take(rev.len() as int) =~= r);
            assert(base + r =~= old(self)@ + decimal(number as nat));
        }
    }

    /// Appends `string` as a field: its byte count, a comma, its characters.
    pub fn write_string(&mut self, string: &str)
        ensures
            final(self)@ == old(self)@ + string_field(string@),
    {
        self.write_number(string.len() as u64);
        self.inner.push_back(',');
        let ghost base = self.inner@;
        for c in it: string.chars()
            invariant
                it.seq() == string@,
                self.inner@ == base + it.seq().take(it.index() as int),
        {
            self.inner.push_back(c);
        }
    }

    /// The text written so far.
    pub fn into_string(self) -> (out: String)
        ensures
            out@ == self@,
    {
        let mut out = String::new();
        let mut i: usize = 0;
        while i < self.inner.len()
            invariant
                0 <= i <= self.inner.len(),
                out@ == self.inner@.take(i as int),
            decreases self.inner.len() - i,
        {
            out.push(self.inner[i]);
            i = i + 1;
        }
        out
    }
}

/// Holds the characters of an incoming text that have not been read yet.
pub struct CharReader {
    inner: VecDeque<char>,
}

impl View for CharReader {
    type V = Seq<char>;

    closed spec fn view(&self) -> Seq<char> {
        self.inner@
    }
}

impl CharReader {
    /// A reader at the start of `text`.
    pub fn new(text: &str) -> (r: CharReader)
        ensures
            r@ == text@,
    {
        let mut inner: VecDeque<char> = VecDeque::new();
        for c in it: text.chars()
            invariant
                it.seq() == text@,
                inner@ == it.seq().take(it.index() as int),
        {
            inner.push_back(c);
            proof {
                assert(it.seq().take(it.index() + 1) =~= it.seq().take(it.index() as int).push(c));
            }
        }
        proof {
            assert(text@.take(text@.len() as int) =~= text@);
        }
        CharReader { inner }
    }

    /// Takes the next character, if there is one.
    pub fn read_char(&mut self) -> (c: Option<char>)
        ensures
            match c {
                Some(x) => old(self)@.len() > 0 && x == old(self)@[0] && final(self)@ == old(
                    self,
                )@.drop_first(),
                None => old(self)@.len() == 0 && final(self)@ == old(self)@,
            },
    {
        let c = self.inner.pop_front();
        c
    }

    /// Reads a number: passes over whatever stands before the first digit,
    /// reads the digits, keeping the value modulo 2^64, and takes the one
    /// character after them along.
    pub fn read_number(&mut self) -> (n: u64)
        ensures
            (n, final(self)@) == number_read(old(self)@),
    {
        let ghost s = self.inner@;
        let ghost mut skipped: int = 0;
        let mut first: Option<u64> = None;
        while self.inner.len() > 0 && first.is_none()
            invariant
                0 <= skipped <= s.len(),
                junk_len(s) == skipped + (if first is Some { 0 } else { junk_len(self.inner@) }),
                first is None ==> self.inner@ == s.skip(skipped),
                first matches Some(d) ==> {
                    &&& skipped < s.len()
                    &&& is_digit(s[skipped])
                    &&& d == digit_value(s[skipped])
                    &&& self.inner@ == s.skip(skipped + 1)
                },
            decreases self.inner.len() + (if first is None { 1nat } else { 0 }),
        {
            let c = self.inner.pop_front().unwrap();
            proof {
                assert(s.skip(skipped).subrange(1, s.skip(skipped).len() as int) =~= s.skip(
                    skipped + 1,
                ));
                assert(s.skip(skipped).drop_first() =~= s.skip(skipped + 1));
                assert(c == s[skipped]);
            }
            first = digit_of(c);
            proof {
                if first is None {
                    skipped = skipped + 1;
                }
            }
        }
        let ghost t = s.skip(skipped);
        let mut acc: u64 = 0;
        match first {
            None => {
                proof {
                    assert(t.len() == 0);
                    assert(t.take(0) =~= Seq::<char>::empty());
                    assert(t.skip(0) =~= t);
                }
                return 0;
            },
            Some(d) => {
                acc = d;
            },
        }
        let ghost mut k: int = 1;
        proof {
            assert(t.take(1).drop_last() =~= Seq::<char>::empty());
            assert(t.take(1).last() == t[0]);
            assert(digits_value(t.take(1)) == digit_value(t[0])) by {
                assert(digits_value(t.take(1).drop_last()) == 0);
            }
            lemma_small_mod(acc as nat, wrap() as nat);
            assert(t.skip(1) =~= t.drop_first());
        }
        let mut open = true;
        while open && self.inner.len() > 0
            invariant
                t == s.skip(skipped),
                1 <= k <= t.len(),
                open ==> self.inner@ == t.skip(k),
                open ==> run_len(t) == k + run_len(t.skip(k)),
                open ==> acc == digits_value(t.take(k)) % (wrap() as nat),
                !open ==> (acc, self.inner@) == number_read(s),
                junk_len(s) == skipped,
            decreases self.inner.len() + (if open { 1nat } else { 0 }),
        {
            let c = self.inner.pop_front().unwrap();
            proof {
                assert(t.skip(k).subrange(1, t.skip(k).len() as int) =~= t.skip(k + 1));
                assert(t.skip(k).drop_first() =~= t.skip(k + 1));
                assert(c == t[k]);
            }
            match digit_of(c) {
                Some(d) => {
                    let ghost v = digits_value(t.take(k));
                    proof {
                        assert(t.take(k + 1).drop_last() =~= t.take(k));
                        assert(t.take(k + 1).last() == c);
                        assert(digits_value(t.take(k + 1)) == v * 10 + d);
                        lemma_mul_mod_noop_left(v as int, 10, wrap());
                        lemma_add_mod_noop((v * 10) as int, d as int, wrap());
                        lemma_add_mod_noop((acc * 10) as int, d as int, wrap());
                    }
                    acc = acc.wrapping_mul(10).wrapping_add(d);
                    proof {
                        k = k + 1;
                    }
                },
                None => {
                    proof {
                        assert(run_len(t.skip(k)) == 0);
                    }
                    open = false;
                },
            }
        }
        proof {
            if open {
                assert(t.skip(k).len() == 0);
                assert(run_len(t.skip(k)) == 0);
            }
        }
        acc
    }

    /// Reads a counted string: a number, then as many characters as it
    /// says, or all that are left if there are fewer.
    pub fn read_string(&mut self) -> (out: String)
        ensures
            (out@, final(self)@) == string_read(old(self)@),
    {
        let cap = self.read_number();
        let ghost t = self.inner@;
        let mut out = String::new();
        let mut i: u64 = 0;
        while i < cap && self.inner.len() > 0
            invariant
                0 <= i <= cap,
                i <= t.len(),
                out@ == t.take(i as int),
                self.inner@ == t.skip(i as int),
            decreases cap - i,
        {
            let c = self.inner.pop_front().unwrap();
            out.push(c);
            i = i + 1;
        }
        out
    }
}

} // verus!

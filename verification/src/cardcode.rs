//! Card codes: a number of up to five digits and an optional trailing
//! lower-case letter, as in `01104` or `02214b`.

use vstd::prelude::*;
use std::cmp::Ordering;
use crate::text::{chars_of, push_char, split, split_char, find, find_char, lemma_find_char};

verus! {

/// A card code: its number and the byte of its trailing letter (0 when
/// there is none).
#[derive(Debug, Clone, Copy, PartialEq, Eq, Structural, Hash, PartialOrd, Ord)]
pub struct Code {
    pub number: u16,
    pub letter: u8,
}

/// The code that `i64` gives back from `val` through [`Code::from`].
pub open spec fn code_of_i64(val: int) -> Code {
    Code { number: (val % 65536) as u16, letter: ((val / 65536) % 256) as u8 }
}

/// Whether a character ends a code as its letter: its code point shifted
/// right by five bits is three (code points 96 to 127).
pub open spec fn is_letter_char(c: char) -> bool {
    96 <= (c as u32) && (c as u32) < 128
}

/// Every character of `s` is ASCII.
pub open spec fn all_ascii(s: Seq<char>) -> bool {
    forall|i: int| 0 <= i < s.len() ==> (#[trigger] s[i] as u32) < 128
}

/// The letter byte of a code string.
pub open spec fn code_letter(s: Seq<char>) -> u8 {
    if s.len() > 0 && is_letter_char(s.last()) {
        s.last() as u32 as u8
    } else {
        0
    }
}

/// The characters of a code string that make up its number.
pub open spec fn code_digits(s: Seq<char>) -> Seq<char> {
    if s.len() > 0 && is_letter_char(s.last()) {
        s.drop_last()
    } else {
        s
    }
}

/// Decimal value of a digit string, each character counting for its code
/// point minus that of `'0'`.
pub open spec fn digits_value(d: Seq<char>) -> int
    decreases d.len(),
{
    if d.len() == 0 {
        0
    } else {
        digits_value(d.drop_last()) * 10 + ((d.last() as u32) - 48)
    }
}

/// A string that `Code::from_str` reads without panicking: ASCII, no
/// number character below `'0'`, and a number that fits in 16 bits.
pub open spec fn valid_code_str(s: Seq<char>) -> bool {
    &&& all_ascii(s)
    &&& forall|i: int| 0 <= i < code_digits(s).len() ==> (#[trigger] code_digits(s)[i] as u32) >= 48
    &&& digits_value(code_digits(s)) <= 65535
}

/// The code that a valid code string denotes.
pub open spec fn code_of_str(s: Seq<char>) -> Code {
    Code { number: digits_value(code_digits(s)) as u16, letter: code_letter(s) }
}

/// `a` comes before `b`: by number, then by letter.
pub open spec fn code_lt(a: Code, b: Code) -> bool {
    a.number < b.number || (a.number == b.number && a.letter < b.letter)
}

/// Zero-padded five-digit rendering of a number below 100000.
pub open spec fn pad5(n: int) -> Seq<char> {
    seq![
        digit_char(n / 10000 % 10),
        digit_char(n / 1000 % 10),
        digit_char(n / 100 % 10),
        digit_char(n / 10 % 10),
        digit_char(n % 10),
    ]
}

/// The decimal digit character of `d` (0 to 9).
pub open spec fn digit_char(d: int) -> char {
    (d + 48) as char
}

/// How a code is displayed: five digits, then, for a letter byte `l`
/// other than 0, the character `3 | l`.
pub open spec fn code_text(c: Code) -> Seq<char> {
    if c.letter > 0 {
        pad5(c.number as int).push((3u8 | c.letter) as char)
    } else {
        pad5(c.number as int)
    }
}

/// Codes `lo..=hi` with one letter.
pub open spec fn code_run(lo: int, hi: int, letter: u8) -> Seq<Code> {
    Seq::new((hi - lo + 1) as nat, |i: int| Code { number: (lo + i) as u16, letter })
}

/// What `Code::from_range` reads from a string.
pub open spec fn range_codes(s: Seq<char>) -> Seq<Code> {
    let i = find_char(s, '-');
    if i < 0 {
        seq![code_of_str(s)]
    } else {
        let a = code_of_str(s.take(i));
        let b = code_of_str(s.skip(i + 1));
        let lo = if a.number <= b.number { a.number } else { b.number };
        let hi = if a.number <= b.number { b.number } else { a.number };
        code_run(lo as int, hi as int, a.letter)
    }
}

/// A string that `Code::from_range` reads without panicking.
pub open spec fn valid_range_str(s: Seq<char>) -> bool {
    let i = find_char(s, '-');
    if i < 0 {
        valid_code_str(s)
    } else {
        &&& valid_code_str(s.take(i))
        &&& valid_code_str(s.skip(i + 1))
        &&& code_letter(s.take(i)) == code_letter(s.skip(i + 1))
    }
}

/// What `Code::from_list` reads from a space-separated list of ranges.
pub open spec fn list_codes(pieces: Seq<Seq<char>>) -> Seq<Code>
    decreases pieces.len(),
{
    if pieces.len() == 0 {
        Seq::empty()
    } else {
        list_codes(pieces.drop_last()) + range_codes(pieces.last())
    }
}

proof fn lemma_digits_value_prefix(d: Seq<char>, k: int)
    requires
        0 <= k <= d.len(),
        forall|i: int| 0 <= i < d.len() ==> (#[trigger] d[i] as u32) >= 48,
    ensures
        0 <= digits_value(d.take(k)) <= digits_value(d),
    decreases d.len(),
{
    if d.len() > 0 {
        if k == d.len() {
            assert(d.take(k) =~= d);
            lemma_digits_value_prefix(d.drop_last(), d.len() - 1);
            assert(d.drop_last().take(d.len() - 1) =~= d.drop_last());
        } else {
            lemma_digits_value_prefix(d.drop_last(), k);
            assert(d.drop_last().take(k) =~= d.take(k));
            lemma_digits_value_prefix(d.drop_last(), d.len() - 1);
            assert(d.drop_last().take(d.len() - 1) =~= d.drop_last());
        }
    }
}

proof fn lemma_letter_shift(x: u32)
    ensures
        (x >> 5u32 == 3u32) == (96 <= x && x < 128),
{
    assert((x >> 5u32 == 3u32) == (96 <= x && x < 128)) by (bit_vector);
}

impl Code {
    /// The code packed into an integer: the number in the low 16 bits and
    /// the letter byte above it.
    pub fn i64(self) -> (res: i64)
        ensures
            res == self.number + self.letter * 65536,
    {
        let n: u16 = self.number;
        let l: u8 = self.letter;
        let r: i64 = (n as i64) | ((l as i64) << 16u32);
        assert((n as i64) | ((l as i64) << 16u32) == (n as i64) + (l as i64) * 65536) by (bit_vector);
        r
    }

    /// Reads a code from text such as `01104` or `02214b`.
    pub fn from_str(val: &str) -> (res: Code)
        requires
            valid_code_str(val@),
        ensures
            res == code_of_str(val@),
    {
        let chars = chars_of(val);
        Self::from_chars(&chars)
    }

    /// Reads a code from its characters, or `None` where `from_str` would
    /// fail: a character that is not ASCII, a number character below `'0'`,
    /// or a number above 65535.
    pub fn parse_chars(chars: &[char]) -> (res: Option<Code>)
        ensures
            res is Some <==> valid_code_str(chars@),
            res matches Some(c) ==> c == code_of_str(chars@),
    {
        let ghost s = chars@;
        let mut i: usize = 0;
        while i < chars.len()
            invariant
                i <= chars@.len(),
                forall|j: int| 0 <= j < i ==> (#[trigger] chars@[j] as u32) < 128,
            decreases chars@.len() - i,
        {
            if (chars[i] as u32) >= 128 {
                return None;
            }
            i = i + 1;
        }
        assert(all_ascii(s));
        let mut len: usize = chars.len();
        if len > 0 {
            let code: u32 = chars[len - 1] as u32;
            proof { lemma_letter_shift(code); }
            if code >> 5u32 == 3u32 {
                len = len - 1;
            }
        }
        let ghost digits = code_digits(s);
        assert(digits =~= s.take(len as int));
        let mut value: u32 = 0;
        let mut k: usize = 0;
        while k < len
            invariant
                len <= chars@.len(),
                digits == s.take(len as int),
                digits == code_digits(s),
                s == chars@,
                all_ascii(s),
                k <= len,
                forall|j: int| 0 <= j < k ==> (#[trigger] digits[j] as u32) >= 48,
                value as int == digits_value(digits.take(k as int)),
                value <= 65535,
            decreases len - k,
        {
            let c: u32 = chars[k] as u32;
            assert(digits[k as int] == chars@[k as int]);
            assert(c < 128);
            if c < 48 {
                return None;
            }
            proof {
                assert(digits.take(k + 1).drop_last() =~= digits.take(k as int));
                assert(digits.take(k + 1).last() == digits[k as int]);
            }
            let nv: u32 = value * 10 + (c - 48);
            if nv > 65535 {
                proof {
                    if forall|j: int| 0 <= j < digits.len() ==> (#[trigger] digits[j] as u32) >= 48 {
                        lemma_digits_value_prefix(digits, k + 1);
                    }
                }
                return None;
            }
            value = nv;
            k = k + 1;
        }
        assert(digits.take(len as int) =~= digits);
        Some(Self::from_chars(chars))
    }

    fn from_chars(chars: &[char]) -> (res: Code)
        requires
            valid_code_str(chars@),
        ensures
            res == code_of_str(chars@),
    {
        let ghost s = chars@;
        let mut letter: u8 = 0;
        let mut len: usize = chars.len();
        if len > 0 {
            let last = chars[len - 1];
            let code: u32 = last as u32;
            proof { lemma_letter_shift(code); }
            if code >> 5u32 == 3u32 {
                letter = code as u8;
                len = len - 1;
            }
        }
        let ghost digits = code_digits(s);
        assert(digits =~= s.take(len as int));
        let mut number: u16 = 0;
        let mut i: usize = 0;
        while i < len
            invariant
                len <= chars@.len(),
                chars@ == s,
                digits == s.take(len as int),
                digits == code_digits(s),
                valid_code_str(s),
                i <= len,
                number as int == digits_value(digits.take(i as int)),
            decreases len - i,
        {
            proof {
                lemma_digits_value_prefix(digits, i + 1);
                assert(digits.take(i + 1).drop_last() =~= digits.take(i as int));
                assert(digits[i as int] == chars@[i as int]);
                assert((digits[i as int] as u32) < 128);
                assert((digits[i as int] as u32) >= 48);
            }
            let c: u32 = chars[i] as u32;
            let d: u8 = (c as u8) - 48u8;
            assert(digits.take(i + 1).last() == digits[i as int]);
            assert(digits_value(digits.take(i + 1)) == digits_value(digits.take(i as int)) * 10 + (d as int));
            assert(digits_value(digits.take(i + 1)) <= 65535);
            number = number * 10 + (d as u16);
            i = i + 1;
        }
        assert(digits.take(len as int) =~= digits);
        Code { number, letter }
    }

    /// Reads either one code or an inclusive range such as `01104-01107`,
    /// whose two ends must carry the same letter.
    pub fn from_range(val: &str) -> (res: Vec<Code>)
        requires
            valid_range_str(val@),
        ensures
            res@ == range_codes(val@),
    {
        let chars = chars_of(val);
        Self::range_from_chars(&chars)
    }

    fn range_from_chars(chars: &[char]) -> (res: Vec<Code>)
        requires
            valid_range_str(chars@),
        ensures
            res@ == range_codes(chars@),
    {
        let ghost s = chars@;
        proof { lemma_find_char(s, '-'); }
        match find(chars, '-') {
            None => {
                let c = Self::from_chars(chars);
                let mut v: Vec<Code> = Vec::new();
                v.push(c);
                assert(v@ =~= seq![code_of_str(s)]);
                v
            },
            Some(i) => {
                let n: usize = chars.len();
                assert(i < n);
                let front = slice_take(chars, i);
                let back = slice_skip(chars, i + 1);
                let start = Self::from_chars(front);
                let end = Self::from_chars(back);
                let lo: u16 = if start.number <= end.number { start.number } else { end.number };
                let hi: u16 = if start.number <= end.number { end.number } else { start.number };
                let mut v: Vec<Code> = Vec::new();
                let mut n: u32 = lo as u32;
                while n <= hi as u32
                    invariant
                        lo <= n <= hi as u32 + 1,
                        v@ == code_run(lo as int, n - 1, start.letter),
                    decreases hi as u32 + 1 - n,
                {
                    v.push(Code { number: n as u16, letter: start.letter });
                    n = n + 1;
                    assert(v@ =~= code_run(lo as int, n - 1, start.letter));
                }
                v
            },
        }
    }

    /// Reads a space-separated list of codes and ranges.
    pub fn from_list(val: &str) -> (res: Vec<Code>)
        requires
            forall|i: int| 0 <= i < split_char(val@, ' ').len() ==> valid_range_str(#[trigger] split_char(val@, ' ')[i]),
        ensures
            res@ == list_codes(split_char(val@, ' ')),
    {
        let chars = chars_of(val);
        let pieces = split(&chars, ' ');
        let ghost ps = split_char(val@, ' ');
        let mut res: Vec<Code> = Vec::new();
        let mut i: usize = 0;
        while i < pieces.len()
            invariant
                pieces@.map_values(|v: Vec<char>| v@) == ps,
                forall|k: int| 0 <= k < ps.len() ==> valid_range_str(#[trigger] ps[k]),
                i <= pieces@.len(),
                res@ == list_codes(ps.take(i as int)),
            decreases pieces@.len() - i,
        {
            assert(ps[i as int] == pieces@[i as int]@);
            let mut more = Self::range_from_chars(pieces[i].as_slice());
            res.append(&mut more);
            proof {
                assert(ps.take(i + 1).drop_last() =~= ps.take(i as int));
            }
            i = i + 1;
        }
        assert(ps.take(pieces@.len() as int) =~= ps);
        res
    }

    /// The code packed into `val` by [`Code::i64`]: the low 16 bits are
    /// the number and the next 8 the letter.
    pub fn from(val: i64) -> (res: Code)
        ensures
            res == code_of_i64(val as int),
    {
        let number: u16 = (val & 0xffffi64) as u16;
        let letter: u8 = ((val >> 16u32) & 0xffi64) as u8;
        assert((val & 0xffffi64) as int == (val as int) % 65536) by (bit_vector);
        assert(((val >> 16u32) & 0xffi64) as int == ((val as int) / 65536) % 256) by (bit_vector);
        Code { number, letter }
    }

    /// Whether `self` comes before `other`: by number, then by letter.
    pub fn lt(&self, other: &Code) -> (res: bool)
        ensures
            res == code_lt(*self, *other),
    {
        self.number < other.number || (self.number == other.number && self.letter < other.letter)
    }

    /// Compares two codes by number, then by letter.
    pub fn compare(&self, other: &Code) -> (res: Ordering)
        ensures
            res == Ordering::Less <==> code_lt(*self, *other),
            res == Ordering::Greater <==> code_lt(*other, *self),
            res == Ordering::Equal <==> *self == *other,
    {
        if self.number < other.number {
            Ordering::Less
        } else if self.number > other.number {
            Ordering::Greater
        } else if self.letter < other.letter {
            Ordering::Less
        } else if self.letter > other.letter {
            Ordering::Greater
        } else {
            Ordering::Equal
        }
    }

    /// The code as displayed: five zero-padded digits, then the character
    /// `3 | letter` when the letter byte is not 0.
    pub fn to_string(&self) -> (res: String)
        ensures
            res@ == code_text(*self),
    {
        let n: u16 = self.number;
        let mut s = String::new();
        push_char(&mut s, digit(n / 10000 % 10));
        push_char(&mut s, digit(n / 1000 % 10));
        push_char(&mut s, digit(n / 100 % 10));
        push_char(&mut s, digit(n / 10 % 10));
        push_char(&mut s, digit(n % 10));
        assert(s@ =~= pad5(n as int));
        if self.letter > 0 {
            let b: u8 = 3u8 | self.letter;
            push_char(&mut s, b as char);
        }
        s
    }
}

fn digit(d: u16) -> (c: char)
    requires
        d < 10,
    ensures
        c == digit_char(d as int),
{
    let b: u8 = (d as u8) + 48u8;
    b as char
}

fn slice_take(cs: &[char], n: usize) -> (res: &[char])
    requires
        n <= cs@.len(),
    ensures
        res@ == cs@.take(n as int),
{
    cs.split_at(n).0
}

fn slice_skip(cs: &[char], n: usize) -> (res: &[char])
    requires
        n <= cs@.len(),
    ensures
        res@ == cs@.skip(n as int),
{
    cs.split_at(n).1
}

/// Reading back a code from its integer gives the code.
pub proof fn lemma_code_i64_roundtrip(c: Code)
    ensures
        code_of_i64(c.number + c.letter * 65536) == c,
{
    let v: int = c.number + c.letter * 65536;
    assert(v % 65536 == c.number as int) by (nonlinear_arith)
        requires v == c.number + c.letter * 65536, 0 <= c.number < 65536, 0 <= c.letter;
    assert(v / 65536 == c.letter as int) by (nonlinear_arith)
        requires v == c.number + c.letter * 65536, 0 <= c.number < 65536, 0 <= c.letter;
}

} // verus!

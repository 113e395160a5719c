//! Character-level text utilities: splitting, trimming, number rendering.

use vstd::prelude::*;

verus! {

/// Appends one character to a `String` (std's `String::push`).
#[verifier::external_body]
pub(crate) fn push_char(s: &mut String, c: char)
    ensures
        final(s)@ == old(s)@.push(c),
{
    s.push(c);
}

/// What std's `str::escape_debug` makes of a string (the characters of
/// `s.escape_debug().to_string()`).
pub uninterp spec fn escaped(s: Seq<char>) -> Seq<char>;

/// std's `str::escape_debug`, collected into a `String`.  Its result is
/// named by [`escaped`]; nothing more is claimed of it.
#[verifier::external_body]
pub(crate) fn escape_debug(s: &str) -> (res: String)
    ensures
        res@ == escaped(s@),
{
    s.escape_debug().to_string()
}

/// The characters of a string slice, in order.
pub fn chars_of(s: &str) -> (res: Vec<char>)
    ensures
        res@ == s@,
{
    let mut res: Vec<char> = Vec::new();
    for c in it: s.chars()
        invariant
            res@ == it.seq().take(it.index() as int),
    {
        res.push(c);
    }
    res
}

/// A `String` holding exactly the given characters.
pub fn string_of(cs: &[char]) -> (res: String)
    ensures
        res@ == cs@,
{
    let mut res = String::new();
    let mut i: usize = 0;
    while i < cs.len()
        invariant
            i <= cs@.len(),
            res@ == cs@.take(i as int),
        decreases cs@.len() - i,
    {
        push_char(&mut res, cs[i]);
        i = i + 1;
        assert(res@ =~= cs@.take(i as int));
    }
    assert(cs@.take(cs@.len() as int) =~= cs@);
    res
}

/// Appends a string slice to a `String`.
pub fn push_str(buf: &mut String, s: &str)
    ensures
        final(buf)@ == old(buf)@ + s@,
{
    buf.append(s);
}

/// Appends characters to a `String`.
pub fn push_chars(buf: &mut String, cs: &[char])
    ensures
        final(buf)@ == old(buf)@ + cs@,
{
    let ghost start = buf@;
    let mut i: usize = 0;
    while i < cs.len()
        invariant
            i <= cs@.len(),
            buf@ == start + cs@.take(i as int),
        decreases cs@.len() - i,
    {
        push_char(buf, cs[i]);
        i = i + 1;
        assert(buf@ =~= start + cs@.take(i as int));
    }
    assert(cs@.take(cs@.len() as int) =~= cs@);
}

/// Index of the first occurrence of `c` in `s`, or -1.
pub open spec fn find_char(s: Seq<char>, c: char) -> int
    decreases s.len(),
{
    if s.len() == 0 {
        -1
    } else if s[0] == c {
        0
    } else {
        let r = find_char(s.drop_first(), c);
        if r < 0 {
            -1
        } else {
            r + 1
        }
    }
}

pub proof fn lemma_find_char(s: Seq<char>, c: char)
    ensures
        -1 <= find_char(s, c) < s.len(),
        find_char(s, c) >= 0 ==> s[find_char(s, c)] == c,
        forall|j: int| 0 <= j < s.len() && (find_char(s, c) < 0 || j < find_char(s, c)) ==> s[j] != c,
    decreases s.len(),
{
    if s.len() > 0 {
        lemma_find_char(s.drop_first(), c);
        assert forall|j: int| 0 <= j < s.len() && (find_char(s, c) < 0 || j < find_char(s, c)) implies s[j] != c by {
            if j > 0 {
                assert(s.drop_first()[j - 1] == s[j]);
            }
        }
    }
}

/// Pieces of `s` between occurrences of `c` (std's `str::split` with a
/// character pattern).
pub open spec fn split_char(s: Seq<char>, c: char) -> Seq<Seq<char>>
    decreases s.len(),
{
    let i = find_char(s, c);
    if i < 0 || i >= s.len() {
        seq![s]
    } else {
        seq![s.take(i)] + split_char(s.skip(i + 1), c)
    }
}

/// Position of the first `c` in `cs`, if any.
pub fn find(cs: &[char], c: char) -> (res: Option<usize>)
    ensures
        match res {
            Some(i) => i == find_char(cs@, c),
            None => find_char(cs@, c) < 0,
        },
{
    proof { lemma_find_char(cs@, c); }
    let mut i: usize = 0;
    while i < cs.len()
        invariant
            i <= cs@.len(),
            forall|j: int| 0 <= j < i ==> cs@[j] != c,
            -1 <= find_char(cs@, c) < cs@.len(),
            find_char(cs@, c) >= 0 ==> cs@[find_char(cs@, c)] == c,
            forall|j: int| 0 <= j < cs@.len() && (find_char(cs@, c) < 0 || j < find_char(cs@, c)) ==> cs@[j] != c,
        decreases cs@.len() - i,
    {
        if cs[i] == c {
            return Some(i);
        }
        i = i + 1;
    }
    None
}

/// Splits `cs` at every `c` (std's `str::split` with a character pattern).
pub fn split(cs: &[char], c: char) -> (res: Vec<Vec<char>>)
    ensures
        res@.map_values(|v: Vec<char>| v@) == split_char(cs@, c),
{
    let mut res: Vec<Vec<char>> = Vec::new();
    let mut start: usize = 0;
    let mut i: usize = 0;
    let mut piece: Vec<char> = Vec::new();
    assert(cs@.skip(0) =~= cs@);
    assert(res@.map_values(|v: Vec<char>| v@) =~= Seq::<Seq<char>>::empty());
    assert(piece@ =~= cs@.subrange(0, 0));
    while i < cs.len()
        invariant
            start <= i <= cs@.len(),
            piece@ == cs@.subrange(start as int, i as int),
            forall|j: int| start <= j < i ==> cs@[j] != c,
            split_char(cs@, c) == res@.map_values(|v: Vec<char>| v@) + split_char(cs@.skip(start as int), c),
        decreases cs@.len() - i,
    {
        if cs[i] == c {
            proof {
                let rest = cs@.skip(start as int);
                lemma_find_char(rest, c);
                assert forall|j: int| 0 <= j < i - start implies rest[j] != c by {
                    assert(rest[j] == cs@[start + j]);
                }
                assert(rest[i - start] == c);
                assert(find_char(rest, c) == i - start);
                assert(rest.take(i - start) =~= piece@);
                assert(rest.skip(i - start + 1) =~= cs@.skip(i + 1));
            }
            let ghost old_res = res@;
            res.push(piece);
            proof {
                assert(res@.map_values(|v: Vec<char>| v@) =~= old_res.map_values(|v: Vec<char>| v@).push(cs@.subrange(start as int, i as int)));
            }
            piece = Vec::new();
            start = i + 1;
        } else {
            piece.push(cs[i]);
        }
        i = i + 1;
        proof {
            assert(piece@ =~= cs@.subrange(start as int, i as int));
        }
    }
    proof {
        let rest = cs@.skip(start as int);
        lemma_find_char(rest, c);
        assert forall|j: int| 0 <= j < rest.len() implies rest[j] != c by {
            assert(rest[j] == cs@[start + j]);
        }
        assert(find_char(rest, c) < 0);
        assert(rest =~= piece@);
    }
    let ghost old_res = res@;
    res.push(piece);
    proof {
        assert(res@.map_values(|v: Vec<char>| v@) =~= old_res.map_values(|v: Vec<char>| v@).push(piece@));
    }
    res
}

/// Unicode `White_Space`, the set that std's `char::is_whitespace` tests.
pub open spec fn is_ws(c: char) -> bool {
    let u = c as u32;
    ||| 0x09 <= u <= 0x0d
    ||| u == 0x20
    ||| u == 0x85
    ||| u == 0xa0
    ||| u == 0x1680
    ||| 0x2000 <= u <= 0x200a
    ||| u == 0x2028
    ||| u == 0x2029
    ||| u == 0x202f
    ||| u == 0x205f
    ||| u == 0x3000
}

/// `s` without its leading white space.
pub open spec fn trim_start(s: Seq<char>) -> Seq<char>
    decreases s.len(),
{
    if s.len() > 0 && is_ws(s[0]) {
        trim_start(s.drop_first())
    } else {
        s
    }
}

/// `s` without its trailing white space.
pub open spec fn trim_end(s: Seq<char>) -> Seq<char>
    decreases s.len(),
{
    if s.len() > 0 && is_ws(s.last()) {
        trim_end(s.drop_last())
    } else {
        s
    }
}

/// `s` without leading and trailing white space (std's `str::trim`).
pub open spec fn trim(s: Seq<char>) -> Seq<char> {
    trim_end(trim_start(s))
}

/// Whether `c` is white space.
pub fn is_whitespace(c: char) -> (res: bool)
    ensures
        res == is_ws(c),
{
    let u: u32 = c as u32;
    (0x09 <= u && u <= 0x0d) || u == 0x20 || u == 0x85 || u == 0xa0 || u == 0x1680
        || (0x2000 <= u && u <= 0x200a) || u == 0x2028 || u == 0x2029 || u == 0x202f
        || u == 0x205f || u == 0x3000
}

proof fn lemma_trim_start_skip(s: Seq<char>, k: int)
    requires
        0 <= k <= s.len(),
        forall|j: int| 0 <= j < k ==> is_ws(#[trigger] s[j]),
    ensures
        trim_start(s) == trim_start(s.skip(k)),
    decreases k,
{
    if k > 0 {
        assert(s.drop_first().skip(k - 1) =~= s.skip(k));
        assert forall|j: int| 0 <= j < k - 1 implies is_ws(#[trigger] s.drop_first()[j]) by {
            assert(s.drop_first()[j] == s[j + 1]);
        }
        lemma_trim_start_skip(s.drop_first(), k - 1);
    } else {
        assert(s.skip(0) =~= s);
    }
}

proof fn lemma_trim_end_take(s: Seq<char>, k: int)
    requires
        0 <= k <= s.len(),
        forall|j: int| k <= j < s.len() ==> is_ws(#[trigger] s[j]),
    ensures
        trim_end(s) == trim_end(s.take(k)),
    decreases s.len() - k,
{
    if k < s.len() {
        assert(s.drop_last().take(k) =~= s.take(k));
        assert forall|j: int| k <= j < s.len() - 1 implies is_ws(#[trigger] s.drop_last()[j]) by {
            assert(s.drop_last()[j] == s[j]);
        }
        lemma_trim_end_take(s.drop_last(), k);
    } else {
        assert(s.take(k) =~= s);
    }
}

/// `cs` without leading and trailing white space.
pub fn trim_chars(cs: &[char]) -> (res: Vec<char>)
    ensures
        res@ == trim(cs@),
{
    let n: usize = cs.len();
    let mut a: usize = 0;
    while a < n && is_whitespace(cs[a])
        invariant
            n == cs@.len(),
            a <= n,
            forall|j: int| 0 <= j < a ==> is_ws(#[trigger] cs@[j]),
        decreases n - a,
    {
        a = a + 1;
    }
    proof { lemma_trim_start_skip(cs@, a as int); }
    let ghost rest = cs@.skip(a as int);
    assert(trim_start(rest) == rest) by {
        if rest.len() > 0 {
            assert(rest[0] == cs@[a as int]);
        }
    }
    let mut b: usize = n;
    while b > a && is_whitespace(cs[b - 1])
        invariant
            n == cs@.len(),
            a <= b <= n,
            rest == cs@.skip(a as int),
            forall|j: int| b - a <= j < rest.len() ==> is_ws(#[trigger] rest[j]),
        decreases b,
    {
        assert(rest[b - 1 - a] == cs@[b - 1]);
        b = b - 1;
    }
    proof { lemma_trim_end_take(rest, b - a); }
    let ghost kept = rest.take(b - a);
    assert(trim_end(kept) == kept) by {
        if kept.len() > 0 {
            assert(kept.last() == cs@[b - 1]);
        }
    }
    let mut res: Vec<char> = Vec::new();
    let mut i: usize = a;
    while i < b
        invariant
            n == cs@.len(),
            a <= i <= b <= n,
            res@ == cs@.subrange(a as int, i as int),
        decreases b - i,
    {
        res.push(cs[i]);
        i = i + 1;
        assert(res@ =~= cs@.subrange(a as int, i as int));
    }
    assert(res@ =~= kept);
    res
}

/// The parts joined with `sep` between neighbours (std's `join`).
pub open spec fn join(parts: Seq<Seq<char>>, sep: Seq<char>) -> Seq<char>
    decreases parts.len(),
{
    if parts.len() == 0 {
        Seq::empty()
    } else if parts.len() == 1 {
        parts[0]
    } else {
        join(parts.drop_last(), sep) + sep + parts.last()
    }
}

/// The views of some strings.
pub open spec fn views(v: Seq<String>) -> Seq<Seq<char>> {
    v.map_values(|s: String| s@)
}

/// The strings joined with `sep` between neighbours.
pub fn join_strings(parts: &Vec<String>, sep: &str) -> (res: String)
    ensures
        res@ == join(views(parts@), sep@),
{
    let ghost ps = views(parts@);
    let mut res = String::new();
    let mut i: usize = 0;
    while i < parts.len()
        invariant
            ps == views(parts@),
            i <= parts@.len(),
            res@ == join(ps.take(i as int), sep@),
        decreases parts@.len() - i,
    {
        if i > 0 {
            push_str(&mut res, sep);
        }
        push_str(&mut res, parts[i].as_str());
        proof {
            assert(ps.take(i + 1).drop_last() =~= ps.take(i as int));
            assert(ps[i as int] == parts@[i as int]@);
            if i == 0 {
                assert(ps.take(0) =~= Seq::<Seq<char>>::empty());
                assert(res@ =~= ps[0]);
            }
        }
        i = i + 1;
    }
    assert(ps.take(parts@.len() as int) =~= ps);
    res
}

/// Decimal digits of a natural number.
pub open spec fn dec(n: nat) -> Seq<char>
    decreases n,
{
    if n < 10 {
        seq![((n + 48) as u32) as char]
    } else {
        dec(n / 10).push((((n % 10) + 48) as u32) as char)
    }
}

/// Decimal rendering of an integer, with a leading `-` when negative
/// (what `{}` prints for integers).
pub open spec fn int_text(i: int) -> Seq<char> {
    if i < 0 {
        seq!['-'] + dec((-i) as nat)
    } else {
        dec(i as nat)
    }
}

fn digit_of(d: u64) -> (c: char)
    requires
        d < 10,
    ensures
        c == (((d + 48) as u32) as char),
{
    let b: u8 = (d as u8) + 48u8;
    b as char
}

fn push_dec(buf: &mut String, n: u64)
    ensures
        final(buf)@ == old(buf)@ + dec(n as nat),
    decreases n,
{
    if n < 10 {
        push_char(buf, digit_of(n));
        assert(dec(n as nat) =~= seq![(((n + 48) as u32) as char)]);
    } else {
        push_dec(buf, n / 10);
        push_char(buf, digit_of(n % 10));
        assert(dec(n as nat) == dec((n / 10) as nat).push((((n % 10) + 48) as u32) as char));
    }
}

/// Appends the decimal rendering of `n`.
pub fn push_i64(buf: &mut String, n: i64)
    ensures
        final(buf)@ == old(buf)@ + int_text(n as int),
{
    if n < 0 {
        push_char(buf, '-');
        let m: i128 = 0i128 - (n as i128);
        let mu: u64 = m as u64;
        push_dec(buf, mu);
        assert(int_text(n as int) =~= seq!['-'] + dec(mu as nat));
    } else {
        push_dec(buf, n as u64);
    }
}

/// Appends the decimal rendering of `n`.
pub fn push_usize(buf: &mut String, n: usize)
    ensures
        final(buf)@ == old(buf)@ + int_text(n as int),
{
    push_dec(buf, n as u64);
}

/// `s` with every occurrence of `from` replaced by `to`, scanning left to
/// right (std's `str::replace` with a non-empty pattern).
pub open spec fn replace_all(s: Seq<char>, from: Seq<char>, to: Seq<char>) -> Seq<char>
    decreases s.len(),
{
    if s.len() == 0 || from.len() == 0 {
        s
    } else if from.len() <= s.len() && s.take(from.len() as int) == from {
        to + replace_all(s.skip(from.len() as int), from, to)
    } else {
        seq![s[0]] + replace_all(s.drop_first(), from, to)
    }
}

/// `s` with every occurrence of `from` replaced by `to`.
pub fn replace(s: &str, from: &str, to: &str) -> (res: String)
    requires
        from@.len() > 0,
    ensures
        res@ == replace_all(s@, from@, to@),
{
    let cs = chars_of(s);
    let pat = chars_of(from);
    let mut res = String::new();
    let mut i: usize = 0;
    assert(cs@.skip(0) =~= cs@);
    assert(res@ + replace_all(cs@.skip(0), from@, to@) =~= replace_all(s@, from@, to@));
    while i < cs.len()
        invariant
            cs@ == s@,
            pat@ == from@,
            pat@.len() > 0,
            i <= cs@.len(),
            res@ + replace_all(cs@.skip(i as int), from@, to@) == replace_all(s@, from@, to@),
        decreases cs@.len() - i,
    {
        let ghost rest = cs@.skip(i as int);
        let n: usize = cs.len();
        let mut matched = pat.len() <= n - i;
        let mut k: usize = 0;
        while matched && k < pat.len()
            invariant
                cs@ == s@,
                pat@ == from@,
                i < cs@.len(),
                rest == cs@.skip(i as int),
                n == cs@.len(),
                k <= pat@.len(),
                matched ==> pat@.len() <= rest.len(),
                matched ==> forall|j: int| 0 <= j < k ==> rest[j] == pat@[j],
                !matched ==> !(pat@.len() <= rest.len() && rest.take(pat@.len() as int) == pat@),
            decreases pat@.len() - k,
        {
            assert(rest.len() == cs@.len() - i);
            assert(i + k < cs@.len());
            if cs[i + k] != pat[k] {
                matched = false;
                assert(rest.take(pat@.len() as int)[k as int] != pat@[k as int]);
            }
            k = k + 1;
        }
        if matched {
            assert(rest.take(pat@.len() as int) =~= pat@);
            push_str(&mut res, to);
            assert(rest.skip(pat@.len() as int) =~= cs@.skip(i + pat@.len()));
            assert(replace_all(rest, from@, to@) == to@ + replace_all(cs@.skip(i + pat@.len()), from@, to@));
            assert(res@ + replace_all(cs@.skip(i + pat@.len()), from@, to@) =~= replace_all(s@, from@, to@));
            i = i + pat.len();
        } else {
            push_char(&mut res, cs[i]);
            assert(rest.drop_first() =~= cs@.skip(i + 1));
            assert(replace_all(rest, from@, to@) == seq![rest[0]] + replace_all(cs@.skip(i + 1), from@, to@));
            assert(res@ + replace_all(cs@.skip(i + 1), from@, to@) =~= replace_all(s@, from@, to@));
            i = i + 1;
        }
    }
    assert(replace_all(cs@.skip(i as int), from@, to@) =~= Seq::<char>::empty());
    assert(res@ + Seq::<char>::empty() =~= res@);
    res
}

/// Decimal value of a string of digit characters.
pub open spec fn digits_num(d: Seq<char>) -> int
    decreases d.len(),
{
    if d.len() == 0 {
        0
    } else {
        digits_num(d.drop_last()) * 10 + ((d.last() as u32) - 48)
    }
}

/// Every character is a decimal digit.
pub open spec fn all_digits(d: Seq<char>) -> bool {
    forall|i: int| 0 <= i < d.len() ==> '0' <= #[trigger] d[i] && d[i] <= '9'
}

/// What std's `str::parse::<i64>` gives: an optional `+` or `-`, then one or
/// more digits, with a value that fits in 64 bits.
pub open spec fn parse_i64_spec(s: Seq<char>) -> Option<i64> {
    let signed = s.len() > 0 && (s[0] == '-' || s[0] == '+');
    let d = if signed { s.drop_first() } else { s };
    let v = if s.len() > 0 && s[0] == '-' { -digits_num(d) } else { digits_num(d) };
    if d.len() == 0 || !all_digits(d) || v < i64::MIN || v > i64::MAX {
        None
    } else {
        Some(v as i64)
    }
}

proof fn lemma_dec_digits(n: nat)
    ensures
        dec(n).len() > 0,
        all_digits(dec(n)),
        digits_num(dec(n)) == n,
    decreases n,
{
    if n < 10 {
        let c = ((n + 48) as u32) as char;
        assert(c as u32 == n + 48);
        assert(dec(n).drop_last() =~= Seq::<char>::empty());
        assert(dec(n).last() == c);
        assert(digits_num(dec(n)) == digits_num(dec(n).drop_last()) * 10 + ((c as u32) - 48));
    } else {
        lemma_dec_digits(n / 10);
        let c = ((((n % 10) + 48) as u32) as char);
        assert(c as u32 == (n % 10) + 48);
        assert(dec(n).drop_last() =~= dec(n / 10));
        assert(dec(n).last() == c);
        assert(n == (n / 10) * 10 + n % 10) by (nonlinear_arith);
        assert(digits_num(dec(n)) == digits_num(dec(n).drop_last()) * 10 + ((c as u32) - 48));
        assert forall|i: int| 0 <= i < dec(n).len() implies '0' <= #[trigger] dec(n)[i] && dec(n)[i] <= '9' by {
            if i < dec(n / 10).len() {
                assert(dec(n)[i] == dec(n / 10)[i]);
            }
        }
    }
}

/// Reading back the text of an integer gives the integer.
pub proof fn lemma_int_text_parses(x: i64)
    ensures
        parse_i64_spec(int_text(x as int)) == Some(x),
        int_text(x as int).len() > 0,
        int_text(x as int)[0] == '-' || ('0' <= int_text(x as int)[0] && int_text(x as int)[0] <= '9'),
{
    if x < 0 {
        lemma_dec_digits((-x) as nat);
        let t = int_text(x as int);
        assert(t.drop_first() =~= dec((-x) as nat));
    } else {
        lemma_dec_digits(x as nat);
        assert(dec(x as nat)[0] <= '9');
    }
}

proof fn lemma_digits_num_grows(d: Seq<char>, k: int)
    requires
        0 <= k <= d.len(),
        all_digits(d),
    ensures
        0 <= digits_num(d.take(k)) <= digits_num(d),
    decreases d.len(),
{
    if d.len() > 0 {
        assert(all_digits(d.drop_last()));
        lemma_digits_num_grows(d.drop_last(), d.len() - 1);
        assert(d.drop_last().take(d.len() - 1) =~= d.drop_last());
        if k == d.len() {
            assert(d.take(k) =~= d);
        } else {
            lemma_digits_num_grows(d.drop_last(), k);
            assert(d.drop_last().take(k) =~= d.take(k));
        }
    }
}

/// Reads a decimal integer as std's `str::parse::<i64>` does.
pub fn parse_i64(cs: &[char]) -> (res: Option<i64>)
    ensures
        res == parse_i64_spec(cs@),
{
    let n: usize = cs.len();
    if n == 0 {
        return None;
    }
    let neg = cs[0] == '-';
    let start: usize = if cs[0] == '-' || cs[0] == '+' { 1 } else { 0 };
    let ghost d = cs@.skip(start as int);
    proof {
        if start == 1 {
            assert(d =~= cs@.drop_first());
        } else {
            assert(d =~= cs@);
        }
    }
    if start == n {
        return None;
    }
    let mut v: u128 = 0;
    let mut i: usize = start;
    while i < n
        invariant
            n == cs@.len(),
            n > 0,
            neg == (cs@[0] == '-'),
            start == (if cs@[0] == '-' || cs@[0] == '+' { 1usize } else { 0usize }),
            start <= i <= n,
            d == cs@.skip(start as int),
            d == (if cs@[0] == '-' || cs@[0] == '+' { cs@.drop_first() } else { cs@ }),
            all_digits(d.take(i - start)),
            v == digits_num(d.take(i - start)),
            v <= 9223372036854775808u128,
        decreases n - i,
    {
        let c = cs[i];
        if c < '0' || c > '9' {
            proof {
                assert(d[i - start] == c);
                assert(!all_digits(d));
            }
            return None;
        }
        let dig: u128 = ((c as u32) - 48) as u128;
        proof {
            assert(d.take(i - start + 1).drop_last() =~= d.take(i - start));
            assert(d.take(i - start + 1).last() == c);
            assert(all_digits(d.take(i - start + 1)));
        }
        let nv: u128 = v * 10 + dig;
        if nv > 9223372036854775808u128 {
            proof {
                if all_digits(d) {
                    lemma_digits_num_grows(d, i - start + 1);
                }
            }
            return None;
        }
        v = nv;
        i = i + 1;
    }
    assert(d.take(n - start) =~= d);
    if neg {
        let r: i128 = 0i128 - (v as i128);
        Some(r as i64)
    } else {
        if v > 9223372036854775807u128 {
            return None;
        }
        Some(v as i64)
    }
}

/// Whether `s` begins with `prefix`.
pub fn starts_with(s: &[char], prefix: &str) -> (res: bool)
    ensures
        res == (prefix@.len() <= s@.len() && s@.take(prefix@.len() as int) == prefix@),
{
    let p = chars_of(prefix);
    if p.len() > s.len() {
        return false;
    }
    let mut i: usize = 0;
    while i < p.len()
        invariant
            p@ == prefix@,
            p@.len() <= s@.len(),
            i <= p@.len(),
            forall|j: int| 0 <= j < i ==> s@[j] == p@[j],
        decreases p@.len() - i,
    {
        if s[i] != p[i] {
            assert(s@.take(p@.len() as int)[i as int] != p@[i as int]);
            return false;
        }
        i = i + 1;
    }
    assert(s@.take(p@.len() as int) =~= p@);
    true
}

} // verus!

//! Text helpers shared by the parsers: character access, string equality,
//! decimal numbers in both directions, and Unicode white space.

use vstd::prelude::*;
use vstd::string::*;
use vstd::utf8::*;

verus! {

broadcast use vstd::utf8::encode_utf8_decode_utf8;

/// Whether two strings hold the same characters.
pub fn str_eq(a: &str, b: &str) -> (r: bool)
    ensures
        r == (a@ == b@),
{
    let x = a.as_bytes();
    let y = b.as_bytes();
    if x.len() != y.len() {
        proof {
            if a@ == b@ {
                assert(x@ == y@);
            }
        }
        return false;
    }
    let mut i: usize = 0;
    while i < x.len()
        invariant
            x@ == encode_utf8(a@),
            y@ == encode_utf8(b@),
            x@.len() == y@.len(),
            i <= x@.len(),
            forall|j: int| 0 <= j < i ==> x@[j] == y@[j],
        decreases x@.len() - i,
    {
        if x[i] != y[i] {
            return false;
        }
        i = i + 1;
    }
    proof {
        assert(x@ =~= y@);
        assert(decode_utf8(encode_utf8(a@)) == a@);
        assert(decode_utf8(encode_utf8(b@)) == b@);
    }
    true
}

/// The characters of a string, for constant-time access.
pub fn chars_of(s: &str) -> (r: Vec<char>)
    ensures
        r@ == s@,
{
    let n = s.unicode_len();
    let mut out: Vec<char> = Vec::new();
    for i in 0..n
        invariant
            n == s@.len(),
            out@ == s@.take(i as int),
    {
        out.push(s.get_char(i));
        proof {
            assert(out@ =~= s@.take(i + 1));
        }
    }
    proof {
        assert(out@ =~= s@);
    }
    out
}


/// The decimal digit character for `d` (0..=9).
pub open spec fn digit_char(d: int) -> char {
    (48 + d) as char
}

/// Decimal notation of `n`, without leading zeros.
pub open spec fn decimal(n: nat) -> Seq<char>
    decreases n,
{
    if n < 10 {
        seq![digit_char(n as int)]
    } else {
        decimal(n / 10).push(digit_char((n % 10) as int))
    }
}

/// A one-character string holding the digit `d`.
fn digit_str(d: u64) -> (r: &'static str)
    requires
        d < 10,
    ensures
        r@ == seq![digit_char(d as int)],
{
    let digits = "0123456789";
    proof {
        reveal_strlit("0123456789");
    }
    let r = digits.substring_char(d as usize, (d + 1) as usize);
    proof {
        assert(r@ =~= seq![digit_char(d as int)]);
    }
    r
}

/// Decimal notation of `n`.
pub fn decimal_string(n: u64) -> (r: String)
    ensures
        r@ == decimal(n as nat),
    decreases n,
{
    if n < 10 {
        String::from_str(digit_str(n))
    } else {
        let mut s = decimal_string(n / 10);
        s.append(digit_str(n % 10));
        s
    }
}

/// Decimal notation of a signed number: a minus sign, then the magnitude.
pub open spec fn signed_decimal(n: int) -> Seq<char> {
    if n < 0 {
        seq!['-'] + decimal((-n) as nat)
    } else {
        decimal(n as nat)
    }
}

pub fn signed_decimal_string(n: i64) -> (r: String)
    ensures
        r@ == signed_decimal(n as int),
{
    if n < 0 {
        let mag: u64 = if n == i64::MIN {
            9223372036854775808u64
        } else {
            (-n) as u64
        };
        let mut s = String::from_str("-");
        proof {
            reveal_strlit("-");
        }
        let d = decimal_string(mag);
        s.append(d.as_str());
        proof {
            assert(s@ =~= seq!['-'] + decimal((-n) as nat));
        }
        s
    } else {
        decimal_string(n as u64)
    }
}

pub open spec fn is_digit(c: char) -> bool {
    '0' <= c <= '9'
}

pub open spec fn all_digits(s: Seq<char>) -> bool {
    forall|i: int| 0 <= i < s.len() ==> is_digit(#[trigger] s[i])
}

/// The number that a string of decimal digits denotes.
pub open spec fn digits_value(s: Seq<char>) -> nat
    decreases s.len(),
{
    if s.len() == 0 {
        0
    } else {
        digits_value(s.drop_last()) * 10 + ((s.last() as int) - 48) as nat
    }
}

/// What `str::parse` gives for an unsigned integer type whose largest value
/// is `max`: an optional '+', then at least one decimal digit, within range.
pub open spec fn parse_unsigned(s: Seq<char>, max: nat) -> Option<nat> {
    let d = if s.len() > 0 && s[0] == '+' {
        s.drop_first()
    } else {
        s
    };
    if d.len() > 0 && all_digits(d) && digits_value(d) <= max {
        Some(digits_value(d))
    } else {
        None
    }
}

/// What `str::parse::<i32>` gives: an optional sign, then at least one
/// decimal digit, within range.
pub open spec fn parse_i32(s: Seq<char>) -> Option<int> {
    if s.len() > 0 && s[0] == '-' {
        let d = s.drop_first();
        if d.len() > 0 && all_digits(d) && digits_value(d) <= 2147483648 {
            Some(-(digits_value(d) as int))
        } else {
            None
        }
    } else {
        match parse_unsigned(s, 2147483647) {
            Some(v) => Some(v as int),
            None => None,
        }
    }
}

proof fn lemma_digits_value_grows(s: Seq<char>, k: int)
    requires
        all_digits(s),
        0 <= k <= s.len(),
    ensures
        digits_value(s.take(k)) <= digits_value(s),
    decreases s.len() - k,
{
    if k < s.len() {
        lemma_digits_value_grows(s, k + 1);
        assert(s.take(k + 1).drop_last() =~= s.take(k));
        assert(s.take(k + 1).last() == s[k]);
        assert(is_digit(s[k]));
    } else {
        assert(s.take(k) =~= s);
    }
}

/// Digits `cs[from..to]` as a number at most `max`.
fn digits_in(cs: &Vec<char>, from: usize, to: usize, max: u64) -> (r: Option<u64>)
    requires
        from <= to <= cs@.len(),
        max >= 9,
    ensures
        ({
            let d = cs@.subrange(from as int, to as int);
            match r {
                Some(v) => d.len() > 0 && all_digits(d) && digits_value(d) <= max && v == digits_value(d),
                None => !(d.len() > 0 && all_digits(d) && digits_value(d) <= max),
            }
        }),
{
    let ghost d = cs@.subrange(from as int, to as int);
    if from == to {
        return None;
    }
    let mut v: u64 = 0;
    let mut i = from;
    proof {
        assert(d.take(0) =~= Seq::<char>::empty());
    }
    while i < to
        invariant
            from <= i <= to <= cs@.len(),
            d == cs@.subrange(from as int, to as int),
            max >= 9,
            all_digits(d.take(i - from)),
            v == digits_value(d.take(i - from)),
            v <= max,
        decreases to - i,
    {
        let c = cs[i];
        if !('0' <= c && c <= '9') {
            proof {
                assert(d[i - from] == c);
            }
            return None;
        }
        let dig = (c as u64) - 48;
        proof {
            assert(d.take(i + 1 - from).drop_last() =~= d.take(i - from));
            assert(d.take(i + 1 - from).last() == c);
        }
        if v > (max - dig) / 10 {
            proof {
                assert(digits_value(d.take(i + 1 - from)) > max) by (nonlinear_arith)
                    requires
                        digits_value(d.take(i + 1 - from)) == v * 10 + dig,
                        v > (max - dig) / 10,
                        dig <= 9,
                        max >= 9,
                ;
                if all_digits(d) {
                    lemma_digits_value_grows(d, i + 1 - from);
                }
            }
            return None;
        }
        proof {
            assert(v * 10 + dig <= max) by (nonlinear_arith)
                requires
                    v <= (max - dig) / 10,
                    dig <= 9,
                    max >= 9,
            ;
        }
        v = v * 10 + dig;
        i = i + 1;
    }
    proof {
        assert(d.take(to - from) =~= d);
    }
    Some(v)
}

/// `cs[from..to]` parsed as an unsigned number at most `max`, as `str::parse` does.
pub fn parse_unsigned_in(cs: &Vec<char>, from: usize, to: usize, max: u64) -> (r: Option<u64>)
    requires
        from <= to <= cs@.len(),
        max >= 9,
    ensures
        match r {
            Some(v) => parse_unsigned(cs@.subrange(from as int, to as int), max as nat) == Some(v as nat),
            None => parse_unsigned(cs@.subrange(from as int, to as int), max as nat) is None,
        },
{
    let ghost s = cs@.subrange(from as int, to as int);
    if from < to && cs[from] == '+' {
        proof {
            assert(s.drop_first() =~= cs@.subrange(from + 1, to as int));
        }
        digits_in(cs, from + 1, to, max)
    } else {
        digits_in(cs, from, to, max)
    }
}

/// `cs[from..to]` parsed as an `i32`, as `str::parse` does.
pub fn parse_i32_in(cs: &Vec<char>, from: usize, to: usize) -> (r: Option<i32>)
    requires
        from <= to <= cs@.len(),
    ensures
        match r {
            Some(v) => parse_i32(cs@.subrange(from as int, to as int)) == Some(v as int),
            None => parse_i32(cs@.subrange(from as int, to as int)) is None,
        },
{
    let ghost s = cs@.subrange(from as int, to as int);
    if from < to && cs[from] == '-' {
        proof {
            assert(s.drop_first() =~= cs@.subrange(from + 1, to as int));
        }
        match digits_in(cs, from + 1, to, 2147483648) {
            Some(v) => Some((0i64 - v as i64) as i32),
            None => None,
        }
    } else {
        match parse_unsigned_in(cs, from, to, 2147483647) {
            Some(v) => Some(v as i32),
            None => None,
        }
    }
}


/// The pieces between occurrences of `sep`, as `str::split` gives them.
pub open spec fn split_on(s: Seq<char>, sep: char) -> Seq<Seq<char>>
    decreases s.len(),
{
    if s.len() == 0 {
        seq![Seq::<char>::empty()]
    } else {
        let p = split_on(s.drop_last(), sep);
        if s.last() == sep {
            p.push(Seq::empty())
        } else {
            p.update(p.len() - 1, p.last().push(s.last()))
        }
    }
}

pub proof fn lemma_split_on_nonempty(s: Seq<char>, sep: char)
    ensures
        split_on(s, sep).len() >= 1,
    decreases s.len(),
{
    if s.len() > 0 {
        lemma_split_on_nonempty(s.drop_last(), sep);
    }
}

/// The text that a list of ranges covers.
pub open spec fn pieces(cs: Seq<char>, r: Seq<(usize, usize)>) -> Seq<Seq<char>> {
    r.map_values(|p: (usize, usize)| cs.subrange(p.0 as int, p.1 as int))
}

pub open spec fn ranges_within(r: Seq<(usize, usize)>, from: int, to: int) -> bool {
    forall|i: int| 0 <= i < r.len() ==> from <= (#[trigger] r[i]).0 <= r[i].1 <= to
}

/// The pieces of `cs[from..to]` between occurrences of `sep`.
pub fn split_ranges(cs: &Vec<char>, from: usize, to: usize, sep: char) -> (r: Vec<(usize, usize)>)
    requires
        from <= to <= cs@.len(),
    ensures
        ranges_within(r@, from as int, to as int),
        pieces(cs@, r@) == split_on(cs@.subrange(from as int, to as int), sep),
{
    let ghost s = cs@.subrange(from as int, to as int);
    let mut out: Vec<(usize, usize)> = Vec::new();
    let mut start = from;
    let mut i = from;
    proof {
        assert(s.take(0) =~= Seq::<char>::empty());
        assert(pieces(cs@, out@).push(cs@.subrange(start as int, i as int)) =~~= split_on(s.take(0), sep));
    }
    while i < to
        invariant
            from <= start <= i <= to <= cs@.len(),
            s == cs@.subrange(from as int, to as int),
            ranges_within(out@, from as int, i as int),
            pieces(cs@, out@).push(cs@.subrange(start as int, i as int)) == split_on(s.take(i - from), sep),
        decreases to - i,
    {
        let ghost before = pieces(cs@, out@).push(cs@.subrange(start as int, i as int));
        proof {
            assert(s.take(i + 1 - from).drop_last() =~= s.take(i - from));
            assert(s.take(i + 1 - from).last() == cs@[i as int]);
            lemma_split_on_nonempty(s.take(i - from), sep);
        }
        if cs[i] == sep {
            out.push((start, i));
            start = i + 1;
            proof {
                assert(pieces(cs@, out@).push(cs@.subrange(start as int, (i + 1) as int)) =~~= before.push(Seq::empty()));
            }
        } else {
            proof {
                assert(pieces(cs@, out@).push(cs@.subrange(start as int, (i + 1) as int)) =~~= before.update(
                    before.len() - 1,
                    before.last().push(cs@[i as int]),
                ));
            }
        }
        i = i + 1;
    }
    let ghost before = pieces(cs@, out@).push(cs@.subrange(start as int, i as int));
    out.push((start, i));
    proof {
        assert(s.take(to - from) =~= s);
        assert(pieces(cs@, out@) =~~= before);
    }
    out
}

/// First position of `c` in `cs[from..to]`.
pub fn find_char(cs: &Vec<char>, from: usize, to: usize, c: char) -> (r: Option<usize>)
    requires
        from <= to <= cs@.len(),
    ensures
        match r {
            Some(p) => from <= p < to && cs@[p as int] == c && forall|j: int| from <= j < p ==> cs@[j] != c,
            None => forall|j: int| from <= j < to ==> cs@[j] != c,
        },
{
    let mut i = from;
    while i < to
        invariant
            from <= i <= to <= cs@.len(),
            forall|j: int| from <= j < i ==> cs@[j] != c,
        decreases to - i,
    {
        if cs[i] == c {
            return Some(i);
        }
        i = i + 1;
    }
    None
}

/// Unicode white space, as `char::is_whitespace` has it.
pub open spec fn is_white(c: char) -> bool {
    ||| c == '\t'
    ||| c == '\n'
    ||| c == '\u{0B}'
    ||| c == '\u{0C}'
    ||| c == '\r'
    ||| c == ' '
    ||| c == '\u{85}'
    ||| c == '\u{A0}'
    ||| c == '\u{1680}'
    ||| ('\u{2000}' <= c && c <= '\u{200A}')
    ||| c == '\u{2028}'
    ||| c == '\u{2029}'
    ||| c == '\u{202F}'
    ||| c == '\u{205F}'
    ||| c == '\u{3000}'
}

pub fn char_is_white(c: char) -> (r: bool)
    ensures
        r == is_white(c),
{
    c == '\t' || c == '\n' || c == '\u{0B}' || c == '\u{0C}' || c == '\r' || c == ' ' || c == '\u{85}'
        || c == '\u{A0}' || c == '\u{1680}' || ('\u{2000}' <= c && c <= '\u{200A}') || c == '\u{2028}'
        || c == '\u{2029}' || c == '\u{202F}' || c == '\u{205F}' || c == '\u{3000}'
}

/// `s` without leading white space.
pub open spec fn trim_start(s: Seq<char>) -> Seq<char>
    decreases s.len(),
{
    if s.len() > 0 && is_white(s[0]) {
        trim_start(s.drop_first())
    } else {
        s
    }
}

/// `s` without trailing white space.
pub open spec fn trim_end(s: Seq<char>) -> Seq<char>
    decreases s.len(),
{
    if s.len() > 0 && is_white(s.last()) {
        trim_end(s.drop_last())
    } else {
        s
    }
}

/// `s` without leading or trailing white space, as `str::trim` gives it.
pub open spec fn trim(s: Seq<char>) -> Seq<char> {
    trim_end(trim_start(s))
}

/// The bounds of `cs[from..to]` once trimmed.
pub fn trim_range(cs: &Vec<char>, from: usize, to: usize) -> (r: (usize, usize))
    requires
        from <= to <= cs@.len(),
    ensures
        from <= r.0 <= r.1 <= to,
        cs@.subrange(r.0 as int, r.1 as int) == trim(cs@.subrange(from as int, to as int)),
{
    let mut a = from;
    while a < to && char_is_white(cs[a])
        invariant
            from <= a <= to <= cs@.len(),
            trim_start(cs@.subrange(from as int, to as int)) == trim_start(cs@.subrange(a as int, to as int)),
        decreases to - a,
    {
        proof {
            assert(cs@.subrange(a as int, to as int).drop_first() =~= cs@.subrange(a + 1, to as int));
        }
        a = a + 1;
    }
    let mut b = to;
    while b > a && char_is_white(cs[b - 1])
        invariant
            from <= a <= b <= to <= cs@.len(),
            trim_end(cs@.subrange(a as int, to as int)) == trim_end(cs@.subrange(a as int, b as int)),
        decreases b - a,
    {
        proof {
            assert(cs@.subrange(a as int, b as int).drop_last() =~= cs@.subrange(a as int, b - 1));
        }
        b = b - 1;
    }
    (a, b)
}


/// The value of a hexadecimal digit, either case.
pub open spec fn hex_digit(c: char) -> Option<nat> {
    if '0' <= c <= '9' {
        Some(((c as int) - 48) as nat)
    } else if 'a' <= c <= 'f' {
        Some(((c as int) - 87) as nat)
    } else if 'A' <= c <= 'F' {
        Some(((c as int) - 55) as nat)
    } else {
        None
    }
}

pub open spec fn all_hex(s: Seq<char>) -> bool {
    forall|i: int| 0 <= i < s.len() ==> (#[trigger] hex_digit(s[i])) is Some
}

/// The number that a string of hexadecimal digits denotes.
pub open spec fn hex_value(s: Seq<char>) -> nat
    decreases s.len(),
{
    if s.len() == 0 {
        0
    } else {
        hex_value(s.drop_last()) * 16 + hex_digit(s.last()).unwrap()
    }
}

/// What `from_str_radix(s, 16)` gives for an unsigned type whose largest value
/// is `max`: an optional '+', then at least one hexadecimal digit, within range.
pub open spec fn parse_hex(s: Seq<char>, max: nat) -> Option<nat> {
    let d = if s.len() > 0 && s[0] == '+' {
        s.drop_first()
    } else {
        s
    };
    if d.len() > 0 && all_hex(d) && hex_value(d) <= max {
        Some(hex_value(d))
    } else {
        None
    }
}

proof fn lemma_hex_value_grows(s: Seq<char>, k: int)
    requires
        all_hex(s),
        0 <= k <= s.len(),
    ensures
        hex_value(s.take(k)) <= hex_value(s),
    decreases s.len() - k,
{
    if k < s.len() {
        lemma_hex_value_grows(s, k + 1);
        assert(s.take(k + 1).drop_last() =~= s.take(k));
        assert(s.take(k + 1).last() == s[k]);
        assert(hex_digit(s[k]) is Some);
    } else {
        assert(s.take(k) =~= s);
    }
}

fn hex_digit_of(c: char) -> (r: Option<u64>)
    ensures
        match r {
            Some(v) => hex_digit(c) == Some(v as nat) && v < 16,
            None => hex_digit(c) is None,
        },
{
    if '0' <= c && c <= '9' {
        Some((c as u64) - 48)
    } else if 'a' <= c && c <= 'f' {
        Some((c as u64) - 87)
    } else if 'A' <= c && c <= 'F' {
        Some((c as u64) - 55)
    } else {
        None
    }
}

/// `cs[from..to]` parsed as a hexadecimal number at most `max`, as
/// `from_str_radix` does.
pub fn parse_hex_in(cs: &Vec<char>, from: usize, to: usize, max: u64) -> (r: Option<u64>)
    requires
        from <= to <= cs@.len(),
        max >= 15,
    ensures
        match r {
            Some(v) => parse_hex(cs@.subrange(from as int, to as int), max as nat) == Some(v as nat),
            None => parse_hex(cs@.subrange(from as int, to as int), max as nat) is None,
        },
{
    let ghost s = cs@.subrange(from as int, to as int);
    let start = if from < to && cs[from] == '+' {
        from + 1
    } else {
        from
    };
    let ghost d = cs@.subrange(start as int, to as int);
    proof {
        if from < to && cs@[from as int] == '+' {
            assert(s.drop_first() =~= d);
        } else {
            assert(s =~= d);
        }
    }
    if start == to {
        return None;
    }
    let mut v: u64 = 0;
    let mut i = start;
    proof {
        assert(d.take(0) =~= Seq::<char>::empty());
        assert(d.len() > 0);
    }
    while i < to
        invariant
            start <= i <= to <= cs@.len(),
            d == cs@.subrange(start as int, to as int),
            d.len() > 0,
            parse_hex(cs@.subrange(from as int, to as int), max as nat) == (if all_hex(d) && hex_value(d)
                <= max {
                Some(hex_value(d))
            } else {
                None
            }),
            max >= 15,
            all_hex(d.take(i - start)),
            v == hex_value(d.take(i - start)),
            v <= max,
        decreases to - i,
    {
        let c = cs[i];
        proof {
            assert(d[i - start] == c);
        }
        let dig = match hex_digit_of(c) {
            Some(x) => x,
            None => {
                proof {
                    assert(!all_hex(d));
                }
                return None;
            },
        };
        proof {
            assert(d.take(i + 1 - start).drop_last() =~= d.take(i - start));
            assert(d.take(i + 1 - start).last() == c);
        }
        if v > (max - dig) / 16 {
            proof {
                assert(hex_value(d.take(i + 1 - start)) > max) by (nonlinear_arith)
                    requires
                        hex_value(d.take(i + 1 - start)) == v * 16 + dig,
                        v > (max - dig) / 16,
                        dig <= 15,
                        max >= 15,
                ;
                if all_hex(d) {
                    lemma_hex_value_grows(d, i + 1 - start);
                }
            }
            return None;
        }
        proof {
            assert(v * 16 + dig <= max) by (nonlinear_arith)
                requires
                    v <= (max - dig) / 16,
                    dig <= 15,
                    max >= 15,
            ;
        }
        v = v * 16 + dig;
        i = i + 1;
    }
    proof {
        assert(d.take(to - start) =~= d);
    }
    Some(v)
}


/// Whether `cs[from..to]` holds exactly the text of `lit`.
pub fn range_eq(s: &str, cs: &Vec<char>, from: usize, to: usize, lit: &str) -> (r: bool)
    requires
        cs@ == s@,
        from <= to <= cs@.len(),
    ensures
        r == (cs@.subrange(from as int, to as int) == lit@),
{
    let piece = s.substring_char(from, to);
    str_eq(piece, lit)
}

/// The text of `cs[from..to]` as a string of its own.
pub fn range_string(s: &str, cs: &Vec<char>, from: usize, to: usize) -> (r: String)
    requires
        cs@ == s@,
        from <= to <= cs@.len(),
    ensures
        r@ == cs@.subrange(from as int, to as int),
{
    String::from_str(s.substring_char(from, to))
}

/// The text before and after the first `sep`, if there is one.
pub open spec fn split_once(s: Seq<char>, sep: char) -> Option<(Seq<char>, Seq<char>)> {
    if exists|k: int| 0 <= k < s.len() && s[k] == sep {
        let k = choose|k: int| 0 <= k < s.len() && s[k] == sep && forall|j: int| 0 <= j < k ==> s[j] != sep;
        Some((s.take(k), s.skip(k + 1)))
    } else {
        None
    }
}

/// Where `cs[from..to]` splits at its first `sep`.
pub fn split_once_at(cs: &Vec<char>, from: usize, to: usize, sep: char) -> (r: Option<usize>)
    requires
        from <= to <= cs@.len(),
    ensures
        match r {
            Some(k) => from <= k < to && split_once(cs@.subrange(from as int, to as int), sep) == Some(
                (cs@.subrange(from as int, k as int), cs@.subrange(k + 1, to as int)),
            ),
            None => split_once(cs@.subrange(from as int, to as int), sep) is None,
        },
{
    let ghost s = cs@.subrange(from as int, to as int);
    match find_char(cs, from, to, sep) {
        Some(k) => {
            proof {
                let kk = k - from;
                assert(s[kk] == sep);
                let c = choose|c: int| 0 <= c < s.len() && s[c] == sep && forall|j: int| 0 <= j < c ==> s[j] != sep;
                if c < kk {
                    assert(cs@[from + c] == sep);
                }
                if kk < c {
                    assert(s[kk] != sep);
                }
                assert(c == kk);
                assert(s.take(kk) =~= cs@.subrange(from as int, k as int));
                assert(s.skip(kk + 1) =~= cs@.subrange(k + 1, to as int));
            }
            Some(k)
        },
        None => {
            proof {
                assert forall|k: int| 0 <= k < s.len() implies s[k] != sep by {
                    assert(s[k] == cs@[from + k]);
                }
            }
            None
        },
    }
}


/// The maximal runs of non-white characters, as `str::split_whitespace`
/// gives them.
pub open spec fn words(s: Seq<char>) -> Seq<Seq<char>>
    decreases s.len(),
{
    if s.len() == 0 {
        Seq::empty()
    } else if is_white(s.last()) {
        words(s.drop_last())
    } else if s.len() >= 2 && !is_white(s[s.len() - 2]) {
        let w = words(s.drop_last());
        w.update(w.len() - 1, w.last().push(s.last()))
    } else {
        words(s.drop_last()).push(seq![s.last()])
    }
}

pub proof fn lemma_words_nonempty(s: Seq<char>)
    requires
        s.len() > 0,
        !is_white(s.last()),
    ensures
        words(s).len() >= 1,
    decreases s.len(),
{
    if s.len() >= 2 && !is_white(s[s.len() - 2]) {
        assert(s.drop_last().last() == s[s.len() - 2]);
        lemma_words_nonempty(s.drop_last());
    }
}

/// The words of `cs[from..to]`.
pub fn word_ranges(cs: &Vec<char>, from: usize, to: usize) -> (r: Vec<(usize, usize)>)
    requires
        from <= to <= cs@.len(),
    ensures
        ranges_within(r@, from as int, to as int),
        pieces(cs@, r@) == words(cs@.subrange(from as int, to as int)),
{
    let ghost s = cs@.subrange(from as int, to as int);
    let mut out: Vec<(usize, usize)> = Vec::new();
    let mut start = from;
    let mut in_word = false;
    let mut i = from;
    proof {
        assert(s.take(0) =~= Seq::<char>::empty());
        assert(pieces(cs@, out@) =~~= words(s.take(0)));
    }
    while i < to
        invariant
            from <= start <= i <= to <= cs@.len(),
            s == cs@.subrange(from as int, to as int),
            ranges_within(out@, from as int, i as int),
            in_word == (i > from && !is_white(cs@[i - 1])),
            in_word ==> start < i && pieces(cs@, out@).push(cs@.subrange(start as int, i as int)) == words(s.take(i - from)),
            !in_word ==> pieces(cs@, out@) == words(s.take(i - from)),
        decreases to - i,
    {
        let ghost before = pieces(cs@, out@);
        let ghost t = s.take(i + 1 - from);
        proof {
            assert(t.drop_last() =~= s.take(i - from));
            assert(t.last() == cs@[i as int]);
            if i > from {
                assert(t[t.len() - 2] == cs@[i - 1]);
            }
        }
        let white = char_is_white(cs[i]);
        if white {
            if in_word {
                out.push((start, i));
                proof {
                    assert(pieces(cs@, out@) =~~= before.push(cs@.subrange(start as int, i as int)));
                }
            }
            in_word = false;
        } else {
            if in_word {
                proof {
                    lemma_words_nonempty(s.take(i - from));
                    assert(before.push(cs@.subrange(start as int, i + 1)) =~~= words(t));
                }
            } else {
                start = i;
                in_word = true;
                proof {
                    assert(cs@.subrange(start as int, i + 1) =~= seq![cs@[i as int]]);
                    assert(before.push(cs@.subrange(start as int, i + 1)) =~~= words(t));
                }
            }
        }
        i = i + 1;
    }
    proof {
        assert(s.take(to - from) =~= s);
    }
    if in_word {
        let ghost before = pieces(cs@, out@);
        out.push((start, i));
        proof {
            assert(pieces(cs@, out@) =~~= before.push(cs@.subrange(start as int, i as int)));
        }
    }
    out
}


/// A line without the carriage return of a CRLF ending.
pub open spec fn strip_cr(l: Seq<char>) -> Seq<char> {
    if l.len() > 0 && l.last() == '\r' {
        l.drop_last()
    } else {
        l
    }
}

/// The lines of a text, as `str::lines` gives them: split at each '\n', a
/// '\r' before the '\n' removed, and no empty line after a final '\n'.
pub open spec fn text_lines(s: Seq<char>) -> Seq<Seq<char>> {
    let p = split_on(s, '\n');
    let n = if p.len() > 0 && p.last().len() == 0 {
        p.len() - 1
    } else {
        p.len() as int
    };
    Seq::new(n as nat, |i: int| if i + 1 < p.len() { strip_cr(p[i]) } else { p[i] })
}

/// The bounds of the lines of `cs`.
pub fn line_ranges(cs: &Vec<char>) -> (r: Vec<(usize, usize)>)
    ensures
        ranges_within(r@, 0, cs@.len() as int),
        pieces(cs@, r@) == text_lines(cs@),
{
    let n = cs.len();
    let parts = split_ranges(cs, 0, n, '\n');
    let ghost p = split_on(cs@, '\n');
    proof {
        assert(cs@.subrange(0, n as int) =~= cs@);
        lemma_split_on_nonempty(cs@, '\n');
    }
    let np = parts.len();
    let (la, lb) = parts[np - 1];
    proof {
        assert(parts@[np - 1] == (la, lb));
        assert(p.last() == cs@.subrange(la as int, lb as int));
    }
    let count = if la == lb {
        np - 1
    } else {
        np
    };
    let ghost lines = text_lines(cs@);
    let mut out: Vec<(usize, usize)> = Vec::new();
    for i in 0..count
        invariant
            count <= np,
            np == parts@.len(),
            np == p.len(),
            p == pieces(cs@, parts@),
            p == split_on(cs@, '\n'),
            lines == text_lines(cs@),
            lines.len() == count,
            n == cs@.len(),
            ranges_within(parts@, 0, n as int),
            ranges_within(out@, 0, n as int),
            pieces(cs@, out@) == lines.take(i as int),
    {
        let (a, b) = parts[i];
        proof {
            assert(parts@[i as int] == (a, b));
            assert(p[i as int] == cs@.subrange(a as int, b as int));
        }
        let e = if i + 1 < np && a < b && cs[b - 1] == '\r' {
            b - 1
        } else {
            b
        };
        let ghost before = pieces(cs@, out@);
        out.push((a, e));
        proof {
            if a < b {
                assert(cs@.subrange(a as int, b as int).drop_last() =~= cs@.subrange(a as int, b - 1));
                assert(cs@.subrange(a as int, b as int).last() == cs@[b - 1]);
            }
            assert(lines[i as int] == cs@.subrange(a as int, e as int));
            assert(pieces(cs@, out@) =~= before.push(cs@.subrange(a as int, e as int)));
            assert(pieces(cs@, out@) =~= lines.take(i + 1));
        }
    }
    proof {
        assert(lines.take(count as int) =~= lines);
    }
    out
}


/// Decimal notation is digits only, starts with a digit, and denotes its
/// number.
pub proof fn lemma_decimal_digits(n: nat)
    ensures
        decimal(n).len() > 0,
        all_digits(decimal(n)),
        digits_value(decimal(n)) == n,
    decreases n,
{
    if n < 10 {
        let s = decimal(n);
        assert(s.drop_last() =~= Seq::<char>::empty());
        assert((digit_char(n as int) as int) == 48 + n);
        assert(digits_value(s) == digits_value(s.drop_last()) * 10 + n);
    } else {
        lemma_decimal_digits(n / 10);
        let d = decimal(n / 10);
        let s = decimal(n);
        assert(s.drop_last() =~= d);
        assert((digit_char((n % 10) as int) as int) == 48 + n % 10);
        assert(s.last() == digit_char((n % 10) as int));
        assert(digits_value(s) == digits_value(d) * 10 + n % 10);
        assert((n / 10) * 10 + n % 10 == n);
        assert(all_digits(s)) by {
            assert forall|i: int| 0 <= i < s.len() implies is_digit(#[trigger] s[i]) by {
                if i < d.len() {
                    assert(s[i] == d[i]);
                }
            }
        }
    }
}

/// Text without `sep` is a single piece.
pub proof fn lemma_split_on_whole(s: Seq<char>, sep: char)
    requires
        forall|i: int| 0 <= i < s.len() ==> s[i] != sep,
    ensures
        split_on(s, sep) == seq![s],
    decreases s.len(),
{
    if s.len() > 0 {
        lemma_split_on_whole(s.drop_last(), sep);
        assert(s.drop_last().push(s.last()) =~= s);
        assert(split_on(s, sep) =~= seq![s]);
    } else {
        assert(s =~= Seq::<char>::empty());
    }
}

/// Splitting at a separator: the pieces before it, then the pieces after.
pub proof fn lemma_split_on_join(s: Seq<char>, sep: char, y: Seq<char>)
    ensures
        split_on(s + seq![sep] + y, sep) == split_on(s, sep) + split_on(y, sep),
    decreases y.len(),
{
    let x = s + seq![sep];
    if y.len() == 0 {
        assert(x + y =~= x);
        assert(x.drop_last() =~= s);
        assert(split_on(x, sep) =~= split_on(s, sep) + split_on(y, sep));
    } else {
        lemma_split_on_join(s, sep, y.drop_last());
        lemma_split_on_nonempty(y.drop_last(), sep);
        assert((x + y).drop_last() =~= x + y.drop_last());
        assert((x + y).last() == y.last());
        let p = split_on(s, sep);
        let q = split_on(y.drop_last(), sep);
        if y.last() == sep {
            assert(split_on(x + y, sep) =~= p + q.push(Seq::empty()));
        } else {
            assert((p + q).last() == q.last());
            assert(split_on(x + y, sep) =~= p + q.update(q.len() - 1, q.last().push(y.last())));
        }
    }
}

} // verus!

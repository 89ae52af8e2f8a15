//! Unsigned numbers, read from text and written to it.

use vstd::prelude::*;

use crate::text::chars_of;

verus! {

/// What a digit counts, up to base 36; -1 for any other character.
pub open spec fn digit_value(c: char) -> int {
    if '0' <= c <= '9' {
        c as int - '0' as int
    } else if 'a' <= c <= 'z' {
        10 + (c as int - 'a' as int)
    } else if 'A' <= c <= 'Z' {
        10 + (c as int - 'A' as int)
    } else {
        -1
    }
}

pub open spec fn is_digit(c: char, radix: int) -> bool {
    0 <= digit_value(c) < radix
}

/// What a row of digits counts.
pub open spec fn value(s: Seq<char>, radix: int) -> int
    decreases s.len(),
{
    if s.len() == 0 {
        0
    } else {
        value(s.drop_last(), radix) * radix + digit_value(s.last())
    }
}

/// The digits of a number, which may stand behind one plus sign.
pub open spec fn unsigned(s: Seq<char>) -> Seq<char> {
    if s.len() > 0 && s[0] == '+' {
        s.drop_first()
    } else {
        s
    }
}

/// The number that a text writes in a base: at least one digit, nothing but
/// digits, and a count of no more than `max`.
pub open spec fn number(s: Seq<char>, radix: int, max: int) -> Option<int> {
    let d = unsigned(s);
    if d.len() > 0 && (forall|i: int| 0 <= i < d.len() ==> is_digit(#[trigger] d[i], radix))
        && value(d, radix) <= max {
        Some(value(d, radix))
    } else {
        None
    }
}

pub proof fn lemma_value_grows(s: Seq<char>, k: int, radix: int)
    requires
        radix >= 1,
        0 <= k <= s.len(),
        forall|i: int| 0 <= i < s.len() ==> is_digit(#[trigger] s[i], radix),
    ensures
        0 <= value(s.take(k), radix) <= value(s, radix),
    decreases s.len(),
{
    if s.len() == 0 {
        assert(s.take(k) =~= s);
    } else {
        assert(is_digit(s.last(), radix));
        let p = s.drop_last();
        assert forall|i: int| 0 <= i < p.len() implies is_digit(#[trigger] p[i], radix) by {
            assert(p[i] == s[i]);
        }
        let v = value(p, radix);
        if k == s.len() {
            assert(s.take(k) =~= s);
            lemma_value_grows(p, p.len() as int, radix);
            assert(p.take(p.len() as int) =~= p);
            assert(v * radix >= 0) by (nonlinear_arith)
                requires
                    v >= 0,
                    radix >= 1,
            ;
        } else {
            assert(p.take(k) =~= s.take(k));
            lemma_value_grows(p, k, radix);
            assert(v * radix >= v) by (nonlinear_arith)
                requires
                    v >= 0,
                    radix >= 1,
            ;
        }
    }
}

fn digit_of(c: char) -> (r: Option<u64>)
    ensures
        match r {
            Some(d) => d == digit_value(c) && d < 36,
            None => digit_value(c) == -1,
        },
{
    let n: u32 = c as u32;
    if '0' <= c && c <= '9' {
        Some((n - 48) as u64)
    } else if 'a' <= c && c <= 'z' {
        Some((n - 97 + 10) as u64)
    } else if 'A' <= c && c <= 'Z' {
        Some((n - 65 + 10) as u64)
    } else {
        None
    }
}

/// Read a number of at most `max`.
pub fn read_number(text: &str, radix: u64, max: u64) -> (r: Option<u64>)
    requires
        2 <= radix <= 36,
    ensures
        match r {
            Some(v) => number(text@, radix as int, max as int) == Some(v as int),
            None => number(text@, radix as int, max as int) is None,
        },
{
    let chars: Vec<char> = chars_of(text);
    let start: usize = if chars.len() > 0 && chars[0] == '+' {
        1
    } else {
        0
    };
    let ghost d = unsigned(text@);
    assert(d =~= chars@.skip(start as int));
    if start == chars.len() {
        return None;
    }
    let mut v: u64 = 0;
    let mut i: usize = start;
    assert(d.take(0) =~= seq![]);
    while i < chars.len()
        invariant
            2 <= radix <= 36,
            start <= i <= chars@.len(),
            start <= 1,
            d == unsigned(text@),
            d == chars@.skip(start as int),
            forall|j: int| 0 <= j < i - start ==> is_digit(#[trigger] d[j], radix as int),
            v == value(d.take(i - start), radix as int),
            v <= max,
        decreases chars@.len() - i,
    {
        assert(d[i - start] == chars@[i as int]);
        let digit: u64 = match digit_of(chars[i]) {
            Some(digit) => digit,
            None => return None,
        };
        if digit >= radix {
            return None;
        }
        assert(0 <= v * radix <= 36 * 0xffff_ffff_ffff_ffff) by (nonlinear_arith)
            requires
                0 <= v <= 0xffff_ffff_ffff_ffff,
                radix <= 36,
        ;
        let next: u128 = v as u128 * radix as u128 + digit as u128;
        proof {
            let p = d.take(i - start + 1);
            assert(p.drop_last() =~= d.take(i - start));
            assert(p.last() == chars@[i as int]);
            assert(next == value(p, radix as int));
            if forall|j: int| 0 <= j < d.len() ==> is_digit(#[trigger] d[j], radix as int) {
                lemma_value_grows(d, i - start + 1, radix as int);
            }
        }
        if next > max as u128 {
            return None;
        }
        v = next as u64;
        i += 1;
    }
    assert(d.take(i - start) =~= d);
    Some(v)
}

// ---------------------------------------------------------------- writing

pub proof fn lemma_quotient_is_smaller(n: int, radix: int)
    requires
        2 <= radix <= n,
    ensures
        0 <= n / radix < n,
{
    assert(0 <= n / radix < n) by (nonlinear_arith)
        requires
            2 <= radix <= n,
    ;
}

/// The digit that counts `d`, in lower case.
pub open spec fn digit_char(d: int) -> char {
    if d < 10 {
        (48 + d) as char
    } else {
        (97 + (d - 10)) as char
    }
}

/// A number written in a base, without leading zeros.
pub open spec fn numeral(n: int, radix: int) -> Seq<char>
    decreases n,
{
    if n < radix || radix < 2 {
        seq![digit_char(n)]
    } else {
        proof {
            lemma_quotient_is_smaller(n, radix);
        }
        numeral(n / radix, radix).push(digit_char(n % radix))
    }
}

pub open spec fn decimal(n: int) -> Seq<char> {
    numeral(n, 10)
}

fn digit_text(d: u64) -> (r: char)
    requires
        d < 36,
    ensures
        r == digit_char(d as int),
{
    if d < 10 {
        (48 + d as u8) as char
    } else {
        (97 + (d as u8 - 10)) as char
    }
}

/// Write a number in a base.
pub fn write_number(n: u64, radix: u64) -> (r: String)
    requires
        2 <= radix <= 36,
    ensures
        r@ == numeral(n as int, radix as int),
    decreases n,
{
    if n < radix {
        let mut s: String = String::new();
        s.push(digit_text(n));
        assert(s@ =~= seq![digit_char(n as int)]);
        s
    } else {
        proof {
            lemma_quotient_is_smaller(n as int, radix as int);
        }
        let rest: u64 = n / radix;
        let mut s: String = write_number(rest, radix);
        s.push(digit_text(n % radix));
        s
    }
}

/// Write a size or an identifier in base ten.
pub fn write_decimal(n: usize) -> (r: String)
    ensures
        r@ == decimal(n as int),
{
    write_number(n as u64, 10)
}

/// A text behind as many zeros as bring it to `width` characters.
pub open spec fn zero_padded(s: Seq<char>, width: nat) -> Seq<char>
{
    if s.len() >= width {
        s
    } else {
        Seq::new((width - s.len()) as nat, |i: int| '0') + s
    }
}

/// A number in base sixteen behind `0x`, of at least four digits.
pub open spec fn hex_id(n: int) -> Seq<char> {
    seq!['0', 'x'] + zero_padded(numeral(n, 16), 4)
}

pub fn write_hex_id(n: u32) -> (r: String)
    ensures
        r@ == hex_id(n as int),
{
    let digits: String = write_number(n as u64, 16);
    let chars: Vec<char> = chars_of(digits.as_str());
    let mut s: String = String::new();
    s.push('0');
    s.push('x');
    let mut k: usize = chars.len();
    let ghost start = seq!['0', 'x'];
    assert(s@ =~= start);
    while k < 4
        invariant
            chars@.len() <= k,
            k <= 4 || k == chars@.len(),
            s@ == start + Seq::new((k - chars@.len()) as nat, |i: int| '0'),
        decreases 4 - k,
    {
        s.push('0');
        k += 1;
        assert(s@ =~= start + Seq::new((k - chars@.len()) as nat, |i: int| '0'));
    }
    s.append(digits.as_str());
    assert(s@ =~= hex_id(n as int));
    s
}

/// A number that was written reads back as itself.
pub proof fn law_numbers_read_back(n: int, radix: int, max: int)
    requires
        2 <= radix <= 36,
        0 <= n <= max,
    ensures
        number(numeral(n, radix), radix, max) == Some(n),
{
    lemma_numeral(n, radix);
    let s = numeral(n, radix);
    assert(is_digit(s[0], radix));
    assert(s[0] != '+');
}

proof fn lemma_numeral(n: int, radix: int)
    requires
        2 <= radix <= 36,
        0 <= n,
    ensures
        numeral(n, radix).len() > 0,
        forall|i: int|
            0 <= i < numeral(n, radix).len() ==> is_digit(#[trigger] numeral(n, radix)[i], radix),
        value(numeral(n, radix), radix) == n,
    decreases n,
{
    let s = numeral(n, radix);
    if n < radix {
        assert(s.drop_last() =~= seq![]);
        assert(value(s.drop_last(), radix) == 0);
        assert(0 * radix == 0);
    } else {
        let q = n / radix;
        let r = n % radix;
        assert(0 <= q < n && 0 <= r < radix && q * radix + r == n) by (nonlinear_arith)
            requires
                q == n / radix,
                r == n % radix,
                n >= radix,
                radix >= 2,
        ;
        lemma_numeral(q, radix);
        assert(s.drop_last() =~= numeral(q, radix));
        assert forall|i: int| 0 <= i < s.len() implies is_digit(#[trigger] s[i], radix) by {
            if i < s.len() - 1 {
                assert(s[i] == numeral(q, radix)[i]);
            }
        }
    }
}

/// A digit at the end of a number makes it as many times larger as the base
/// says, and adds what the digit counts; past `max` there is no number.
pub proof fn law_numbers_grow_by_a_digit(s: Seq<char>, c: char, d: int, radix: int, max: int)
    requires
        2 <= radix <= 36,
        s.len() > 0,
        s != seq!['+'],
        0 <= d < radix,
        d < 10 ==> c as int == '0' as int + d,
        d >= 10 ==> c as int == 'a' as int + (d - 10) || c as int == 'A' as int + (d - 10),
    ensures
        number(s.push(c), radix, max) == match number(s, radix, max) {
            Some(v) => if v * radix + d <= max {
                Some(v * radix + d)
            } else {
                None
            },
            None => None,
        },
{
    let t = unsigned(s);
    if t.len() == 0 {
        assert(s =~= seq!['+']);
    }
    assert(unsigned(s.push(c)) =~= t.push(c));
    assert(t.push(c).drop_last() =~= t);
    assert(digit_value(c) == d);
    let v = value(t, radix);
    if forall|i: int| 0 <= i < t.len() ==> is_digit(#[trigger] t[i], radix) {
        assert forall|i: int| 0 <= i < t.push(c).len() implies is_digit(
            #[trigger] t.push(c)[i],
            radix,
        ) by {
            if i < t.len() {
                assert(t.push(c)[i] == t[i]);
            }
        }
        lemma_value_grows(t, t.len() as int, radix);
        assert(t.take(t.len() as int) =~= t);
        assert(v * radix >= v) by (nonlinear_arith)
            requires
                v >= 0,
                radix >= 1,
        ;
    } else {
        let i = choose|i: int| 0 <= i < t.len() && !is_digit(#[trigger] t[i], radix);
        assert(t.push(c)[i] == t[i]);
    }
}

/// One digit, with or without a plus sign before it, is what it counts.
pub proof fn law_one_digit_is_a_number(c: char, d: int, radix: int, max: int)
    requires
        2 <= radix <= 36,
        0 <= d < radix,
        d < 10 ==> c as int == '0' as int + d,
        d >= 10 ==> c as int == 'a' as int + (d - 10) || c as int == 'A' as int + (d - 10),
    ensures
        number(seq![c], radix, max) == if d <= max {
            Some(d)
        } else {
            None
        },
        number(seq!['+', c], radix, max) == if d <= max {
            Some(d)
        } else {
            None
        },
{
    let t = seq![c];
    assert(unsigned(t) =~= t);
    assert(unsigned(seq!['+', c]) =~= t);
    assert(t.drop_last() =~= seq![]);
    assert(value(t.drop_last(), radix) == 0);
    assert(0 * radix == 0);
    assert(value(t, radix) == d);
}

/// A text with a character that is no digit of the base is no number, one plus
/// sign at its beginning apart; nor is one without a digit.
pub proof fn law_other_texts_are_no_numbers(s: Seq<char>, k: int, radix: int, max: int)
    requires
        2 <= radix <= 36,
        s.len() == 0 || s == seq!['+'] || {
            &&& 0 <= k < s.len()
            &&& !(k == 0 && s[0] == '+')
            &&& !('0' <= s[k] <= '9' && s[k] as int - ('0' as int) < radix)
            &&& !('a' <= s[k] <= 'z' && s[k] as int - 'a' as int + 10 < radix)
            &&& !('A' <= s[k] <= 'Z' && s[k] as int - 'A' as int + 10 < radix)
        },
    ensures
        number(s, radix, max) is None,
{
    let t = unsigned(s);
    if s.len() > 0 && s != seq!['+'] {
        let j = if s[0] == '+' {
            k - 1
        } else {
            k
        };
        assert(t[j] == s[k]);
    }
}

/// A number is written in digits and lower-case letters, without zeros before
/// it.
pub proof fn law_numbers_are_written_plainly(n: int, radix: int)
    requires
        2 <= radix <= 36,
        0 <= n,
    ensures
        numeral(n, radix).len() > 0,
        numeral(n, radix).len() > 1 ==> numeral(n, radix)[0] != '0',
        forall|i: int|
            0 <= i < numeral(n, radix).len() ==> '0' <= (#[trigger] numeral(n, radix)[i]) <= '9'
                || 'a' <= numeral(n, radix)[i] <= 'z',
    decreases n,
{
    if n >= radix {
        let q = n / radix;
        let r = n % radix;
        assert(0 < q < n && 0 <= r < radix) by (nonlinear_arith)
            requires
                q == n / radix,
                r == n % radix,
                n >= radix,
                radix >= 2,
        ;
        law_numbers_are_written_plainly(q, radix);
        let s = numeral(n, radix);
        assert(s[0] == numeral(q, radix)[0]);
        if numeral(q, radix).len() == 1 {
            lemma_numeral(q, radix);
            let t = numeral(q, radix);
            if t[0] == '0' {
                assert(t.drop_last() =~= seq![]);
                assert(value(t.drop_last(), radix) == 0);
                assert(0 * radix == 0);
                assert(value(t, radix) == 0);
            }
        }
        assert forall|i: int| 0 <= i < s.len() implies '0' <= (#[trigger] s[i]) <= '9' || 'a'
            <= s[i] <= 'z' by {
            if i < s.len() - 1 {
                assert(s[i] == numeral(q, radix)[i]);
            }
        }
    }
}

/// A size is written in decimal digits, without zeros before it, and reads
/// back as itself.
pub proof fn law_decimals_read_back(n: int, max: int)
    requires
        0 <= n <= max,
    ensures
        number(decimal(n), 10, max) == Some(n),
        decimal(n).len() > 0,
        decimal(n).len() > 1 ==> decimal(n)[0] != '0',
        forall|i: int| 0 <= i < decimal(n).len() ==> '0' <= (#[trigger] decimal(n)[i]) <= '9',
{
    law_numbers_read_back(n, 10, max);
    law_numbers_are_written_plainly(n, 10);
    lemma_numeral(n, 10);
    assert forall|i: int| 0 <= i < decimal(n).len() implies '0' <= (#[trigger] decimal(n)[i])
        <= '9' by {
        assert(is_digit(numeral(n, 10)[i], 10));
    }
}

proof fn lemma_zeros(k: nat, s: Seq<char>, radix: int)
    requires
        2 <= radix <= 36,
    ensures
        value(Seq::new(k, |i: int| '0') + s, radix) == value(s, radix),
    decreases k + s.len(),
{
    let zeros = Seq::new(k, |i: int| '0');
    if s.len() > 0 {
        assert((zeros + s).drop_last() =~= zeros + s.drop_last());
        lemma_zeros(k, s.drop_last(), radix);
    } else {
        assert(zeros + s =~= zeros);
        if k > 0 {
            let fewer = Seq::new((k - 1) as nat, |i: int| '0');
            assert(zeros.drop_last() =~= fewer);
            lemma_zeros((k - 1) as nat, s, radix);
            assert(fewer + s =~= fewer);
            assert(0 * radix == 0);
        }
    }
}

/// A device's number is `0x` and at least four digits in base sixteen, in
/// lower case, that read back as itself; there are more only where it needs
/// them.
pub proof fn law_device_numbers_read_back(n: int, max: int)
    requires
        0 <= n <= max,
    ensures
        hex_id(n).len() >= 6,
        hex_id(n)[0] == '0',
        hex_id(n)[1] == 'x',
        number(hex_id(n).skip(2), 16, max) == Some(n),
        hex_id(n).len() > 6 ==> hex_id(n)[2] != '0',
        forall|i: int|
            2 <= i < hex_id(n).len() ==> '0' <= (#[trigger] hex_id(n)[i]) <= '9' || 'a' <= hex_id(
                n,
            )[i] <= 'f',
{
    let s = numeral(n, 16);
    lemma_numeral(n, 16);
    law_numbers_are_written_plainly(n, 16);
    let t = zero_padded(s, 4);
    assert(hex_id(n).skip(2) =~= t);
    let k: nat = if s.len() >= 4 {
        0
    } else {
        (4 - s.len()) as nat
    };
    let zeros = Seq::new(k, |i: int| '0');
    assert(t =~= zeros + s);
    lemma_zeros(k, s, 16);
    assert forall|i: int| 0 <= i < t.len() implies is_digit(#[trigger] t[i], 16) && ('0' <= t[i]
        <= '9' || 'a' <= t[i] <= 'f') by {
        if i >= k {
            assert(t[i] == s[i - k]);
            assert(is_digit(s[i - k], 16));
        }
    }
    assert(is_digit(t[0], 16));
    assert(unsigned(t) =~= t);
    assert forall|i: int| 2 <= i < hex_id(n).len() implies '0' <= (#[trigger] hex_id(n)[i]) <= '9'
        || 'a' <= hex_id(n)[i] <= 'f' by {
        assert(hex_id(n)[i] == t[i - 2]);
    }
    assert(hex_id(n)[2] == t[0]);
}

} // verus!

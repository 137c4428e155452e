//! Decimal text of whole numbers and of numbers of eighths.
//!
//! A whole number is written with its digits, without leading zeros, after a
//! minus sign where it is negative. A number of eighths is written as the
//! decimal fraction that it is: eight eighths are `1`, ten are `1.25`. An
//! eighth has three decimal places at most, so the text is exact. Every
//! number has one text only, and the readers here accept no other.

use vstd::prelude::*;
use vstd::string::*;

verus! {

/// The byte `-`.
pub(crate) const MINUS: u8 = 45;

/// The byte `.`.
pub(crate) const POINT: u8 = 46;

/// The byte `0`.
pub(crate) const ZERO: u8 = 48;

/// Whether `c` is one of the bytes `0` to `9`.
pub open spec fn is_digit(c: u8) -> bool {
    48 <= c <= 57
}

/// The byte that writes the digit `d`.
pub open spec fn digit(d: nat) -> u8
    recommends
        d < 10,
{
    (48 + d) as u8
}

/// The digits of `n`, the most significant first.
pub open spec fn dec(n: nat) -> Seq<u8>
    decreases n,
{
    if n < 10 {
        seq![digit(n)]
    } else {
        dec(n / 10).push(digit(n % 10))
    }
}

/// The text of the whole number `v`.
pub open spec fn signed(v: int) -> Seq<u8> {
    if v < 0 {
        seq![45u8] + dec((-v) as nat)
    } else {
        dec(v as nat)
    }
}

/// The decimal places of `e` eighths, with the point before them; nothing
/// for no eighth.
pub open spec fn fraction(e: int) -> Seq<u8> {
    if e == 1 {
        ".125".spec_bytes()
    } else if e == 2 {
        ".25".spec_bytes()
    } else if e == 3 {
        ".375".spec_bytes()
    } else if e == 4 {
        ".5".spec_bytes()
    } else if e == 5 {
        ".625".spec_bytes()
    } else if e == 6 {
        ".75".spec_bytes()
    } else if e == 7 {
        ".875".spec_bytes()
    } else {
        Seq::empty()
    }
}

/// The text of `t` eighths as a decimal fraction.
pub open spec fn eighths(t: int) -> Seq<u8> {
    let m = if t < 0 {
        -t
    } else {
        t
    };
    let sign = if t < 0 {
        seq![45u8]
    } else {
        Seq::empty()
    };
    sign + dec((m / 8) as nat) + fraction(m % 8)
}

/// Whether `input` begins with `lit`.
pub open spec fn has_prefix(input: Seq<u8>, lit: Seq<u8>) -> bool {
    lit.len() <= input.len() && input.take(lit.len() as int) == lit
}

/// Whether a number may end before `rest`: no digit follows.
pub open spec fn ends_whole(rest: Seq<u8>) -> bool {
    rest.len() == 0 || !is_digit(rest[0])
}

/// Whether a number of eighths may end before `rest`: neither a digit nor
/// a point follows.
pub open spec fn ends_eighths(rest: Seq<u8>) -> bool {
    rest.len() == 0 || (!is_digit(rest[0]) && rest[0] != 46)
}

/// Whether all bytes of `ds` are digits.
pub open spec fn all_digits(ds: Seq<u8>) -> bool {
    forall|i: int| 0 <= i < ds.len() ==> is_digit(#[trigger] ds[i])
}

/// Whether `ds` is the text of a natural number: digits, at least one, and
/// no zero before another digit.
pub open spec fn canonical(ds: Seq<u8>) -> bool {
    ds.len() >= 1 && all_digits(ds) && (ds.len() > 1 ==> ds[0] != 48)
}

/// The number that the digits `ds` write.
pub open spec fn value(ds: Seq<u8>) -> nat
    decreases ds.len(),
{
    if ds.len() == 0 {
        0
    } else {
        10 * value(ds.drop_last()) + (ds.last() - 48) as nat
    }
}

/// The number of digits with which `input` begins.
pub open spec fn digits(input: Seq<u8>) -> nat
    decreases input.len(),
{
    if input.len() > 0 && is_digit(input[0]) {
        1 + digits(input.skip(1))
    } else {
        0
    }
}

/// Reads the natural number with which `input` begins, and says what
/// follows it.
pub open spec fn parse_nat(input: Seq<u8>) -> Option<(nat, Seq<u8>)> {
    let k = digits(input);
    if k == 0 || (k > 1 && input[0] == 48) {
        None
    } else {
        Some((value(input.take(k as int)), input.skip(k as int)))
    }
}

/// Reads the whole number with which `input` begins.
pub open spec fn parse_signed(input: Seq<u8>) -> Option<(int, Seq<u8>)> {
    if input.len() > 0 && input[0] == 45 {
        match parse_nat(input.skip(1)) {
            Some((n, rest)) => if n == 0 {
                None
            } else {
                Some((-(n as int), rest))
            },
            None => None,
        }
    } else {
        match parse_nat(input) {
            Some((n, rest)) => Some((n as int, rest)),
            None => None,
        }
    }
}

/// Reads the 64-bit whole number with which `input` begins.
pub open spec fn parse_i64(input: Seq<u8>) -> Option<(i64, Seq<u8>)> {
    match parse_signed(input) {
        Some((v, rest)) => if i64::MIN <= v <= i64::MAX {
            Some((v as i64, rest))
        } else {
            None
        },
        None => None,
    }
}

/// Looks among the decimal places of `e` to seven eighths for those with
/// which `input` begins.
pub open spec fn find_fraction(input: Seq<u8>, e: int) -> Option<(int, Seq<u8>)>
    decreases 8 - e,
{
    if e < 1 || e > 7 {
        None
    } else if has_prefix(input, fraction(e)) {
        Some((e, input.skip(fraction(e).len() as int)))
    } else {
        find_fraction(input, e + 1)
    }
}

/// Reads the decimal places with which `input` begins, as a number of
/// eighths: none where no point stands first.
pub open spec fn parse_fraction(input: Seq<u8>) -> Option<(int, Seq<u8>)> {
    if input.len() == 0 || input[0] != 46 {
        Some((0, input))
    } else {
        find_fraction(input, 1)
    }
}

/// Reads the decimal fraction with which `input` begins, as a number of
/// eighths.
pub open spec fn parse_eighths(input: Seq<u8>) -> Option<(int, Seq<u8>)> {
    let neg = input.len() > 0 && input[0] == 45;
    let body = if neg {
        input.skip(1)
    } else {
        input
    };
    match parse_nat(body) {
        None => None,
        Some((n, after)) => match parse_fraction(after) {
            None => None,
            Some((e, rest)) => {
                let m = 8 * n + e;
                if neg && m == 0 {
                    None
                } else if neg {
                    Some((-m, rest))
                } else {
                    Some((m, rest))
                }
            },
        },
    }
}

/// The digits of a number are the text of a natural number, and write it.
pub proof fn lemma_dec(n: nat)
    ensures
        canonical(dec(n)),
        value(dec(n)) == n,
    decreases n,
{
    let empty = Seq::<u8>::empty();
    assert(value(empty) == 0);
    if n < 10 {
        assert(dec(n) =~= seq![digit(n)]);
        assert(dec(n).drop_last() =~= empty);
        assert(dec(n).last() == digit(n));
        assert(value(dec(n)) == 10 * value(empty) + (digit(n) - 48) as nat);
    } else {
        lemma_dec(n / 10);
        let d = dec(n / 10);
        let last = digit(n % 10);
        assert(dec(n) == d.push(last));
        assert(dec(n).drop_last() =~= d);
        assert(dec(n).last() == last);
        assert(value(dec(n)) == 10 * value(d) + (last - 48) as nat);
        assert forall|i: int| 0 <= i < dec(n).len() implies is_digit(#[trigger] dec(n)[i]) by {
            if i < d.len() {
                assert(dec(n)[i] == d[i]);
            }
        }
        if d.len() == 1 {
            assert(d.drop_last() =~= empty);
            assert(value(d) == 10 * value(empty) + (d.last() - 48) as nat);
        }
        assert(dec(n)[0] == d[0]);
    }
}

/// Digits that begin with no zero write a positive number.
proof fn lemma_value_positive(ds: Seq<u8>)
    requires
        all_digits(ds),
        ds.len() >= 1,
        ds[0] != 48,
    ensures
        value(ds) >= 1,
    decreases ds.len(),
{
    if ds.len() == 1 {
        assert(ds.drop_last() =~= Seq::<u8>::empty());
    } else {
        lemma_value_positive(ds.drop_last());
    }
}

/// The text of a natural number is the digits of the number that it writes.
pub proof fn lemma_value_dec(ds: Seq<u8>)
    requires
        canonical(ds),
    ensures
        dec(value(ds)) == ds,
    decreases ds.len(),
{
    let init = ds.drop_last();
    if ds.len() == 1 {
        assert(init =~= Seq::<u8>::empty());
        assert(dec(value(ds)) =~= ds);
    } else {
        lemma_value_dec(init);
        lemma_value_positive(init);
        assert(dec(value(ds)) =~= ds);
    }
}

/// What `digits` counts are digits, and the byte after them is none.
pub proof fn lemma_digits(input: Seq<u8>)
    ensures
        digits(input) <= input.len(),
        all_digits(input.take(digits(input) as int)),
        ends_whole(input.skip(digits(input) as int)),
    decreases input.len(),
{
    if input.len() > 0 && is_digit(input[0]) {
        let t = input.skip(1);
        lemma_digits(t);
        let k = digits(t);
        assert forall|i: int| 0 <= i < 1 + k implies is_digit(
            #[trigger] input.take(1 + k as int)[i],
        ) by {
            if i > 0 {
                assert(input.take(1 + k as int)[i] == t.take(k as int)[i - 1]);
            }
        }
        assert(input.skip(1 + k as int) =~= t.skip(k as int));
    }
}

/// Where `input` begins with `k` digits and no digit follows them,
/// `digits` counts `k`.
pub proof fn lemma_digits_run(input: Seq<u8>, k: nat)
    requires
        k <= input.len(),
        all_digits(input.take(k as int)),
        ends_whole(input.skip(k as int)),
    ensures
        digits(input) == k,
    decreases k,
{
    if k == 0 {
        assert(input.len() > 0 ==> input[0] == input.skip(0)[0]);
    } else {
        assert(is_digit(input.take(k as int)[0]));
        let t = input.skip(1);
        assert forall|i: int| 0 <= i < k - 1 implies is_digit(#[trigger] t.take(k - 1)[i]) by {
            assert(t.take(k - 1)[i] == input.take(k as int)[i + 1]);
        }
        assert(t.skip(k - 1) =~= input.skip(k as int));
        lemma_digits_run(t, (k - 1) as nat);
    }
}

/// The digits of `n`, followed by no digit, are read as `n`.
pub proof fn lemma_parse_nat_dec(n: nat, rest: Seq<u8>)
    requires
        ends_whole(rest),
    ensures
        parse_nat(dec(n) + rest) == Some((n, rest)),
{
    lemma_dec(n);
    let input = dec(n) + rest;
    let k = dec(n).len();
    assert(input.take(k as int) =~= dec(n));
    assert(input.skip(k as int) =~= rest);
    lemma_digits_run(input, k);
    assert(input[0] == dec(n)[0]);
}

/// What is read as a natural number is the digits of that number, and
/// something is read.
pub proof fn lemma_parse_nat_sound(input: Seq<u8>)
    requires
        parse_nat(input) is Some,
    ensures
        ({
            let (n, rest) = parse_nat(input)->0;
            &&& input == dec(n) + rest
            &&& rest.len() < input.len()
            &&& ends_whole(rest)
        }),
{
    lemma_digits(input);
    let k = digits(input);
    assert(input.take(k as int)[0] == input[0]);
    lemma_value_dec(input.take(k as int));
    assert(input =~= input.take(k as int) + input.skip(k as int));
}

/// The text of a whole number, followed by no digit, is read as that
/// number.
pub proof fn lemma_parse_signed(v: int, rest: Seq<u8>)
    requires
        ends_whole(rest),
    ensures
        parse_signed(signed(v) + rest) == Some((v, rest)),
{
    let input = signed(v) + rest;
    if v < 0 {
        let n = (-v) as nat;
        assert(input.skip(1) =~= dec(n) + rest);
        assert(input[0] == 45);
        lemma_parse_nat_dec(n, rest);
    } else {
        lemma_dec(v as nat);
        assert(input[0] == dec(v as nat)[0]);
        lemma_parse_nat_dec(v as nat, rest);
    }
}

/// What is read as a whole number is the text of that number, and
/// something is read.
pub proof fn lemma_parse_signed_sound(input: Seq<u8>)
    requires
        parse_signed(input) is Some,
    ensures
        ({
            let (v, rest) = parse_signed(input)->0;
            &&& input == signed(v) + rest
            &&& rest.len() < input.len()
            &&& ends_whole(rest)
        }),
{
    if input.len() > 0 && input[0] == 45 {
        lemma_parse_nat_sound(input.skip(1));
        let (n, rest) = parse_nat(input.skip(1))->0;
        assert(input =~= seq![45u8] + (dec(n) + rest));
        assert(seq![45u8] + (dec(n) + rest) =~= seq![45u8] + dec(n) + rest);
    } else {
        lemma_parse_nat_sound(input);
    }
}

/// The decimal places of one to seven eighths, byte by byte.
pub proof fn lemma_fraction_bytes()
    ensures
        fraction(1) == seq![46u8, 49u8, 50u8, 53u8],
        fraction(2) == seq![46u8, 50u8, 53u8],
        fraction(3) == seq![46u8, 51u8, 55u8, 53u8],
        fraction(4) == seq![46u8, 53u8],
        fraction(5) == seq![46u8, 54u8, 50u8, 53u8],
        fraction(6) == seq![46u8, 55u8, 53u8],
        fraction(7) == seq![46u8, 56u8, 55u8, 53u8],
{
    reveal_strlit(".125");
    reveal_strlit(".25");
    reveal_strlit(".375");
    reveal_strlit(".5");
    reveal_strlit(".625");
    reveal_strlit(".75");
    reveal_strlit(".875");
    is_ascii_spec_bytes(".125");
    is_ascii_spec_bytes(".25");
    is_ascii_spec_bytes(".375");
    is_ascii_spec_bytes(".5");
    is_ascii_spec_bytes(".625");
    is_ascii_spec_bytes(".75");
    is_ascii_spec_bytes(".875");
    assert(fraction(1) =~= seq![46u8, 49u8, 50u8, 53u8]);
    assert(fraction(2) =~= seq![46u8, 50u8, 53u8]);
    assert(fraction(3) =~= seq![46u8, 51u8, 55u8, 53u8]);
    assert(fraction(4) =~= seq![46u8, 53u8]);
    assert(fraction(5) =~= seq![46u8, 54u8, 50u8, 53u8]);
    assert(fraction(6) =~= seq![46u8, 55u8, 53u8]);
    assert(fraction(7) =~= seq![46u8, 56u8, 55u8, 53u8]);
}

/// The search for decimal places finds those that stand first.
proof fn lemma_find_fraction(e: int, rest: Seq<u8>, from: int)
    requires
        1 <= from <= e <= 7,
    ensures
        find_fraction(fraction(e) + rest, from) == Some((e, rest)),
    decreases e - from,
{
    lemma_fraction_bytes();
    let input = fraction(e) + rest;
    if from == e {
        assert(input.take(fraction(e).len() as int) =~= fraction(e));
        assert(input.skip(fraction(e).len() as int) =~= rest);
    } else {
        assert(input[1] == fraction(e)[1]);
        if has_prefix(input, fraction(from)) {
            assert(input.take(fraction(from).len() as int)[1] == fraction(from)[1]);
        }
        lemma_find_fraction(e, rest, from + 1);
    }
}

/// What the search for decimal places finds stands first.
proof fn lemma_find_fraction_sound(input: Seq<u8>, from: int)
    requires
        find_fraction(input, from) is Some,
    ensures
        ({
            let (e, rest) = find_fraction(input, from)->0;
            &&& 1 <= e <= 7
            &&& input == fraction(e) + rest
        }),
    decreases 8 - from,
{
    if has_prefix(input, fraction(from)) {
        let k = fraction(from).len() as int;
        assert(input =~= input.take(k) + input.skip(k));
    } else {
        lemma_find_fraction_sound(input, from + 1);
    }
}

/// The decimal places of `e` eighths are read as `e` eighths.
pub proof fn lemma_parse_fraction(e: int, rest: Seq<u8>)
    requires
        0 <= e <= 7,
        e == 0 ==> rest.len() == 0 || rest[0] != 46,
    ensures
        parse_fraction(fraction(e) + rest) == Some((e, rest)),
{
    lemma_fraction_bytes();
    let input = fraction(e) + rest;
    if e == 0 {
        assert(input =~= rest);
    } else {
        assert(input[0] == fraction(e)[0]);
        lemma_find_fraction(e, rest, 1);
    }
}

/// What is read as decimal places is the decimal places of that many
/// eighths.
pub proof fn lemma_parse_fraction_sound(input: Seq<u8>)
    requires
        parse_fraction(input) is Some,
    ensures
        ({
            let (e, rest) = parse_fraction(input)->0;
            &&& 0 <= e <= 7
            &&& input == fraction(e) + rest
            &&& rest.len() <= input.len()
        }),
{
    if input.len() == 0 || input[0] != 46 {
        assert(input =~= fraction(0) + input);
    } else {
        lemma_find_fraction_sound(input, 1);
    }
}

/// The text of a number of eighths, followed by neither a digit nor a
/// point, is read as that number.
pub proof fn lemma_parse_eighths(t: int, rest: Seq<u8>)
    requires
        ends_eighths(rest),
    ensures
        parse_eighths(eighths(t) + rest) == Some((t, rest)),
{
    lemma_fraction_bytes();
    let m = if t < 0 {
        -t
    } else {
        t
    };
    let n = (m / 8) as nat;
    let e = m % 8;
    let input = eighths(t) + rest;
    let after = fraction(e) + rest;
    assert(ends_whole(after)) by {
        if e == 0 {
            assert(after =~= rest);
        } else {
            assert(after[0] == fraction(e)[0]);
        }
    }
    lemma_parse_nat_dec(n, after);
    lemma_parse_fraction(e, rest);
    lemma_dec(n);
    if t < 0 {
        assert(input[0] == 45);
        assert(input.skip(1) =~= dec(n) + after);
    } else {
        assert(input[0] == dec(n)[0]);
        assert(input =~= dec(n) + after);
    }
}

/// What is read as a number of eighths is the text of that number, and
/// something is read.
pub proof fn lemma_parse_eighths_sound(input: Seq<u8>)
    requires
        parse_eighths(input) is Some,
    ensures
        ({
            let (t, rest) = parse_eighths(input)->0;
            &&& input == eighths(t) + rest
            &&& rest.len() < input.len()
        }),
{
    let neg = input.len() > 0 && input[0] == 45;
    let body = if neg {
        input.skip(1)
    } else {
        input
    };
    lemma_parse_nat_sound(body);
    let (n, after) = parse_nat(body)->0;
    lemma_parse_fraction_sound(after);
    let (e, rest) = parse_fraction(after)->0;
    let (t, _r) = parse_eighths(input)->0;
    let m = 8 * n + e;
    assert(m / 8 == n && m % 8 == e);
    assert(body =~= dec(n) + fraction(e) + rest);
    if neg {
        assert(input =~= seq![45u8] + body);
        assert(input =~= eighths(t) + rest);
    } else {
        assert(input =~= eighths(t) + rest);
    }
}

/// Appends the digits of `n` to `out`.
pub(crate) fn write_nat(out: &mut Vec<u8>, n: u128)
    ensures
        final(out)@ == old(out)@ + dec(n as nat),
    decreases n,
{
    if n >= 10 {
        write_nat(out, n / 10);
    }
    let last: u8 = 48 + (n % 10) as u8;
    out.push(last);
    proof {
        if n < 10 {
            assert(out@ =~= old(out)@ + dec(n as nat));
        } else {
            assert(out@ =~= old(out)@ + dec((n / 10) as nat).push(last));
        }
    }
}

/// Appends the text of the whole number `v` to `out`.
pub(crate) fn write_i64(out: &mut Vec<u8>, v: i64)
    ensures
        final(out)@ == old(out)@ + signed(v as int),
{
    if v < 0 {
        out.push(MINUS);
        let n: u128 = (-(v as i128)) as u128;
        write_nat(out, n);
        assert(out@ =~= old(out)@ + (seq![45u8] + dec(n as nat)));
    } else {
        write_nat(out, v as u128);
    }
}

/// The decimal places of `e` eighths as a string.
fn fraction_text(e: u8) -> (s: &'static str)
    requires
        1 <= e <= 7,
    ensures
        s.spec_bytes() == fraction(e as int),
{
    if e == 1 {
        ".125"
    } else if e == 2 {
        ".25"
    } else if e == 3 {
        ".375"
    } else if e == 4 {
        ".5"
    } else if e == 5 {
        ".625"
    } else if e == 6 {
        ".75"
    } else {
        ".875"
    }
}

/// Appends the text of `t` eighths, as a decimal fraction, to `out`.
pub(crate) fn write_eighths(out: &mut Vec<u8>, t: i128)
    ensures
        final(out)@ == old(out)@ + eighths(t as int),
{
    let m: u128 = if t == i128::MIN {
        0x8000_0000_0000_0000_0000_0000_0000_0000u128
    } else if t < 0 {
        (-t) as u128
    } else {
        t as u128
    };
    if t < 0 {
        out.push(MINUS);
    }
    let ghost signed_out = out@;
    write_nat(out, m / 8);
    let e: u8 = (m % 8) as u8;
    if e != 0 {
        out.extend_from_slice(fraction_text(e).as_bytes());
    }
    proof {
        let sign = if t < 0 {
            seq![45u8]
        } else {
            Seq::<u8>::empty()
        };
        assert(signed_out =~= old(out)@ + sign);
        assert(out@ =~= old(out)@ + (sign + dec((m / 8) as nat) + fraction(e as int)));
    }
}

/// Tells whether `lit` stands in `bytes` at `pos`, and where it ends.
pub(crate) fn expect(bytes: &[u8], pos: usize, lit: &str) -> (r: Option<usize>)
    requires
        pos <= bytes.len(),
    ensures
        r is Some <==> has_prefix(bytes@.skip(pos as int), lit.spec_bytes()),
        r matches Some(end) ==> end == pos + lit.spec_bytes().len() && end <= bytes.len(),
{
    let want = lit.as_bytes();
    let ghost input = bytes@.skip(pos as int);
    if bytes.len() - pos < want.len() {
        return None;
    }
    let mut i: usize = 0;
    while i < want.len()
        invariant
            i <= want.len(),
            pos + want.len() <= bytes.len(),
            want@ == lit.spec_bytes(),
            input == bytes@.skip(pos as int),
            forall|j: int| 0 <= j < i ==> bytes@[pos + j] == want@[j],
        decreases want.len() - i,
    {
        if bytes[pos + i] != want[i] {
            assert(input.take(want@.len() as int)[i as int] != want@[i as int]);
            return None;
        }
        i += 1;
    }
    assert(input.take(want@.len() as int) =~= want@);
    Some(pos + want.len())
}

/// Reads the natural number that stands in `bytes` at `pos`, if it is
/// not above `max`, and tells where it ends.
pub(crate) fn read_nat(bytes: &[u8], pos: usize, max: u128) -> (r: Option<(u128, usize)>)
    requires
        pos <= bytes.len(),
    ensures
        match parse_nat(bytes@.skip(pos as int)) {
            Some((n, rest)) => if n <= max {
                &&& r matches Some((m, end))
                &&& m == n
                &&& pos < end <= bytes.len()
                &&& rest == bytes@.skip(end as int)
            } else {
                r is None
            },
            None => r is None,
        },
{
    let len = bytes.len();
    let ghost input = bytes@.skip(pos as int);
    let mut i: usize = pos;
    let mut acc: u128 = 0;
    let mut over = false;
    assert(input.take(0) =~= Seq::<u8>::empty());
    while i < len && bytes[i] >= 48 && bytes[i] <= 57
        invariant
            pos <= i <= len,
            len == bytes.len(),
            input == bytes@.skip(pos as int),
            all_digits(input.take(i - pos)),
            !over ==> acc == value(input.take(i - pos)) && acc <= max,
            over ==> value(input.take(i - pos)) > max,
        decreases len - i,
    {
        let d: u128 = (bytes[i] - 48) as u128;
        proof {
            let before = input.take(i - pos);
            let now = input.take(i + 1 - pos);
            assert(now.drop_last() =~= before);
            assert(now.last() == bytes@[i as int]);
            assert(value(now) == 10 * value(before) + d);
            assert forall|j: int| 0 <= j < now.len() implies is_digit(#[trigger] now[j]) by {
                if j < before.len() {
                    assert(now[j] == before[j]);
                }
            }
        }
        if !over {
            if acc > max / 10 || (acc == max / 10 && d > max % 10) {
                over = true;
            } else {
                acc = acc * 10 + d;
            }
        }
        i += 1;
    }
    proof {
        let k = (i - pos) as nat;
        if i < len {
            assert(input.skip(k as int)[0] == bytes@[i as int]);
        }
        lemma_digits_run(input, k);
        assert(input.skip(k as int) =~= bytes@.skip(i as int));
        if k > 0 {
            assert(input[0] == bytes@[pos as int]);
        }
    }
    if i == pos || (i - pos > 1 && bytes[pos] == ZERO) || over {
        None
    } else {
        Some((acc, i))
    }
}

/// Reads the 64-bit whole number that stands in `bytes` at `pos`, and
/// tells where it ends.
pub(crate) fn read_i64(bytes: &[u8], pos: usize) -> (r: Option<(i64, usize)>)
    requires
        pos <= bytes.len(),
    ensures
        match parse_i64(bytes@.skip(pos as int)) {
            Some((v, rest)) => {
                &&& r matches Some((w, end))
                &&& w == v
                &&& pos < end <= bytes.len()
                &&& rest == bytes@.skip(end as int)
            },
            None => r is None,
        },
{
    let ghost input = bytes@.skip(pos as int);
    let neg = pos < bytes.len() && bytes[pos] == MINUS;
    proof {
        if pos < bytes.len() {
            assert(input[0] == bytes@[pos as int]);
            assert(input.skip(1) =~= bytes@.skip(pos + 1));
        }
    }
    if neg {
        match read_nat(bytes, pos + 1, 0x8000_0000_0000_0000u128) {
            None => None,
            Some((n, end)) => {
                if n == 0 {
                    None
                } else if n == 0x8000_0000_0000_0000u128 {
                    Some((i64::MIN, end))
                } else {
                    Some((-(n as i64), end))
                }
            },
        }
    } else {
        match read_nat(bytes, pos, 0x7fff_ffff_ffff_ffffu128) {
            None => None,
            Some((n, end)) => Some((n as i64, end)),
        }
    }
}

/// Reads the decimal places that stand in `bytes` at `pos`, as a number
/// of eighths, and tells where they end.
pub(crate) fn read_fraction(bytes: &[u8], pos: usize) -> (r: Option<(u8, usize)>)
    requires
        pos <= bytes.len(),
    ensures
        match parse_fraction(bytes@.skip(pos as int)) {
            Some((e, rest)) => {
                &&& r matches Some((f, end))
                &&& f == e
                &&& pos <= end <= bytes.len()
                &&& rest == bytes@.skip(end as int)
            },
            None => r is None,
        },
{
    let ghost input = bytes@.skip(pos as int);
    if pos == bytes.len() || bytes[pos] != POINT {
        proof {
            if pos < bytes.len() {
                assert(input[0] == bytes@[pos as int]);
            }
        }
        return Some((0, pos));
    }
    assert(input[0] == bytes@[pos as int]);
    let mut e: u8 = 1;
    while e <= 7
        invariant
            1 <= e <= 8,
            pos <= bytes.len(),
            input == bytes@.skip(pos as int),
            parse_fraction(input) == find_fraction(input, e as int),
        decreases 8 - e,
    {
        match expect(bytes, pos, fraction_text(e)) {
            Some(end) => {
                assert(input.skip(fraction(e as int).len() as int) =~= bytes@.skip(end as int));
                return Some((e, end));
            },
            None => {},
        }
        e += 1;
    }
    None
}

/// Reads the decimal fraction that stands in `bytes` at `pos`, as a
/// number of eighths that fits 128 bits, and tells where it ends.
pub(crate) fn read_eighths(bytes: &[u8], pos: usize) -> (r: Option<(i128, usize)>)
    requires
        pos <= bytes.len(),
    ensures
        match parse_eighths(bytes@.skip(pos as int)) {
            Some((t, rest)) => if i128::MIN <= t <= i128::MAX {
                &&& r matches Some((u, end))
                &&& u == t
                &&& pos < end <= bytes.len()
                &&& rest == bytes@.skip(end as int)
            } else {
                r is None
            },
            None => r is None,
        },
{
    let ghost input = bytes@.skip(pos as int);
    let neg = pos < bytes.len() && bytes[pos] == MINUS;
    proof {
        if pos < bytes.len() {
            assert(input[0] == bytes@[pos as int]);
            assert(input.skip(1) =~= bytes@.skip(pos + 1));
        }
    }
    let start: usize = if neg {
        pos + 1
    } else {
        pos
    };
    proof {
        if parse_nat(bytes@.skip(start as int)) is Some {
            lemma_parse_nat_sound(bytes@.skip(start as int));
            let (n, after) = parse_nat(bytes@.skip(start as int))->0;
            if parse_fraction(after) is Some {
                lemma_parse_fraction_sound(after);
            }
        }
    }
    let (n, mid) = match read_nat(bytes, start, 0x1000_0000_0000_0000_0000_0000_0000_0000u128) {
        None => {
            return None;
        },
        Some(found) => found,
    };
    let (e, end) = match read_fraction(bytes, mid) {
        None => {
            return None;
        },
        Some(found) => found,
    };
    let m: u128 = 8 * n + e as u128;
    if neg {
        if m == 0 || m > 0x8000_0000_0000_0000_0000_0000_0000_0000u128 {
            None
        } else if m == 0x8000_0000_0000_0000_0000_0000_0000_0000u128 {
            Some((i128::MIN, end))
        } else {
            Some((-(m as i128), end))
        }
    } else {
        if m > 0x7fff_ffff_ffff_ffff_ffff_ffff_ffff_ffffu128 {
            None
        } else {
            Some((m as i128, end))
        }
    }
}

} // verus!

//! The text of a scored feature vector: every feature rounded to four
//! decimals, written with as few digits as that takes, and joined by commas.
//!
//! A feature is given as its value scaled by 10 000 and rounded to an
//! integer, or as `None` when the value is not a number.
use vstd::prelude::*;
use vstd::string::StringExecFns;
use crate::vector::VECTOR_DIM;

verus! {

/// The decimal digit `d`.
pub open spec fn digit_char(d: int) -> char {
    if d == 0 {
        '0'
    } else if d == 1 {
        '1'
    } else if d == 2 {
        '2'
    } else if d == 3 {
        '3'
    } else if d == 4 {
        '4'
    } else if d == 5 {
        '5'
    } else if d == 6 {
        '6'
    } else if d == 7 {
        '7'
    } else if d == 8 {
        '8'
    } else {
        '9'
    }
}

/// The decimal digits of `n`, without leading zeros (`0` for zero).
pub open spec fn decimal(n: nat) -> Seq<char>
    decreases n,
{
    if n < 10 {
        seq![digit_char(n as int)]
    } else {
        decimal(n / 10).push(digit_char((n % 10) as int))
    }
}

/// The four decimals of a fraction given in ten-thousandths, zero-padded.
pub open spec fn four_decimals(f: nat) -> Seq<char> {
    seq![
        digit_char(((f / 1000) % 10) as int),
        digit_char(((f / 100) % 10) as int),
        digit_char(((f / 10) % 10) as int),
        digit_char((f % 10) as int),
    ]
}

/// `s` without its trailing zeros.
pub open spec fn trim_zeros(s: Seq<char>) -> Seq<char>
    decreases s.len(),
{
    if s.len() > 0 && s.last() == '0' {
        trim_zeros(s.drop_last())
    } else {
        s
    }
}

/// The text of a feature whose value, scaled by 10 000, is `n`: an integer
/// when the value is whole, and otherwise the integer part, a point and the
/// decimals without trailing zeros; negative values take a minus sign.
pub open spec fn feature_text(n: int) -> Seq<char> {
    let a = if n < 0 { -n } else { n };
    let sign = if n < 0 { seq!['-'] } else { Seq::<char>::empty() };
    if a % 10000 == 0 {
        sign + decimal((a / 10000) as nat)
    } else {
        sign + decimal((a / 10000) as nat) + seq!['.'] + trim_zeros(four_decimals((a % 10000) as nat))
    }
}

/// The text of a feature, or `NaN` for a value that is not a number.
pub open spec fn feature_or_nan_text(f: Option<i64>) -> Seq<char> {
    match f {
        Some(n) => feature_text(n as int),
        None => seq!['N', 'a', 'N'],
    }
}

/// The texts of the features joined by commas.
pub open spec fn joined_text(fs: Seq<Option<i64>>) -> Seq<char>
    decreases fs.len(),
{
    if fs.len() == 0 {
        Seq::empty()
    } else if fs.len() == 1 {
        feature_or_nan_text(fs[0])
    } else {
        joined_text(fs.drop_last()) + seq![','] + feature_or_nan_text(fs.last())
    }
}

/// Whether `c` is one of the decimal digits `0` to `9`.
pub open spec fn is_digit(c: char) -> bool {
    48 <= (c as int) && (c as int) <= 57
}

/// The value of the decimal digit `c`: its code point's distance from `0`.
pub open spec fn char_digit(c: char) -> int {
    (c as int) - 48
}

/// The number that the decimal digits `s` spell, most significant first.
pub open spec fn digits_value(s: Seq<char>) -> int
    decreases s.len(),
{
    if s.len() == 0 {
        0
    } else {
        digits_value(s.drop_last()) * 10 + char_digit(s.last())
    }
}

/// Ten to the power `n`.
pub open spec fn pow10(n: nat) -> int
    decreases n,
{
    if n == 0 {
        1
    } else {
        10 * pow10((n - 1) as nat)
    }
}

/// The character written for a digit is a decimal digit of that value.
proof fn lemma_digit_char(d: int)
    requires
        0 <= d < 10,
    ensures
        is_digit(digit_char(d)),
        char_digit(digit_char(d)) == d,
{
}

/// The integer part of a feature reads back as the number it was written
/// from: it is made of decimal digits, has no leading zero (but for zero
/// itself), and spells `m`.
pub proof fn lemma_decimal_reads_back(m: nat)
    ensures
        decimal(m).len() >= 1,
        forall|i: int| 0 <= i < decimal(m).len() ==> is_digit(#[trigger] decimal(m)[i]),
        m > 0 ==> decimal(m)[0] != '0',
        digits_value(decimal(m)) == m,
    decreases m,
{
    if m < 10 {
        lemma_digit_char(m as int);
        let s = decimal(m);
        assert(s.drop_last() =~= Seq::<char>::empty());
        assert(digits_value(Seq::<char>::empty()) == 0);
        assert(digits_value(s) == digits_value(s.drop_last()) * 10 + char_digit(s.last()));
    } else {
        lemma_decimal_reads_back(m / 10);
        lemma_digit_char((m % 10) as int);
        let p = decimal(m / 10);
        let s = decimal(m);
        assert(s == p.push(digit_char((m % 10) as int)));
        assert(s.drop_last() =~= p);
        assert(digits_value(s) == digits_value(p) * 10 + char_digit(s.last()));
        assert(digits_value(p) * 10 + (m % 10) == m);
        assert forall|i: int| 0 <= i < s.len() implies is_digit(#[trigger] s[i]) by {
            if i < p.len() {
                assert(s[i] == p[i]);
            }
        }
        assert(s[0] == p[0]);
    }
}

/// Dropping trailing zeros from decimal digits keeps a prefix whose value,
/// shifted back by the dropped places, is the value of the digits.
proof fn lemma_trim_zeros_value(s: Seq<char>)
    requires
        forall|i: int| 0 <= i < s.len() ==> is_digit(#[trigger] s[i]),
    ensures
        trim_zeros(s).len() <= s.len(),
        trim_zeros(s) == s.take(trim_zeros(s).len() as int),
        trim_zeros(s).len() > 0 ==> trim_zeros(s).last() != '0',
        digits_value(s) == digits_value(trim_zeros(s)) * pow10((s.len() - trim_zeros(s).len()) as nat),
    decreases s.len(),
{
    if s.len() > 0 && s.last() == '0' {
        let r = s.drop_last();
        assert forall|i: int| 0 <= i < r.len() implies is_digit(#[trigger] r[i]) by {
            assert(r[i] == s[i]);
        }
        lemma_trim_zeros_value(r);
        let t = trim_zeros(r);
        assert(trim_zeros(s) == t);
        assert(t =~= s.take(t.len() as int));
        let k = (r.len() - t.len()) as nat;
        assert(pow10((k + 1) as nat) == 10 * pow10(k));
        assert(digits_value(s) == digits_value(r) * 10);
        assert(digits_value(t) * pow10(k) * 10 == digits_value(t) * (10 * pow10(k))) by (nonlinear_arith);
    } else {
        assert(s.take(s.len() as int) =~= s);
    }
}

/// The decimals of a feature that is not whole read back as its fraction:
/// for a fraction `f` of `1` to `9999` ten-thousandths, the digits written
/// after the point are one to four decimal digits, the last of them not
/// zero, and, padded back to four places, they spell `f`.
pub proof fn lemma_fraction_reads_back(f: nat)
    requires
        0 < f < 10000,
    ensures
        1 <= trim_zeros(four_decimals(f)).len() <= 4,
        trim_zeros(four_decimals(f)).last() != '0',
        forall|i: int|
            0 <= i < trim_zeros(four_decimals(f)).len() ==> is_digit(#[trigger] trim_zeros(four_decimals(f))[i]),
        digits_value(trim_zeros(four_decimals(f))) * pow10((4 - trim_zeros(four_decimals(f)).len()) as nat) == f,
{
    let d0 = ((f / 1000) % 10) as int;
    let d1 = ((f / 100) % 10) as int;
    let d2 = ((f / 10) % 10) as int;
    let d3 = (f % 10) as int;
    lemma_digit_char(d0);
    lemma_digit_char(d1);
    lemma_digit_char(d2);
    lemma_digit_char(d3);
    let s = four_decimals(f);
    assert forall|i: int| 0 <= i < s.len() implies is_digit(#[trigger] s[i]) by {
    }
    assert(s.drop_last() =~= seq![digit_char(d0), digit_char(d1), digit_char(d2)]);
    assert(s.drop_last().drop_last() =~= seq![digit_char(d0), digit_char(d1)]);
    assert(s.drop_last().drop_last().drop_last() =~= seq![digit_char(d0)]);
    assert(s.drop_last().drop_last().drop_last().drop_last() =~= Seq::<char>::empty());
    assert(digits_value(Seq::<char>::empty()) == 0);
    assert(seq![digit_char(d0)].drop_last() =~= Seq::<char>::empty());
    assert(seq![digit_char(d0), digit_char(d1)].drop_last() =~= seq![digit_char(d0)]);
    assert(seq![digit_char(d0), digit_char(d1), digit_char(d2)].drop_last() =~= seq![digit_char(d0), digit_char(d1)]);
    assert(digits_value(seq![digit_char(d0)]) == d0);
    assert(digits_value(seq![digit_char(d0), digit_char(d1)]) == d0 * 10 + d1);
    assert(digits_value(seq![digit_char(d0), digit_char(d1), digit_char(d2)]) == (d0 * 10 + d1) * 10 + d2);
    assert(digits_value(s) == ((d0 * 10 + d1) * 10 + d2) * 10 + d3);
    assert(((d0 * 10 + d1) * 10 + d2) * 10 + d3 == f) by (nonlinear_arith)
        requires
            f < 10000,
            d0 == (f / 1000) % 10,
            d1 == (f / 100) % 10,
            d2 == (f / 10) % 10,
            d3 == f % 10,
    ;
    lemma_trim_zeros_value(s);
    let t = trim_zeros(s);
    assert forall|i: int| 0 <= i < t.len() implies is_digit(#[trigger] t[i]) by {
        assert(t[i] == s[i]);
    }
    if t.len() == 0 {
        assert(digits_value(t) == 0);
        assert(digits_value(t) * pow10(4) == 0);
    }
}

/// `t[from..to]` is a run of decimal digits that spells `v`.
pub open spec fn spells(t: Seq<char>, from: int, to: int, v: int) -> bool {
    &&& 0 <= from < to <= t.len()
    &&& forall|i: int| from <= i < to ==> is_digit(#[trigger] t[i])
    &&& digits_value(t.subrange(from, to)) == v
}

/// The length of the sign written before a feature scaled to `n`.
pub open spec fn sign_len(n: int) -> int {
    if n < 0 {
        1
    } else {
        0
    }
}

/// The text of the feature scaled to `n` splits at `p`: before `p`, after
/// any sign, the digits of the whole part of `|n| / 10 000`, without a
/// leading zero; from `p` on nothing when `|n|` is a multiple of 10 000, and
/// otherwise a point and one to four decimals, the last not zero, that
/// padded to four places spell `|n| % 10 000`.
pub open spec fn reads_back_at(n: int, p: int) -> bool {
    let a = if n < 0 { -n } else { n };
    let t = feature_text(n);
    let s = sign_len(n);
    &&& spells(t, s, p, a / 10000)
    &&& (t[s] == '0' ==> p == s + 1)
    &&& (a % 10000 == 0 ==> p == t.len())
    &&& (a % 10000 != 0 ==> {
        &&& p + 1 < t.len() <= p + 5
        &&& t[p] == '.'
        &&& t.last() != '0'
        &&& spells(t, p + 1, t.len() as int, (a % 10000) / pow10((p + 5 - t.len()) as nat))
        &&& (a % 10000) % pow10((p + 5 - t.len()) as nat) == 0
    })
}

/// The text of a feature reads back as its value: scaled by 10 000, `n`
/// is written as a minus sign exactly when it is negative, then the digits
/// of the whole part of `|n| / 10 000`, without a leading zero, and then,
/// exactly when `|n|` is not a multiple of 10 000, a point and one to four
/// decimals, the last not zero, that padded to four places spell
/// `|n| % 10 000`.
pub proof fn lemma_feature_text_reads_back(n: int)
    ensures
        (feature_text(n).len() > 0 && feature_text(n)[0] == '-') <==> n < 0,
        exists|p: int| #[trigger] reads_back_at(n, p),
{
    let a = if n < 0 { -n } else { n };
    let t = feature_text(n);
    let sign = if n < 0 { seq!['-'] } else { Seq::<char>::empty() };
    let s = sign_len(n);
    let q = (a / 10000) as nat;
    let ip = decimal(q);
    lemma_decimal_reads_back(q);
    let p = s + ip.len();
    if a % 10000 == 0 {
        assert(t == sign + ip);
    } else {
        let f = (a % 10000) as nat;
        lemma_fraction_reads_back(f);
        let fr = trim_zeros(four_decimals(f));
        assert(t == sign + ip + seq!['.'] + fr);
        assert(t.subrange(p + 1, t.len() as int) =~= fr);
        assert(t[p] == '.');
        assert forall|i: int| p + 1 <= i < t.len() implies is_digit(#[trigger] t[i]) by {
            assert(t[i] == fr[i - p - 1]);
        }
        let k = (p + 5 - t.len()) as nat;
        assert(k == 4 - fr.len());
        let v = digits_value(fr);
        assert(v * pow10(k) == f);
        reveal_with_fuel(pow10, 5);
        assert(pow10(k) > 0);
        assert((f as int) / pow10(k) == v && (f as int) % pow10(k) == 0) by {
            vstd::arithmetic::div_mod::lemma_fundamental_div_mod_converse(f as int, pow10(k), v, 0);
        }
        assert(t.last() == fr.last());
    }
    assert(t.subrange(s, p) =~= ip);
    assert forall|i: int| s <= i < p implies is_digit(#[trigger] t[i]) by {
        assert(t[i] == ip[i - s]);
    }
    assert(t[s] == ip[0]);
    if ip[0] == '0' {
        assert(q == 0) by {
            if q > 0 {
                assert(ip[0] != '0');
            }
        }
        assert(ip.len() == 1);
    }
    if n < 0 {
        assert(t[0] == '-');
    } else if t.len() > 0 {
        assert(t[0] == ip[0]);
        lemma_digit_char(0);
        assert(is_digit(ip[0]));
    }
    assert(spells(t, s, p, a / 10000));
    assert(reads_back_at(n, p));
}

/// Appends the digit `d`.
fn push_digit(s: &mut String, d: u64)
    requires
        d < 10,
    ensures
        final(s)@ == old(s)@.push(digit_char(d as int)),
{
    let t: &str = if d == 0 {
        proof {
            reveal_strlit("0");
        }
        "0"
    } else if d == 1 {
        proof {
            reveal_strlit("1");
        }
        "1"
    } else if d == 2 {
        proof {
            reveal_strlit("2");
        }
        "2"
    } else if d == 3 {
        proof {
            reveal_strlit("3");
        }
        "3"
    } else if d == 4 {
        proof {
            reveal_strlit("4");
        }
        "4"
    } else if d == 5 {
        proof {
            reveal_strlit("5");
        }
        "5"
    } else if d == 6 {
        proof {
            reveal_strlit("6");
        }
        "6"
    } else if d == 7 {
        proof {
            reveal_strlit("7");
        }
        "7"
    } else if d == 8 {
        proof {
            reveal_strlit("8");
        }
        "8"
    } else {
        proof {
            reveal_strlit("9");
        }
        "9"
    };
    assert(t@ =~= seq![digit_char(d as int)]);
    s.append(t);
}

/// Appends the decimal digits of `n`.
fn push_decimal(s: &mut String, n: u64)
    ensures
        final(s)@ == old(s)@ + decimal(n as nat),
    decreases n,
{
    if n >= 10 {
        push_decimal(s, n / 10);
        push_digit(s, n % 10);
        assert(decimal(n as nat) == decimal((n / 10) as nat).push(digit_char((n % 10) as int)));
    } else {
        push_digit(s, n);
    }
    assert(final(s)@ =~= old(s)@ + decimal(n as nat));
}

/// Appends a string literal.
fn push_str(s: &mut String, t: &str)
    ensures
        final(s)@ == old(s)@ + t@,
{
    s.append(t);
}

/// The text of a feature whose value, scaled by 10 000, is `n`.
pub fn feature_to_string(n: i64) -> (text: String)
    ensures
        text@ == feature_text(n as int),
{
    let a: u64 = if n < 0 {
        ((-(n + 1)) as u64) + 1
    } else {
        n as u64
    };
    assert(a as int == if n < 0 { -n } else { n as int });
    let mut s = String::new();
    if n < 0 {
        proof {
            reveal_strlit("-");
        }
        push_str(&mut s, "-");
    }
    assert(s@ =~= if n < 0 { seq!['-'] } else { Seq::<char>::empty() });
    push_decimal(&mut s, a / 10000);
    let frac = a % 10000;
    if frac != 0 {
        proof {
            reveal_strlit(".");
        }
        push_str(&mut s, ".");
        let digits: [u64; 4] = [(frac / 1000) % 10, (frac / 100) % 10, (frac / 10) % 10, frac % 10];
        let mut keep: usize = 4;
        assert(four_decimals(frac as nat).take(4) =~= four_decimals(frac as nat));
        while keep > 0 && digits[keep - 1] == 0
            invariant
                keep <= 4,
                digits@ == seq![(frac / 1000) % 10, (frac / 100) % 10, (frac / 10) % 10, frac % 10],
                trim_zeros(four_decimals(frac as nat)) == trim_zeros(four_decimals(frac as nat).take(keep as int)),
                forall|j: int| keep <= j < 4 ==> digits[j] == 0,
            decreases keep,
        {
            let ghost f = four_decimals(frac as nat).take(keep as int);
            assert(f.last() == '0');
            assert(f.drop_last() =~= four_decimals(frac as nat).take(keep - 1));
            keep = keep - 1;
        }
        let ghost kept = four_decimals(frac as nat).take(keep as int);
        assert(keep > 0) by {
            if keep == 0 {
                assert(digits[0] == 0 && digits[1] == 0 && digits[2] == 0 && digits[3] == 0);
                assert(frac == 0) by (nonlinear_arith)
                    requires
                        frac < 10000,
                        (frac / 1000) % 10 == 0,
                        (frac / 100) % 10 == 0,
                        (frac / 10) % 10 == 0,
                        frac % 10 == 0,
                ;
            }
        }
        assert(digits[keep - 1] != 0);
        assert(kept.last() == digit_char(digits[keep - 1] as int));
        assert(trim_zeros(kept) == kept);
        let ghost prefix = s@;
        let mut i: usize = 0;
        while i < keep
            invariant
                i <= keep <= 4,
                digits@ == seq![(frac / 1000) % 10, (frac / 100) % 10, (frac / 10) % 10, frac % 10],
                kept == four_decimals(frac as nat).take(keep as int),
                s@ == prefix + kept.take(i as int),
            decreases keep - i,
        {
            push_digit(&mut s, digits[i]);
            assert(kept.take(i + 1) =~= kept.take(i as int).push(digit_char(digits[i as int] as int)));
            i = i + 1;
        }
        assert(kept.take(keep as int) =~= kept);
    }
    assert(s@ =~= feature_text(n as int));
    s
}

/// The text of a scored feature vector: the texts of its features, joined
/// by commas.
pub fn format_features(features: &[Option<i64>; VECTOR_DIM]) -> (text: String)
    ensures
        text@ == joined_text(features@),
{
    let mut s = String::new();
    let mut i: usize = 0;
    assert(features@.take(0) =~= Seq::<Option<i64>>::empty());
    while i < VECTOR_DIM
        invariant
            i <= VECTOR_DIM,
            s@ == joined_text(features@.take(i as int)),
        decreases VECTOR_DIM - i,
    {
        let ghost before = s@;
        if i > 0 {
            proof {
                reveal_strlit(",");
            }
            push_str(&mut s, ",");
        }
        let piece = match features[i] {
            Some(n) => feature_to_string(n),
            None => {
                proof {
                    reveal_strlit("NaN");
                }
                let t = String::from_str("NaN");
                assert(t@ =~= seq!['N', 'a', 'N']);
                t
            },
        };
        push_str(&mut s, piece.as_str());
        let ghost next = features@.take(i + 1);
        assert(next.drop_last() =~= features@.take(i as int));
        assert(next.last() == features@[i as int]);
        if i > 0 {
            assert(s@ =~= joined_text(next));
        } else {
            assert(s@ =~= joined_text(next));
        }
        i = i + 1;
    }
    assert(features@.take(VECTOR_DIM as int) =~= features@);
    s
}

} // verus!

//! Decimal numerals.
//!
//! Node counts travel between the backends and the library as decimal text.
//! This module gives the mathematical reading of such text (`dec_val`), the
//! canonical rendering of a number (`dec_digits`), executable conversions in
//! both directions, and the column width used when counts are tabulated.
use vstd::prelude::*;

verus! {

/// `c` is one of the ten decimal digit characters.
pub open spec fn is_digit_char(c: char) -> bool {
    48 <= c as int <= 57
}

/// The numeric value of a digit character.
pub open spec fn digit_val(c: char) -> nat {
    (c as int - 48) as nat
}

/// Every character of `s` is a decimal digit.
pub open spec fn all_digits(s: Seq<char>) -> bool {
    forall|i: int| 0 <= i < s.len() ==> is_digit_char(#[trigger] s[i])
}

/// The value of `s` read as a big-endian decimal numeral.
pub open spec fn dec_val(s: Seq<char>) -> nat
    decreases s.len(),
{
    if s.len() == 0 {
        0
    } else {
        dec_val(s.drop_last()) * 10 + digit_val(s.last())
    }
}

/// Extending a numeral with further digits never decreases its value.
pub proof fn lemma_dec_val_prefix(s: Seq<char>, i: int)
    requires
        0 <= i <= s.len(),
    ensures
        dec_val(s.take(i)) <= dec_val(s),
    decreases s.len() - i,
{
    if i < s.len() {
        assert(s.take(i + 1).drop_last() =~= s.take(i));
        assert(s.take(i + 1).last() == s[i]);
        lemma_dec_val_prefix(s, i + 1);
    } else {
        assert(s.take(i) =~= s);
    }
}

/// Reads a whole string as a decimal number, exactly when it is a non-empty
/// string of digits whose value fits in `u128`.
pub fn parse_u128(s: &str) -> (r: Option<u128>)
    ensures
        r is Some <==> (s@.len() > 0 && all_digits(s@) && dec_val(s@) <= u128::MAX),
        r matches Some(v) ==> v as nat == dec_val(s@),
{
    let n = s.unicode_len();
    if n == 0 {
        return None;
    }
    let mut acc: u128 = 0;
    let mut i: usize = 0;
    while i < n
        invariant
            0 <= i <= n,
            n == s@.len(),
            all_digits(s@.take(i as int)),
            acc as nat == dec_val(s@.take(i as int)),
        decreases n - i,
    {
        let c = s.get_char(i);
        let cu = c as u32;
        if cu < 48 || cu > 57 {
            assert(!is_digit_char(s@[i as int]));
            return None;
        }
        let d = (cu - 48) as u128;
        proof {
            assert(s@.take(i as int + 1).drop_last() =~= s@.take(i as int));
            assert(s@.take(i as int + 1).last() == s@[i as int]);
            assert(all_digits(s@.take(i as int + 1)));
        }
        let acc10 = match acc.checked_mul(10) {
            Some(v) => v,
            None => {
                proof {
                    assert(dec_val(s@.take(i as int + 1)) > u128::MAX);
                    lemma_dec_val_prefix(s@, i as int + 1);
                }
                return None;
            },
        };
        acc = match acc10.checked_add(d) {
            Some(v) => v,
            None => {
                proof {
                    assert(dec_val(s@.take(i as int + 1)) > u128::MAX);
                    lemma_dec_val_prefix(s@, i as int + 1);
                }
                return None;
            },
        };
        i += 1;
    }
    proof {
        assert(s@.take(n as int) =~= s@);
    }
    Some(acc)
}

/// The digit character for a value below ten.
pub open spec fn digit_char(d: nat) -> char {
    if d == 0 {
        '0'
    } else if d == 1 {
        '1'
    } else if d == 2 {
        '2'
    } else if d == 3 {
        '3'
    } else if d == 4 {
        '4'
    } else if d == 5 {
        '5'
    } else if d == 6 {
        '6'
    } else if d == 7 {
        '7'
    } else if d == 8 {
        '8'
    } else {
        '9'
    }
}

/// The canonical decimal numeral of `n`: no sign, no leading zero except for
/// the single digit of zero itself.
pub open spec fn dec_digits(n: nat) -> Seq<char>
    decreases n,
{
    if n < 10 {
        seq![digit_char(n)]
    } else {
        dec_digits(n / 10).push(digit_char(n % 10))
    }
}

/// The canonical numeral reads back as the number it renders.
pub proof fn lemma_dec_digits_val(n: nat)
    ensures
        dec_digits(n).len() >= 1,
        all_digits(dec_digits(n)),
        dec_val(dec_digits(n)) == n,
    decreases n,
{
    if n < 10 {
        assert(dec_val(seq![digit_char(n)]) == dec_val(
            seq![digit_char(n)].drop_last(),
        ) * 10 + digit_val(digit_char(n)));
        assert(seq![digit_char(n)].drop_last() =~= Seq::<char>::empty());
    } else {
        lemma_dec_digits_val(n / 10);
        let s = dec_digits(n / 10).push(digit_char(n % 10));
        assert(s.drop_last() =~= dec_digits(n / 10));
        assert(dec_val(s) == (n / 10) * 10 + n % 10);
        assert(forall|i: int|
            0 <= i < s.len() - 1 ==> s[i] == #[trigger] dec_digits(n / 10)[i]);
    }
}

/// The single-character string for a digit value.
fn digit_str(d: u8) -> (r: &'static str)
    requires
        d < 10,
    ensures
        r@ =~= seq![digit_char(d as nat)],
{
    proof {
        reveal_strlit("0");
        reveal_strlit("1");
        reveal_strlit("2");
        reveal_strlit("3");
        reveal_strlit("4");
        reveal_strlit("5");
        reveal_strlit("6");
        reveal_strlit("7");
        reveal_strlit("8");
        reveal_strlit("9");
    }
    if d == 0 {
        "0"
    } else if d == 1 {
        "1"
    } else if d == 2 {
        "2"
    } else if d == 3 {
        "3"
    } else if d == 4 {
        "4"
    } else if d == 5 {
        "5"
    } else if d == 6 {
        "6"
    } else if d == 7 {
        "7"
    } else if d == 8 {
        "8"
    } else {
        "9"
    }
}

/// Appends the canonical decimal numeral of `n` to `out`.
pub fn push_decimal(out: &mut String, n: u64)
    ensures
        final (out)@ == old(out)@ + dec_digits(n as nat),
    decreases n,
{
    if n < 10 {
        out.append(digit_str(n as u8));
        assert(old(out)@ + seq![digit_char(n as nat)] =~= old(out)@ + dec_digits(n as nat));
    } else {
        assert(n / 10 < n) by {
            assert(n >= 10);
        }
        push_decimal(out, n / 10);
        out.append(digit_str((n % 10) as u8));
        assert((old(out)@ + dec_digits((n / 10) as nat)) + seq![digit_char((n % 10) as nat)]
            =~= old(out)@ + dec_digits(n as nat));
    }
}

/// The canonical decimal numeral of `n` as a fresh string: it reads back
/// as `n`.
pub fn dec_string(n: u64) -> (r: String)
    ensures
        r@ == dec_digits(n as nat),
        all_digits(r@),
        dec_val(r@) == n as nat,
{
    let mut s = String::new();
    push_decimal(&mut s, n);
    proof {
        assert(Seq::<char>::empty() + dec_digits(n as nat) =~= dec_digits(n as nat));
        lemma_dec_digits_val(n as nat);
    }
    s
}

/// Ten to the `k`.
pub open spec fn pow10(k: nat) -> nat
    decreases k,
{
    if k == 0 {
        1
    } else {
        10 * pow10((k - 1) as nat)
    }
}

/// The least `k` with `pow10(k) >= v`: the column width the presentation
/// layer reserves for the count `v`. Note that it is one less than the digit
/// count at zero, one, and exact powers of ten.
pub open spec fn width_of(v: nat) -> nat
    decreases v,
{
    if v <= 1 {
        0
    } else {
        1 + width_of((v + 9) / 10)
    }
}

/// `width_of` is the least exponent whose power of ten reaches `v`.
pub proof fn lemma_width_of(v: nat)
    ensures
        pow10(width_of(v)) >= v,
        width_of(v) > 0 ==> pow10((width_of(v) - 1) as nat) < v,
    decreases v,
{
    if v > 1 {
        let c = ((v + 9) / 10) as nat;
        lemma_width_of(c);
        let w = width_of(c);
        assert(pow10(w + 1) == 10 * pow10(w));
        assert(10 * pow10(w) >= 10 * c) by {
            assert(pow10(w) >= c);
        }
        assert(10 * c >= v);
        if w > 0 {
            assert(pow10(w) == 10 * pow10((w - 1) as nat));
            assert(pow10((w - 1) as nat) < c);
            assert(10 * pow10((w - 1) as nat) <= 10 * (c - 1)) by {
                assert(pow10((w - 1) as nat) <= c - 1);
            }
            assert(10 * (c - 1) < v);
        } else {
            assert(pow10(0nat) == 1 < v);
        }
    }
}

/// Powers of ten grow with the exponent.
pub proof fn lemma_pow10_le(a: nat, b: nat)
    requires
        a <= b,
    ensures
        pow10(a) <= pow10(b),
    decreases b,
{
    if a < b {
        lemma_pow10_le(a, (b - 1) as nat);
        assert(pow10(b) == 10 * pow10((b - 1) as nat));
        assert(pow10((b - 1) as nat) >= 1) by {
            lemma_pow10_pos((b - 1) as nat);
        }
    }
}

/// Powers of ten are positive.
pub proof fn lemma_pow10_pos(k: nat)
    ensures
        pow10(k) >= 1,
    decreases k,
{
    if k > 0 {
        lemma_pow10_pos((k - 1) as nat);
    }
}

/// Ten to the thirty-ninth power does not fit in `u128`.
proof fn lemma_pow10_big()
    ensures
        pow10(39) > u128::MAX as nat,
{
    reveal_with_fuel(pow10, 40);
}

/// The column width reserved for the count `v`.
pub fn column_width(v: u128) -> (r: usize)
    ensures
        r == width_of(v as nat),
{
    let mut w: usize = 0;
    let mut p: u128 = 1;
    proof {
        lemma_width_of(v as nat);
    }
    while p < v
        invariant
            p >= 1,
            p as nat == pow10(w as nat),
            forall|k: nat| k < w ==> pow10(k) < v,
            pow10(width_of(v as nat)) >= v,
            width_of(v as nat) > 0 ==> pow10((width_of(v as nat) - 1) as nat) < v,
            w <= 39,
            w as nat <= width_of(v as nat),
        decreases width_of(v as nat) - w,
    {
        proof {
            // the exponent stays small: pow10 of anything larger exceeds u128
            if w >= 39 {
                lemma_pow10_big();
                lemma_pow10_le(39, w as nat);
            }
            // while the loop continues, w lies strictly below the width
            if (w as nat) >= width_of(v as nat) {
                lemma_pow10_le(width_of(v as nat), w as nat);
                assert(false);
            }
        }
        w = w + 1;
        match p.checked_mul(10) {
            Some(x) => {
                p = x;
            },
            None => {
                proof {
                    let w0 = (w - 1) as nat;
                    assert(pow10(w0 + 1) == 10 * pow10(w0));
                    assert(forall|k: nat| k <= w0 ==> pow10(k) < v);
                    lemma_width_conclude(w0, v as nat);
                }
                return w;
            },
        }
    }
    proof {
        if (w as nat) < width_of(v as nat) {
            lemma_pow10_le(w as nat, (width_of(v as nat) - 1) as nat);
        }
        if (w as nat) > width_of(v as nat) {
            assert(pow10(width_of(v as nat)) < v);
        }
    }
    w
}

/// If every power up to `pow10(w)` falls short of `v` and `pow10(w + 1)`
/// does not, then the width of `v` is `w + 1`.
proof fn lemma_width_conclude(w: nat, v: nat)
    requires
        forall|k: nat| k <= w ==> pow10(k) < v,
        pow10(w + 1) >= v,
    ensures
        width_of(v) == w + 1,
{
    lemma_width_of(v);
    if width_of(v) < w + 1 {
        assert(pow10(width_of(v)) < v);
    }
    if width_of(v) > w + 1 {
        lemma_pow10_le(w + 1, (width_of(v) - 1) as nat);
    }
}

} // verus!

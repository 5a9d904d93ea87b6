//! Generation file names: the decimal rendering of a fid followed by
//! the `.log` suffix, computed and specified character by character.

use crate::codec::{hex_char, hex_digit};
use crate::strutil::{chars_string, str_chars};
use vstd::prelude::*;

verus! {

/// The decimal digits of `n`, most significant first.
pub open spec fn dec_digits(n: nat) -> Seq<char>
    decreases n,
{
    if n < 10 {
        seq![hex_char(n as int)]
    } else {
        dec_digits(n / 10) + seq![hex_char((n % 10) as int)]
    }
}

/// The file name of one generation: its decimal fid followed by `.log`.
pub open spec fn log_name_of(fid: u64) -> Seq<char> {
    dec_digits(fid as nat) + seq!['.', 'l', 'o', 'g']
}

/// Append the decimal digits of `n`.
fn push_dec(out: &mut Vec<char>, n: u64)
    ensures
        final(out)@ == old(out)@ + dec_digits(n as nat),
    decreases n,
{
    if n < 10 {
        out.push(hex_digit((n % 10) as u8));
        proof {
            assert(old(out)@ + dec_digits(n as nat) =~= out@);
        }
    } else {
        push_dec(out, n / 10);
        out.push(hex_digit((n % 10) as u8));
        proof {
            assert(old(out)@ + dec_digits(n as nat) =~= old(out)@ + (dec_digits((n / 10) as nat)
                + seq![hex_char((n as nat % 10) as int)]));
            assert(out@ =~= old(out)@ + dec_digits(n as nat));
        }
    }
}

/// The file name of a generation, `<fid>.log`.
pub fn log_path(fid: u64) -> (r: String)
    ensures
        r@ == log_name_of(fid),
{
    let mut out: Vec<char> = Vec::new();
    push_dec(&mut out, fid);
    out.push('.');
    out.push('l');
    out.push('o');
    out.push('g');
    let r = chars_string(out.as_slice());
    proof {
        assert(out@ =~= log_name_of(fid));
    }
    r
}

/// The numeric value of a digit string, most significant first.
pub open spec fn digits_val(s: Seq<char>) -> nat
    decreases s.len(),
{
    if s.len() == 0 {
        0
    } else {
        digits_val(s.drop_last()) * 10 + digit_of(s.last())
    }
}

/// The value of one digit character; meaningful only for `'0'` to `'9'`.
pub open spec fn digit_of(c: char) -> nat {
    if c == '0' { 0 }
    else if c == '1' { 1 }
    else if c == '2' { 2 }
    else if c == '3' { 3 }
    else if c == '4' { 4 }
    else if c == '5' { 5 }
    else if c == '6' { 6 }
    else if c == '7' { 7 }
    else if c == '8' { 8 }
    else { 9 }
}

/// A digit string as the encoder produces it: nonempty, all digits, and
/// without a leading zero unless it is exactly `"0"`.
pub open spec fn canonical_digits(s: Seq<char>) -> bool {
    &&& s.len() >= 1
    &&& forall|i: int| 0 <= i < s.len() ==> '0' <= #[trigger] s[i] <= '9'
    &&& (s[0] == '0' ==> s.len() == 1)
}

/// The digits of a number are canonical and stand for it.
proof fn lemma_dec_digits_canonical(n: nat)
    ensures
        canonical_digits(dec_digits(n)),
        digits_val(dec_digits(n)) == n,
    decreases n,
{
    if n < 10 {
        let s = dec_digits(n);
        assert(s =~= seq![hex_char(n as int)]);
        assert(s.drop_last() =~= Seq::<char>::empty());
        assert(digits_val(s.drop_last()) == 0);
        assert(digit_of(hex_char(n as int)) == n);
        assert(s.last() == hex_char(n as int));
    } else {
        lemma_dec_digits_canonical(n / 10);
        let p = dec_digits((n / 10) as nat);
        let s = dec_digits(n);
        assert(s =~= p + seq![hex_char((n % 10) as int)]);
        assert(s.drop_last() =~= p);
        assert(s.last() == hex_char((n % 10) as int));
        assert(digit_of(hex_char((n % 10) as int)) == n % 10);
        assert forall|i: int| 0 <= i < s.len() implies '0' <= #[trigger] s[i] <= '9' by {
            if i < p.len() {
                assert(s[i] == p[i]);
            }
        }
        assert(s[0] == p[0]);
        assert(p[0] != '0' || p.len() == 1);
        assert(digits_val(p) == n / 10 >= 1);
        if p.len() == 1 {
            assert(p.drop_last() =~= Seq::<char>::empty());
            assert(digits_val(p.drop_last()) == 0);
            assert(p.last() == p[0]);
            assert(digits_val(p) == digit_of(p[0]));
            assert(p[0] != '0');
        }
    }
}

/// Canonical digit strings are exactly the encodings of their values.
proof fn lemma_canonical_digits_unique(s: Seq<char>)
    requires
        canonical_digits(s),
    ensures
        dec_digits(digits_val(s)) == s,
    decreases s.len(),
{
    let n = digits_val(s);
    if s.len() == 1 {
        assert(n == digits_val(s.drop_last()) * 10 + digit_of(s.last()));
        assert(s.drop_last().len() == 0);
        assert(n == digit_of(s[0]) < 10);
        assert(hex_char(n as int) == s[0]);
        assert(dec_digits(n) =~= s);
    } else {
        let p = s.drop_last();
        assert forall|i: int| 0 <= i < p.len() implies '0' <= #[trigger] p[i] <= '9' by {
            assert(p[i] == s[i]);
        }
        assert(p[0] == s[0]);
        assert(canonical_digits(p));
        lemma_canonical_digits_unique(p);
        lemma_canonical_leading_value(p);
        assert(digits_val(p) >= 1);
        assert(n == digits_val(p) * 10 + digit_of(s.last()));
        assert(digit_of(s.last()) < 10);
        assert(n >= 10);
        assert(n / 10 == digits_val(p)) by (nonlinear_arith)
            requires
                n == digits_val(p) * 10 + digit_of(s.last()),
                digit_of(s.last()) < 10,
        ;
        assert(n % 10 == digit_of(s.last())) by (nonlinear_arith)
            requires
                n == digits_val(p) * 10 + digit_of(s.last()),
                digit_of(s.last()) < 10,
        ;
        assert(hex_char((n % 10) as int) == s.last());
        assert(dec_digits(n) == dec_digits((n / 10) as nat) + seq![hex_char((n % 10) as int)]);
        assert(dec_digits(n) =~= s);
    }
}

/// A canonical digit string of length at least two stands for a value of
/// at least one even without its last digit.
proof fn lemma_canonical_leading_value(s: Seq<char>)
    requires
        s.len() >= 1,
        forall|i: int| 0 <= i < s.len() ==> '0' <= #[trigger] s[i] <= '9',
        s[0] != '0',
    ensures
        digits_val(s) >= 1,
    decreases s.len(),
{
    if s.len() == 1 {
        assert(digits_val(s.drop_last()) == 0);
        assert(digit_of(s[0]) >= 1);
    } else {
        let p = s.drop_last();
        assert forall|i: int| 0 <= i < p.len() implies '0' <= #[trigger] p[i] <= '9' by {
            assert(p[i] == s[i]);
        }
        assert(p[0] == s[0]);
        lemma_canonical_leading_value(p);
    }
}

/// The value of one digit character, executably; `None` for any other
/// character.
fn digit_val(c: char) -> (r: Option<u8>)
    ensures
        match r {
            Option::Some(v) => v < 10 && '0' <= c <= '9' && v == digit_of(c) && c == hex_char(
                v as int,
            ),
            Option::None => !('0' <= c <= '9'),
        },
{
    if c == '0' { Option::Some(0) }
    else if c == '1' { Option::Some(1) }
    else if c == '2' { Option::Some(2) }
    else if c == '3' { Option::Some(3) }
    else if c == '4' { Option::Some(4) }
    else if c == '5' { Option::Some(5) }
    else if c == '6' { Option::Some(6) }
    else if c == '7' { Option::Some(7) }
    else if c == '8' { Option::Some(8) }
    else if c == '9' { Option::Some(9) }
    else { Option::None }
}

/// Parse a generation file name, `<fid>.log` as [`log_path`] writes it,
/// back to its fid. Names that the store never writes, including ones
/// with leading zeros or a value past `u64::MAX`, are rejected.
pub fn parse_log_name(name: &str) -> (r: Option<u64>)
    ensures
        match r {
            Option::Some(fid) => name@ == log_name_of(fid),
            Option::None => forall|fid: u64| name@ != #[trigger] log_name_of(fid),
        },
{
    let cs = str_chars(name);
    let n = cs.len();
    proof {
        assert forall|fid: u64| log_name_of(fid).len() >= 5 by {
            lemma_dec_digits_canonical(fid as nat);
        }
    }
    if n < 5 {
        return Option::None;
    }
    let suffix_ok = cs[n - 4] == '.' && cs[n - 3] == 'l' && cs[n - 2] == 'o' && cs[n - 1] == 'g';
    let ghost digits = cs@.take(n - 4);
    proof {
        assert forall|fid: u64|
            name@ == #[trigger] log_name_of(fid) implies digits == dec_digits(fid as nat)
            && cs@[n - 4] == '.' && cs@[n - 3] == 'l' && cs@[n - 2] == 'o' && cs@[n - 1]
            == 'g' by {
            lemma_dec_digits_canonical(fid as nat);
            let dd = dec_digits(fid as nat);
            assert(log_name_of(fid)[dd.len() as int] == '.');
            assert(log_name_of(fid)[dd.len() as int + 1] == 'l');
            assert(log_name_of(fid)[dd.len() as int + 2] == 'o');
            assert(log_name_of(fid)[dd.len() as int + 3] == 'g');
            assert(dd.len() == n - 4);
            assert(digits =~= dd);
        }
    }
    if !suffix_ok {
        return Option::None;
    }
    let mut value: u64 = 0;
    let mut i: usize = 0;
    let m = n - 4;
    loop
        invariant
            0 <= i <= m,
            m == n - 4,
            5 <= n == cs@.len(),
            name@ == cs@,
            digits == cs@.take(m as int),
            forall|fid: u64|
                name@ == #[trigger] log_name_of(fid) ==> digits == dec_digits(fid as nat),
            cs@[m as int] == '.' && cs@[m + 1] == 'l' && cs@[m + 2] == 'o' && cs@[m + 3] == 'g',
            value as nat == digits_val(cs@.take(i as int)),
            forall|j: int| 0 <= j < i ==> '0' <= #[trigger] cs@[j] <= '9',
            i > 0 ==> (cs@[0] == '0' ==> m == 1),
        ensures
            i == m,
            value as nat == digits_val(digits),
            canonical_digits(digits),
        decreases m - i,
    {
        if i == m {
            proof {
                assert(cs@.take(m as int) == digits);
                assert(canonical_digits(digits)) by {
                    assert forall|j: int| 0 <= j < digits.len() implies '0' <= #[trigger] digits[j]
                        <= '9' by {
                        assert(digits[j] == cs@[j]);
                    }
                    assert(m >= 1);
                    assert(digits[0] == cs@[0]);
                }
            }
            break;
        }
        let c = cs[i];
        let dv = match digit_val(c) {
            Option::Some(v) => v,
            Option::None => {
                proof {
                    assert forall|fid: u64| name@ != #[trigger] log_name_of(fid) by {
                        if name@ == log_name_of(fid) {
                            lemma_dec_digits_canonical(fid as nat);
                            assert(digits[i as int] == cs@[i as int]);
                        }
                    }
                }
                return Option::None;
            },
        };
        if i == 0 && c == '0' && m > 1 {
            proof {
                assert forall|fid: u64| name@ != #[trigger] log_name_of(fid) by {
                    if name@ == log_name_of(fid) {
                        lemma_dec_digits_canonical(fid as nat);
                        assert(digits[0] == cs@[0]);
                    }
                }
            }
            return Option::None;
        }
        if value > (u64::MAX - (dv as u64)) / 10 {
            proof {
                assert forall|fid: u64| name@ != #[trigger] log_name_of(fid) by {
                    if name@ == log_name_of(fid) {
                        lemma_dec_digits_canonical(fid as nat);
                        lemma_digits_val_prefix_bound(digits, i as int);
                        assert(digits_val(digits.take(i + 1)) <= digits_val(digits));
                        assert(digits.take(i + 1).drop_last() =~= digits.take(i as int));
                        assert(digits.take(i as int) =~= cs@.take(i as int));
                        assert(digits.take(i + 1).last() == cs@[i as int]);
                        assert(digits_val(digits.take(i + 1)) == value as nat * 10 + dv as nat);
                        assert(value as nat * 10 + dv as nat > u64::MAX) by (nonlinear_arith)
                            requires
                                value as nat > (u64::MAX as nat - dv as nat) / 10,
                                dv < 10,
                        ;
                    }
                }
            }
            return Option::None;
        }
        let new_value = value * 10 + dv as u64;
        proof {
            assert(cs@.take(i + 1).drop_last() =~= cs@.take(i as int));
            assert(cs@.take(i + 1).last() == cs@[i as int]);
        }
        value = new_value;
        i += 1;
    }
    proof {
        lemma_canonical_digits_unique(digits);
        assert(dec_digits(value as nat) == digits);
        assert(name@ =~= digits + seq!['.', 'l', 'o', 'g']);
    }
    Option::Some(value)
}

/// Dropping trailing digits never increases the value.
proof fn lemma_digits_val_prefix_bound(s: Seq<char>, t: int)
    requires
        0 <= t < s.len(),
    ensures
        digits_val(s.take(t + 1)) <= digits_val(s),
    decreases s.len() - t,
{
    if t + 1 == s.len() {
        assert(s.take(t + 1) =~= s);
    } else {
        lemma_digits_val_prefix_bound(s, t + 1);
        assert(s.take(t + 2).drop_last() =~= s.take(t + 1));
        assert(digits_val(s.take(t + 2)) == digits_val(s.take(t + 1)) * 10 + digit_of(
            s.take(t + 2).last(),
        ));
        assert(digits_val(s.take(t + 1)) <= digits_val(s.take(t + 2))) by (nonlinear_arith)
            requires
                digits_val(s.take(t + 2)) == digits_val(s.take(t + 1)) * 10 + digit_of(
                    s.take(t + 2).last(),
                ),
        ;
    }
}

} // verus!

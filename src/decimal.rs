//! Decimal numbers as text: whole numbers, signed identities, and quantities
//! with up to three fractional digits.

use vstd::prelude::*;
use crate::text::{split_at, split_at_char, lemma_free_of_char, lemma_split_of_join, join};

verus! {

/// An amount of something, non-negative, to a thousandth.
#[derive(Debug, Clone, Copy, PartialEq, Eq, Structural)]
pub struct Quantity {
    pub thousandths: u64,
}

pub open spec fn is_digit(c: char) -> bool {
    '0' <= c && c <= '9'
}

pub open spec fn digit_of(c: char) -> nat {
    (c as u32 - '0' as u32) as nat
}

pub open spec fn digit_char(d: nat) -> char {
    if d == 0 { '0' }
    else if d == 1 { '1' }
    else if d == 2 { '2' }
    else if d == 3 { '3' }
    else if d == 4 { '4' }
    else if d == 5 { '5' }
    else if d == 6 { '6' }
    else if d == 7 { '7' }
    else if d == 8 { '8' }
    else { '9' }
}

pub open spec fn all_digits(s: Seq<char>) -> bool {
    forall|i: int| 0 <= i < s.len() ==> is_digit(#[trigger] s[i])
}

/// The value of a run of decimal digits.
pub open spec fn digits_value(s: Seq<char>) -> nat
    decreases s.len(),
{
    if s.len() == 0 {
        0
    } else {
        digits_value(s.drop_last()) * 10 + digit_of(s.last())
    }
}

/// The decimal digits of `n`, without leading zeros.
pub open spec fn nat_text(n: nat) -> Seq<char>
    decreases n,
{
    if n < 10 {
        seq![digit_char(n)]
    } else {
        nat_text(n / 10).push(digit_char(n % 10))
    }
}

/// `n` in decimal, with a leading `-` when it is negative.
pub open spec fn int_text(n: int) -> Seq<char> {
    if n < 0 {
        seq!['-'] + nat_text((-n) as nat)
    } else {
        nat_text(n as nat)
    }
}

/// The value of a decimal integer text: digits, possibly after a `-`.
pub open spec fn int_value(s: Seq<char>) -> Option<int> {
    if s.len() >= 2 && s[0] == '-' && all_digits(s.drop_first()) {
        Some(-digits_value(s.drop_first()))
    } else if s.len() >= 1 && all_digits(s) {
        Some(digits_value(s) as int)
    } else {
        None
    }
}

/// The fractional digits of `f` thousandths (`0 < f < 1000`), trailing zeros left out.
pub open spec fn frac_text(f: nat) -> Seq<char> {
    if f % 100 == 0 {
        seq![digit_char(f / 100)]
    } else if f % 10 == 0 {
        seq![digit_char(f / 100), digit_char((f / 10) % 10)]
    } else {
        seq![digit_char(f / 100), digit_char((f / 10) % 10), digit_char(f % 10)]
    }
}

/// A quantity of `q` thousandths as text: the whole part, and the fraction after
/// a `.` when there is one (`1500` is `"1.5"`, `2000` is `"2"`).
pub open spec fn quantity_text(q: nat) -> Seq<char> {
    if q % 1000 == 0 {
        nat_text(q / 1000)
    } else {
        nat_text(q / 1000).push('.') + frac_text(q % 1000)
    }
}

/// Thousandths of one to three fractional digits.
pub open spec fn frac_value(f: Seq<char>) -> nat {
    if f.len() == 1 {
        digit_of(f[0]) * 100
    } else if f.len() == 2 {
        digit_of(f[0]) * 100 + digit_of(f[1]) * 10
    } else {
        digit_of(f[0]) * 100 + digit_of(f[1]) * 10 + digit_of(f[2])
    }
}

/// The value in thousandths of a decimal text: digits, then possibly a `.` and
/// one to three digits.
pub open spec fn decimal_value(s: Seq<char>) -> Option<nat> {
    let parts = split_at_char(s, '.');
    if parts.len() == 1 && parts[0].len() >= 1 && all_digits(parts[0]) {
        Some(digits_value(parts[0]) * 1000)
    } else if parts.len() == 2 && parts[0].len() >= 1 && all_digits(parts[0]) && 1
        <= parts[1].len() <= 3 && all_digits(parts[1]) {
        Some(digits_value(parts[0]) * 1000 + frac_value(parts[1]))
    } else {
        None
    }
}

/// The quantity that a text denotes, where it is a decimal that fits.
pub open spec fn parsed_quantity(s: Seq<char>) -> Option<Quantity> {
    match decimal_value(s) {
        Some(v) => if v <= u64::MAX as nat {
            Some(Quantity { thousandths: v as u64 })
        } else {
            None
        },
        None => None,
    }
}

/// The identity that a text denotes, where it is an integer that fits in `i32`.
pub open spec fn parsed_id(s: Seq<char>) -> Option<i32> {
    match int_value(s) {
        Some(v) => if i32::MIN <= v <= i32::MAX {
            Some(v as i32)
        } else {
            None
        },
        None => None,
    }
}

fn digit_char_exec(d: u64) -> (c: char)
    requires
        d < 10,
    ensures
        c == digit_char(d as nat),
        is_digit(c),
        digit_of(c) == d,
{
    match d {
        0 => '0',
        1 => '1',
        2 => '2',
        3 => '3',
        4 => '4',
        5 => '5',
        6 => '6',
        7 => '7',
        8 => '8',
        _ => '9',
    }
}

proof fn lemma_digit_round(d: nat)
    requires
        d < 10,
    ensures
        is_digit(digit_char(d)),
        digit_of(digit_char(d)) == d,
        digit_char(d) != '.' && digit_char(d) != ',' && digit_char(d) != ';' && digit_char(d)
            != '-' && digit_char(d) != ' ',
{
}

/// Appends the decimal digits of `n`.
pub(crate) fn push_nat(acc: &mut Vec<char>, n: u128)
    ensures
        final(acc)@ == old(acc)@ + nat_text(n as nat),
    decreases n,
{
    if n >= 10 {
        push_nat(acc, n / 10);
    }
    let c = digit_char_exec((n % 10) as u64);
    acc.push(c);
    proof {
        if n >= 10 {
            assert(final(acc)@ =~= old(acc)@ + nat_text(n as nat));
        } else {
            assert(final(acc)@ =~= old(acc)@ + nat_text(n as nat));
        }
    }
}

/// The digits of a number are digits, never empty, and read back as the number.
pub proof fn lemma_nat_text(n: nat)
    ensures
        nat_text(n).len() >= 1,
        all_digits(nat_text(n)),
        digits_value(nat_text(n)) == n,
    decreases n,
{
    if n < 10 {
        lemma_digit_round(n);
        assert(nat_text(n).drop_last() =~= Seq::<char>::empty());
        assert(digits_value(Seq::<char>::empty()) == 0);
        assert(nat_text(n).last() == digit_char(n));
    } else {
        lemma_nat_text(n / 10);
        lemma_digit_round(n % 10);
        assert(nat_text(n).drop_last() =~= nat_text(n / 10));
        assert(nat_text(n).last() == digit_char(n % 10));
        assert(digits_value(nat_text(n)) == digits_value(nat_text(n / 10)) * 10 + digit_of(
            digit_char(n % 10),
        ));
        assert(n == (n / 10) * 10 + n % 10);
        assert forall|i: int| 0 <= i < nat_text(n).len() implies is_digit(#[trigger] nat_text(n)[i]) by {
            if i < nat_text(n).len() - 1 {
                assert(nat_text(n)[i] == nat_text(n / 10)[i]);
            }
        }
    }
}

proof fn lemma_digits_chars_free(s: Seq<char>, c: char)
    requires
        all_digits(s),
        !is_digit(c),
    ensures
        forall|k: int| 0 <= k < s.len() ==> s[k] != c,
{
    assert forall|k: int| 0 <= k < s.len() implies s[k] != c by {
        assert(is_digit(s[k]));
    }
}

proof fn lemma_frac_text(f: nat)
    requires
        0 < f < 1000,
    ensures
        1 <= frac_text(f).len() <= 3,
        all_digits(frac_text(f)),
        frac_value(frac_text(f)) == f,
{
    lemma_digit_round(f / 100);
    lemma_digit_round((f / 10) % 10);
    lemma_digit_round(f % 10);
}

/// Quantity text reads back as the same quantity.
pub proof fn lemma_quantity_text(q: u64)
    ensures
        parsed_quantity(quantity_text(q as nat)) == Some(Quantity { thousandths: q }),
        forall|k: int|
            0 <= k < quantity_text(q as nat).len() ==> #[trigger] quantity_text(q as nat)[k] != ','
                && quantity_text(q as nat)[k] != ';' && quantity_text(q as nat)[k] != ' ',
        quantity_text(q as nat).len() >= 1,
{
    let n = q as nat;
    let whole = nat_text(n / 1000);
    lemma_nat_text(n / 1000);
    lemma_digits_chars_free(whole, '.');
    lemma_digits_chars_free(whole, ',');
    lemma_digits_chars_free(whole, ';');
    lemma_digits_chars_free(whole, ' ');
    lemma_free_of_char(whole, '.');
    if n % 1000 == 0 {
        lemma_split_of_join(seq![whole], '.');
        assert(join(seq![whole], seq!['.']) =~= whole);
        assert(split_at_char(whole, '.') == seq![whole]);
    } else {
        let frac = frac_text(n % 1000);
        lemma_frac_text(n % 1000);
        lemma_digits_chars_free(frac, '.');
        lemma_digits_chars_free(frac, ',');
        lemma_digits_chars_free(frac, ';');
        lemma_digits_chars_free(frac, ' ');
        lemma_free_of_char(frac, '.');
        let parts = seq![whole, frac];
        assert forall|k: int| 0 <= k < parts.len() implies !crate::text::contains_seq(
            #[trigger] parts[k],
            seq!['.'],
        ) by {
            if k == 0 {
                assert(parts[k] == whole);
            } else {
                assert(parts[k] == frac);
            }
        }
        lemma_split_of_join(parts, '.');
        assert(parts.drop_last() =~= seq![whole]);
        assert(crate::text::join_prefix(seq![whole], seq!['.']) =~= whole + seq!['.']);
        assert(join(parts, seq!['.']) =~= quantity_text(n));
        assert(n == (n / 1000) * 1000 + n % 1000);
    }
}

/// The number that a run of digits denotes, where it fits in `u64`.
fn parse_digits(s: &Vec<char>) -> (r: Option<u64>)
    ensures
        r == (if s@.len() >= 1 && all_digits(s@) && digits_value(s@) <= u64::MAX as nat {
            Some(digits_value(s@) as u64)
        } else {
            None
        }),
{
    if s.len() == 0 {
        return None;
    }
    let mut v: u64 = 0;
    let mut i: usize = 0;
    while i < s.len()
        invariant
            i <= s@.len(),
            all_digits(s@.subrange(0, i as int)),
            v as nat == digits_value(s@.subrange(0, i as int)),
        decreases s@.len() - i,
    {
        let c = s[i];
        assert(s@.subrange(0, i + 1).drop_last() =~= s@.subrange(0, i as int));
        if !('0' <= c && c <= '9') {
            assert(!all_digits(s@)) by {
                assert(!is_digit(s@[i as int]));
            }
            return None;
        }
        let d = (c as u32 - '0' as u32) as u64;
        match v.checked_mul(10) {
            Some(t) => match t.checked_add(d) {
                Some(w) => {
                    v = w;
                },
                None => {
                    proof {
                        lemma_digits_prefix_le(s@, i + 1);
                    }
                    return None;
                },
            },
            None => {
                proof {
                    lemma_digits_prefix_le(s@, i + 1);
                }
                return None;
            },
        }
        i = i + 1;
    }
    assert(s@.subrange(0, s@.len() as int) =~= s@);
    Some(v)
}

/// A prefix of a run of digits is worth at most the whole run.
proof fn lemma_digits_prefix_le(s: Seq<char>, k: int)
    requires
        0 <= k <= s.len(),
    ensures
        digits_value(s.subrange(0, k)) <= digits_value(s),
    decreases s.len(),
{
    if k < s.len() {
        lemma_digits_prefix_le(s.drop_last(), k);
        assert(s.drop_last().subrange(0, k) =~= s.subrange(0, k));
    } else {
        assert(s.subrange(0, k) =~= s);
    }
}

fn digit_value(c: char) -> (r: Option<u64>)
    ensures
        r == (if is_digit(c) {
            Some(digit_of(c) as u64)
        } else {
            None
        }),
        r matches Some(d) ==> d < 10,
{
    if '0' <= c && c <= '9' {
        Some((c as u32 - '0' as u32) as u64)
    } else {
        None
    }
}

/// Reads a quantity: digits, then possibly a `.` and one to three digits.
pub fn parse_quantity(s: &str) -> (r: Option<Quantity>)
    ensures
        r == parsed_quantity(s@),
{
    let cs = crate::text::chars_of(s);
    parse_quantity_chars(&cs)
}

pub(crate) fn parse_quantity_chars(cs: &Vec<char>) -> (r: Option<Quantity>)
    ensures
        r == parsed_quantity(cs@),
{
    let ghost s = cs@;
    let parts = split_at(cs, '.');
    let ghost pv = parts@.map_values(|p: Vec<char>| p@);
    assert(pv == split_at_char(s, '.'));
    if parts.len() == 1 {
        assert(pv[0] == parts@[0]@);
        match parse_digits(&parts[0]) {
            Some(w) => match w.checked_mul(1000) {
                Some(t) => Some(Quantity { thousandths: t }),
                None => None,
            },
            None => None,
        }
    } else if parts.len() == 2 {
        assert(pv[0] == parts@[0]@);
        assert(pv[1] == parts@[1]@);
        let f = &parts[1];
        if f.len() < 1 || f.len() > 3 {
            return None;
        }
        let d0 = match digit_value(f[0]) {
            Some(x) => x,
            None => return None,
        };
        let ft: u64 = if f.len() == 1 {
            d0 * 100
        } else {
            let d1 = match digit_value(f[1]) {
                Some(x) => x,
                None => return None,
            };
            if f.len() == 2 {
                d0 * 100 + d1 * 10
            } else {
                let d2 = match digit_value(f[2]) {
                    Some(x) => x,
                    None => return None,
                };
                d0 * 100 + d1 * 10 + d2
            }
        };
        assert(all_digits(f@));
        let w = match parse_digits(&parts[0]) {
            Some(x) => x,
            None => return None,
        };
        match w.checked_mul(1000) {
            Some(t) => match t.checked_add(ft) {
                Some(q) => Some(Quantity { thousandths: q }),
                None => None,
            },
            None => None,
        }
    } else {
        None
    }
}

/// Writes a quantity: the whole part, and the fraction after a `.` when there is one.
pub fn render_quantity(q: Quantity) -> (r: String)
    ensures
        r@ == quantity_text(q.thousandths as nat),
{
    let mut acc: Vec<char> = Vec::new();
    push_quantity(&mut acc, q);
    crate::text::string_of(&acc)
}

pub(crate) fn push_quantity(acc: &mut Vec<char>, q: Quantity)
    ensures
        final(acc)@ == old(acc)@ + quantity_text(q.thousandths as nat),
{
    push_thousandths(acc, q.thousandths as u128);
}

/// Appends `q` thousandths as quantity text.
pub(crate) fn push_thousandths(acc: &mut Vec<char>, q: u128)
    ensures
        final(acc)@ == old(acc)@ + quantity_text(q as nat),
{
    let whole = q / 1000;
    let f = (q % 1000) as u64;
    push_nat(acc, whole);
    if f != 0 {
        acc.push('.');
        acc.push(digit_char_exec(f / 100));
        if f % 100 != 0 {
            acc.push(digit_char_exec((f / 10) % 10));
            if f % 10 != 0 {
                acc.push(digit_char_exec(f % 10));
            }
        }
    }
    assert(final(acc)@ =~= old(acc)@ + quantity_text(q as nat));
}

/// Appends `n` in decimal, with a leading `-` when it is negative.
pub(crate) fn push_int(acc: &mut Vec<char>, n: i32)
    ensures
        final(acc)@ == old(acc)@ + int_text(n as int),
{
    if n < 0 {
        acc.push('-');
        let m: u64 = (-(n as i64)) as u64;
        push_nat(acc, m as u128);
        assert(final(acc)@ =~= old(acc)@ + int_text(n as int));
    } else {
        push_nat(acc, n as u128);
    }
}

/// Reads an identity: digits, possibly after a `-`, that fit in `i32`.
pub fn parse_id(s: &Vec<char>) -> (r: Option<i32>)
    ensures
        r == parsed_id(s@),
{
    if s.len() >= 2 && s[0] == '-' {
        let mut rest: Vec<char> = Vec::new();
        let mut i: usize = 1;
        while i < s.len()
            invariant
                1 <= i <= s@.len(),
                rest@ == s@.subrange(1, i as int),
            decreases s@.len() - i,
        {
            rest.push(s[i]);
            i = i + 1;
            assert(rest@ =~= s@.subrange(1, i as int));
        }
        assert(rest@ =~= s@.drop_first());
        match parse_digits(&rest) {
            Some(v) => if v <= 2147483648 {
                Some((-(v as i64)) as i32)
            } else {
                None
            },
            None => {
                proof {
                    if all_digits(s@.drop_first()) {
                        assert(int_value(s@) == Some(-digits_value(s@.drop_first())));
                    }
                }
                None
            },
        }
    } else {
        proof {
            if s@.len() >= 1 && s@[0] == '-' {
                assert(!is_digit(s@[0]));
            }
        }
        match parse_digits(s) {
            Some(v) => if v <= 2147483647 {
                Some(v as i32)
            } else {
                None
            },
            None => None,
        }
    }
}

/// An identity's text reads back as the same identity.
pub proof fn lemma_int_text(n: i32)
    ensures
        parsed_id(int_text(n as int)) == Some(n),
        forall|k: int|
            0 <= k < int_text(n as int).len() ==> #[trigger] int_text(n as int)[k] != ','
                && int_text(n as int)[k] != ';',
        int_text(n as int).len() >= 1,
{
    if n < 0 {
        let m = (-n) as nat;
        lemma_nat_text(m);
        let t = int_text(n as int);
        assert(t.drop_first() =~= nat_text(m));
        assert(t[0] == '-');
        lemma_digits_chars_free(nat_text(m), ',');
        lemma_digits_chars_free(nat_text(m), ';');
        assert forall|k: int| 0 <= k < t.len() implies #[trigger] t[k] != ',' && t[k] != ';' by {
            if k > 0 {
                assert(t[k] == nat_text(m)[k - 1]);
            }
        }
    } else {
        lemma_nat_text(n as nat);
        lemma_digits_chars_free(nat_text(n as nat), ',');
        lemma_digits_chars_free(nat_text(n as nat), ';');
        lemma_digits_chars_free(nat_text(n as nat), '-');
        assert(nat_text(n as nat)[0] != '-');
    }
}

} // verus!

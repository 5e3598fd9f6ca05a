use crate::rational::{abs_int, Rational};
use vstd::prelude::*;
use vstd::string::*;

verus! {

/// `10^k`.
pub open spec fn pow10(k: nat) -> nat
    decreases k,
{
    if k == 0 {
        1
    } else {
        10 * pow10((k - 1) as nat)
    }
}

/// Whether `c` is a decimal digit.
pub open spec fn is_digit(c: char) -> bool {
    48 <= c as int <= 57
}

/// The numeric value of a digit character.
pub open spec fn digit_val(c: char) -> int {
    c as int - 48
}

/// Whether every character of `s` is a decimal digit.
pub open spec fn all_digits(s: Seq<char>) -> bool {
    forall|i: int| 0 <= i < s.len() ==> is_digit(#[trigger] s[i])
}

/// The value of a digit string, most significant digit first.
pub open spec fn digits_val(s: Seq<char>) -> int
    decreases s.len(),
{
    if s.len() == 0 {
        0
    } else {
        digits_val(s.drop_last()) * 10 + digit_val(s.last())
    }
}

/// How many leading characters of a cell are its sign.
pub open spec fn sign_len(s: Seq<char>) -> int {
    if s.len() > 0 && (s[0] == '-' || s[0] == '+') {
        1
    } else {
        0
    }
}

/// Whether the cell denotes a negative number.
pub open spec fn is_negative(s: Seq<char>) -> bool {
    s.len() > 0 && s[0] == '-'
}

/// The cell text with its sign stripped.
pub open spec fn number_body(s: Seq<char>) -> Seq<char> {
    s.subrange(sign_len(s), s.len() as int)
}

/// An unsigned integer body: one or more digits.
pub open spec fn is_plain_int(t: Seq<char>) -> bool {
    t.len() >= 1 && all_digits(t)
}

/// A decimal-point body with the point at `p`: digits on both sides, at
/// least one on each.
pub open spec fn is_dotted(t: Seq<char>, p: int) -> bool {
    &&& 1 <= p <= t.len() - 2
    &&& t[p] == '.'
    &&& all_digits(t.subrange(0, p))
    &&& all_digits(t.subrange(p + 1, t.len() as int))
}

/// The position of the decimal point of a dotted body.
pub open spec fn dot_pos(t: Seq<char>) -> int {
    choose|p: int| is_dotted(t, p)
}

/// The number grammar a cell must match: an optional sign, then either
/// digits, or digits, a point and more digits.
pub open spec fn is_number(s: Seq<char>) -> bool {
    let t = number_body(s);
    is_plain_int(t) || exists|p: int| is_dotted(t, p)
}

/// The digits of the body with the point removed, read as one integer.
pub open spec fn mantissa_of(t: Seq<char>) -> int {
    if is_plain_int(t) {
        digits_val(t)
    } else {
        let p = dot_pos(t);
        digits_val(t.subrange(0, p) + t.subrange(p + 1, t.len() as int))
    }
}

/// How many digits follow the decimal point; `0` for a plain integer.
pub open spec fn den_exp(t: Seq<char>) -> int {
    if is_plain_int(t) {
        0
    } else {
        t.len() - 1 - dot_pos(t)
    }
}

/// The exact numerator a cell denotes: `+/- mantissa`.
pub open spec fn cell_num(s: Seq<char>) -> int {
    if is_negative(s) {
        -mantissa_of(number_body(s))
    } else {
        mantissa_of(number_body(s))
    }
}

/// The exact denominator a cell denotes: one followed by a zero per
/// fractional digit.
pub open spec fn cell_den(s: Seq<char>) -> int {
    pow10(den_exp(number_body(s)) as nat) as int
}

/// Whether the denoted value fits the fixed-width cell type.
pub open spec fn cell_fits(s: Seq<char>) -> bool {
    let t = number_body(s);
    &&& (if is_negative(s) {
        mantissa_of(t) <= 0x8000_0000_0000_0000
    } else {
        mantissa_of(t) <= 0x7fff_ffff_ffff_ffff
    })
    &&& den_exp(t) <= 18
}

/// Whether a cell parses: it matches the number grammar and its value fits.
pub open spec fn parseable(s: Seq<char>) -> bool {
    is_number(s) && cell_fits(s)
}

/// A digit string's value is never negative.
pub proof fn lemma_digits_val_nonneg(s: Seq<char>)
    requires
        all_digits(s),
    ensures
        digits_val(s) >= 0,
    decreases s.len(),
{
    if s.len() > 0 {
        assert(all_digits(s.drop_last()));
        lemma_digits_val_nonneg(s.drop_last());
    }
}

/// Appending digits never shrinks a digit string's value.
pub proof fn lemma_digits_val_concat_ge(a: Seq<char>, b: Seq<char>)
    requires
        all_digits(a),
        all_digits(b),
    ensures
        digits_val(a + b) >= digits_val(a),
    decreases b.len(),
{
    if b.len() == 0 {
        assert(a + b =~= a);
    } else {
        let b0 = b.drop_last();
        assert(all_digits(b0));
        assert((a + b).drop_last() =~= a + b0);
        assert(all_digits(a + b0)) by {
            assert(forall|i: int|
                0 <= i < a.len() + b0.len() ==> is_digit(#[trigger] (a + b0)[i]));
        }
        lemma_digits_val_nonneg(a + b0);
        lemma_digits_val_concat_ge(a, b0);
        assert(digits_val(a + b) == digits_val(a + b0) * 10 + digit_val((a + b).last()));
    }
}

/// A dotted body has exactly one point position.
pub proof fn lemma_dot_unique(t: Seq<char>, p: int, q: int)
    requires
        is_dotted(t, p),
        is_dotted(t, q),
    ensures
        p == q,
{
    if p < q {
        // The point at `p` would sit among the integer digits of `q`.
        assert(is_digit(t.subrange(0, q)[p]));
    }
    if q < p {
        assert(is_digit(t.subrange(0, p)[q]));
    }
}

/// `10^18`, spelled out.
proof fn lemma_pow10_18()
    ensures
        pow10(18) == 1_000_000_000_000_000_000,
{
    reveal_with_fuel(pow10, 20);
}

/// Powers of ten are positive and increase with the exponent.
pub proof fn lemma_pow10_mono(a: nat, b: nat)
    requires
        a <= b,
    ensures
        1 <= pow10(a) <= pow10(b),
    decreases b - a,
{
    if a == b {
        lemma_pow10_pos(a);
    } else {
        lemma_pow10_mono(a, (b - 1) as nat);
        lemma_pow10_pos((b - 1) as nat);
    }
}

/// Powers of ten are positive.
pub proof fn lemma_pow10_pos(k: nat)
    ensures
        pow10(k) >= 1,
    decreases k,
{
    if k > 0 {
        lemma_pow10_pos((k - 1) as nat);
    }
}

/// `10^k` for `k <= 18`, computed by the rule that specifies it.
fn pow10_exec(k: usize) -> (p: u64)
    requires
        k <= 18,
    ensures
        p as nat == pow10(k as nat),
    decreases k,
{
    if k == 0 {
        1
    } else {
        let q = pow10_exec(k - 1);
        proof {
            lemma_pow10_mono((k - 1) as nat, 17);
            lemma_pow10_18();
            assert(pow10(17) <= 100_000_000_000_000_000) by {
                reveal_with_fuel(pow10, 20);
            }
        }
        10 * q
    }
}

/// Parses one textual cell into an exact rational.
///
/// The grammar is an optional `+` or `-` sign, one or more digits, and
/// optionally a point followed by one or more digits. Returns `None` exactly
/// when the text does not match the grammar or the denoted value does not
/// fit the cell type; on success the result is the denoted value, verbatim:
/// numerator `+/- mantissa`, denominator `10^(fractional digits)`.
pub fn parse_cell(s: &str) -> (r: Option<Rational>)
    ensures
        match r {
            Some(q) => {
                &&& parseable(s@)
                &&& q.wf()
                &&& q.num == cell_num(s@)
                &&& q.den == cell_den(s@)
            },
            None => !parseable(s@),
        },
{
    let n = s.unicode_len();
    let mut start: usize = 0;
    let mut neg = false;
    if n > 0 {
        let c0 = s.get_char(0);
        if c0 == '-' {
            neg = true;
            start = 1;
        } else if c0 == '+' {
            start = 1;
        }
    }
    assert(start == sign_len(s@));
    assert(neg == is_negative(s@));
    let ghost t = number_body(s@);
    assert(t.len() == n - start);
    if start == n {
        // An empty body matches neither form of the grammar.
        assert(!is_number(s@)) by {
            assert(forall|p: int| !is_dotted(t, p));
        }
        return None;
    }
    let mut i: usize = start;
    let mut acc: u128 = 0;
    let mut dot: usize = 0;
    let mut has_dot = false;
    while i < n
        invariant
            s@.len() == n,
            start <= i <= n,
            start == sign_len(s@),
            start < n,
            neg == is_negative(s@),
            t == number_body(s@),
            acc <= 0x8000_0000_0000_0000,
            !has_dot ==> {
                &&& all_digits(s@.subrange(start as int, i as int))
                &&& acc == digits_val(s@.subrange(start as int, i as int))
            },
            has_dot ==> {
                &&& start < dot < i
                &&& dot < n - 1
                &&& s@[dot as int] == '.'
                &&& all_digits(s@.subrange(start as int, dot as int))
                &&& all_digits(s@.subrange(dot as int + 1, i as int))
                &&& acc == digits_val(
                    s@.subrange(start as int, dot as int) + s@.subrange(dot as int + 1, i as int),
                )
            },
        decreases n - i,
    {
        let c = s.get_char(i);
        let ghost idx = i - start;
        if c == '.' {
            if has_dot || i == start || i == n - 1 {
                // A second point, a leading point, or a trailing point: the
                // body matches neither form of the grammar.
                proof {
                    assert(t[idx as int] == '.');
                    assert(!is_plain_int(t));
                    assert(forall|p: int| !is_dotted(t, p)) by {
                        assert forall|p: int| !is_dotted(t, p) by {
                            if is_dotted(t, p) {
                                if has_dot {
                                    let gdx = dot - start;
                                    assert(t[gdx as int] == '.');
                                    if p == idx {
                                        assert(is_digit(t.subrange(0, p)[gdx as int]));
                                    } else if p < idx {
                                        assert(is_digit(
                                            t.subrange(p + 1, t.len() as int)[idx - p - 1],
                                        ));
                                    } else {
                                        assert(is_digit(t.subrange(0, p)[idx as int]));
                                    }
                                } else if i == start {
                                    assert(is_digit(t.subrange(0, p)[0]));
                                } else {
                                    if p < idx {
                                        assert(is_digit(
                                            t.subrange(p + 1, t.len() as int)[idx - p - 1],
                                        ));
                                    } else if p > idx {
                                        assert(is_digit(t.subrange(0, p)[idx as int]));
                                    }
                                }
                            }
                        }
                    }
                }
                return None;
            }
            dot = i;
            has_dot = true;
            proof {
                assert(s@.subrange(dot as int + 1, i as int + 1) =~= Seq::<char>::empty());
                assert(s@.subrange(start as int, dot as int) + Seq::<char>::empty() =~= s@.subrange(
                    start as int,
                    dot as int,
                ));
            }
        } else {
            let v = c as u32;
            if v < 48 || v > 57 {
                // A character that is neither digit nor point: the body
                // matches neither form of the grammar.
                proof {
                    assert(!is_digit(t[idx as int]) && t[idx as int] != '.');
                    assert(!is_plain_int(t));
                    assert forall|p: int| !is_dotted(t, p) by {
                        if is_dotted(t, p) {
                            if p == idx {
                            } else if p > idx {
                                assert(is_digit(t.subrange(0, p)[idx as int]));
                            } else {
                                assert(is_digit(t.subrange(p + 1, t.len() as int)[idx - p - 1]));
                            }
                        }
                    }
                }
                return None;
            }
            let d = (v - 48) as u128;
            proof {
                if !has_dot {
                    let u = s@.subrange(start as int, i as int);
                    assert(s@.subrange(start as int, i as int + 1) =~= u.push(s@[i as int]));
                    assert(u.push(s@[i as int]).drop_last() =~= u);
                    lemma_digits_val_nonneg(u);
                } else {
                    let ip = s@.subrange(start as int, dot as int);
                    let fp = s@.subrange(dot as int + 1, i as int);
                    assert(s@.subrange(dot as int + 1, i as int + 1) =~= fp.push(s@[i as int]));
                    assert(ip + fp.push(s@[i as int]) =~= (ip + fp).push(s@[i as int]));
                    assert((ip + fp).push(s@[i as int]).drop_last() =~= ip + fp);
                    lemma_digits_val_nonneg(ip);
                    lemma_digits_val_concat_ge(ip, fp);
                }
            }
            acc = acc * 10 + d;
            if acc > 0x8000_0000_0000_0000 {
                // The mantissa read so far already exceeds every representable
                // magnitude, and further digits can only grow it.
                proof {
                    if is_number(s@) {
                        lemma_mantissa_extends(s@, start as int, i as int + 1, dot as int, has_dot);
                    }
                }
                return None;
            }
        }
        i += 1;
    }
    // The whole body has been read and is digits around at most one point.
    let f: usize = if has_dot {
        n - 1 - dot
    } else {
        0
    };
    proof {
        if has_dot {
            let p = dot - start;
            assert(t.subrange(0, p as int) =~= s@.subrange(start as int, dot as int));
            assert(t.subrange(p as int + 1, t.len() as int) =~= s@.subrange(
                dot as int + 1,
                n as int,
            ));
            assert(is_dotted(t, p as int));
            assert(!is_plain_int(t));
            lemma_dot_unique(t, p as int, dot_pos(t));
            assert(mantissa_of(t) == acc);
            assert(den_exp(t) == f);
        } else {
            assert(t =~= s@.subrange(start as int, n as int));
            assert(is_plain_int(t));
            assert(mantissa_of(t) == acc);
            assert(den_exp(t) == 0);
        }
        assert(is_number(s@));
    }
    if f > 18 {
        return None;
    }
    if neg {
        // The loop capped the accumulator at the negative magnitude bound.
        let num: i64 = (-(acc as i128)) as i64;
        let den = pow10_exec(f);
        proof {
            lemma_pow10_mono(f as nat, 18);
            lemma_pow10_18();
        }
        Some(Rational { num, den: den as i64 })
    } else {
        if acc > 0x7fff_ffff_ffff_ffff {
            return None;
        }
        let den = pow10_exec(f);
        proof {
            lemma_pow10_mono(f as nat, 18);
            lemma_pow10_18();
        }
        Some(Rational { num: acc as i64, den: den as i64 })
    }
}

/// The character of a single digit value.
pub open spec fn digit_char(d: int) -> char {
    if d == 0 {
        '0'
    } else if d == 1 {
        '1'
    } else if d == 2 {
        '2'
    } else if d == 3 {
        '3'
    } else if d == 4 {
        '4'
    } else if d == 5 {
        '5'
    } else if d == 6 {
        '6'
    } else if d == 7 {
        '7'
    } else if d == 8 {
        '8'
    } else {
        '9'
    }
}

/// The decimal digit string of `n`, most significant digit first; `0` is
/// written `"0"`.
pub open spec fn nat_digits(n: nat) -> Seq<char>
    decreases n,
{
    if n < 10 {
        seq![digit_char(n as int)]
    } else {
        nat_digits(n / 10).push(digit_char((n % 10) as int))
    }
}

/// The decimal digit string of `n` with a leading `-` when negative.
pub open spec fn int_str(n: int) -> Seq<char> {
    if n < 0 {
        seq!['-'] + nat_digits((-n) as nat)
    } else {
        nat_digits(n as nat)
    }
}

/// `k` zero characters.
pub open spec fn zeros(k: nat) -> Seq<char>
    decreases k,
{
    if k == 0 {
        Seq::empty()
    } else {
        zeros((k - 1) as nat).push('0')
    }
}

/// The smallest exponent `e >= k` with `10^e` a multiple of `d`, searched no
/// further than `38` (the widest power of ten the formatter can scale by).
pub open spec fn dec_exp_rec(d: int, k: nat) -> Option<nat>
    decreases 39 - k,
{
    if k > 38 {
        None
    } else if pow10(k) % (d as nat) == 0 {
        Some(k)
    } else {
        dec_exp_rec(d, k + 1)
    }
}

/// The number of fractional digits `1/d` needs, if a power of ten within the
/// formatter's reach is a multiple of `d`.
pub open spec fn dec_exp(d: int) -> Option<nat> {
    dec_exp_rec(d, 1)
}

/// The decimal rendering of `+/- m / 10^k`: sign, integer digits, point,
/// and exactly `k` fractional digits.
pub open spec fn decimal_str(n: int, k: nat, m: nat) -> Seq<char> {
    let ip = m / pow10(k);
    let fp = m % pow10(k);
    let sign: Seq<char> = if n < 0 {
        seq!['-']
    } else {
        Seq::empty()
    };
    sign + nat_digits(ip) + seq!['.'] + zeros((k - nat_digits(fp).len()) as nat) + nat_digits(fp)
}

/// The fallback rendering `numerator/denominator`.
pub open spec fn fraction_str(n: int, d: int) -> Seq<char> {
    int_str(n) + seq!['/'] + nat_digits(d as nat)
}

/// How a rational `n / d` (`d >= 1`) is rendered: a whole number as its
/// digits; a value whose reduced denominator divides a power of ten within
/// reach, and whose scaled magnitude the formatter can hold, as a decimal;
/// anything else as an explicit fraction. A reduced pair yields the shortest
/// decimal, with no trailing zeros.
pub open spec fn format_pair(n: int, d: int) -> Seq<char> {
    if d == 1 {
        int_str(n)
    } else {
        match dec_exp(d) {
            Some(k) => {
                let q = (pow10(k) / (d as nat)) as int;
                let m = abs_int(n) * q;
                if m <= 0xffff_ffff_ffff_ffff_ffff_ffff_ffff_ffff {
                    decimal_str(n, k, m as nat)
                } else {
                    fraction_str(n, d)
                }
            },
            None => fraction_str(n, d),
        }
    }
}

/// Appends one digit character.
fn push_digit(s: &mut String, d: u128)
    requires
        d < 10,
    ensures
        final(s)@ == old(s)@.push(digit_char(d as int)),
{
    let lit: &str = if d == 0 {
        "0"
    } else if d == 1 {
        "1"
    } else if d == 2 {
        "2"
    } else if d == 3 {
        "3"
    } else if d == 4 {
        "4"
    } else if d == 5 {
        "5"
    } else if d == 6 {
        "6"
    } else if d == 7 {
        "7"
    } else if d == 8 {
        "8"
    } else {
        "9"
    };
    proof {
        reveal_strlit("0");
        reveal_strlit("1");
        reveal_strlit("2");
        reveal_strlit("3");
        reveal_strlit("4");
        reveal_strlit("5");
        reveal_strlit("6");
        reveal_strlit("7");
        reveal_strlit("8");
        reveal_strlit("9");
    }
    s.append(lit);
    proof {
        assert(final(s)@ =~= old(s)@.push(digit_char(d as int)));
    }
}

/// Appends the digits of `n`, by the rule that specifies them.
fn push_nat(s: &mut String, n: u128)
    ensures
        final(s)@ == old(s)@ + nat_digits(n as nat),
    decreases n,
{
    if n < 10 {
        push_digit(s, n);
        proof {
            assert(final(s)@ =~= old(s)@ + nat_digits(n as nat));
        }
    } else {
        proof {
            vstd::arithmetic::div_mod::lemma_div_decreases(n as int, 10);
        }
        push_nat(s, n / 10);
        push_digit(s, n % 10);
        proof {
            assert(final(s)@ =~= old(s)@ + nat_digits(n as nat));
        }
    }
}

/// Appends `n`'s digits with a sign when negative.
fn push_int(s: &mut String, n: i64)
    ensures
        final(s)@ == old(s)@ + int_str(n as int),
{
    if n < 0 {
        proof {
            reveal_strlit("-");
        }
        s.append("-");
        let mag = (-(n as i128)) as u128;
        push_nat(s, mag);
        proof {
            assert(final(s)@ =~= old(s)@ + int_str(n as int));
        }
    } else {
        push_nat(s, n as u128);
    }
}

/// A value below `10^k` has at most `k` digits.
proof fn lemma_digits_len_bound(n: nat, k: nat)
    requires
        1 <= k,
        n < pow10(k),
    ensures
        nat_digits(n).len() <= k,
    decreases n,
{
    if n >= 10 {
        assert(k >= 2) by {
            if k == 1 {
                assert(pow10(1) == 10) by {
                    reveal_with_fuel(pow10, 3);
                }
            }
        }
        assert(n / 10 < pow10((k - 1) as nat)) by {
            vstd::arithmetic::div_mod::lemma_fundamental_div_mod(n as int, 10);
            assert(pow10(k) == 10 * pow10((k - 1) as nat));
        }
        lemma_digits_len_bound(n / 10, (k - 1) as nat);
    }
}

/// The digit count of `n`, for values within the formatter's reach.
fn count_digits(n: u128) -> (c: usize)
    requires
        (n as nat) < pow10(38),
    ensures
        c == nat_digits(n as nat).len(),
        c <= 38,
    decreases n,
{
    proof {
        lemma_digits_len_bound(n as nat, 38);
    }
    if n < 10 {
        1
    } else {
        proof {
            vstd::arithmetic::div_mod::lemma_div_decreases(n as int, 10);
            vstd::arithmetic::div_mod::lemma_div_nonincreasing(n as int, 10);
        }
        let c0 = count_digits(n / 10);
        c0 + 1
    }
}

/// The recursive search that mirrors `dec_exp_rec`, carrying `10^k` along.
#[verifier::rlimit(100)]
fn dec_exp_search(d: u128, k: usize, p: u128) -> (res: Option<(usize, u128)>)
    requires
        2 <= d,
        1 <= k <= 38,
        p as nat == pow10(k as nat),
    ensures
        match res {
            Some(e) => {
                &&& dec_exp_rec(d as int, k as nat) == Some(e.0 as nat)
                &&& e.1 as nat == pow10(e.0 as nat)
                &&& 1 <= e.0 <= 38
                &&& e.1 % d == 0
            },
            None => dec_exp_rec(d as int, k as nat) is None,
        },
    decreases 38 - k,
{
    if p % d == 0 {
        Some((k, p))
    } else if k == 38 {
        None
    } else {
        proof {
            lemma_pow10_mono((k as nat), 37);
            assert(pow10(37) == 10_000_000_000_000_000_000_000_000_000_000_000_000) by {
                reveal_with_fuel(pow10, 39);
            }
        }
        dec_exp_search(d, k + 1, 10 * p)
    }
}

/// Renders a rational as text, as `format_pair` specifies: whole numbers as
/// plain digits, decimal-representable values as trimmed decimals, anything
/// else as `numerator/denominator`.
pub fn format_rational(r: &Rational) -> (out: String)
    requires
        r.wf(),
    ensures
        out@ == format_pair(r.num as int, r.den as int),
{
    let mut out = String::new();
    if r.den == 1 {
        push_int(&mut out, r.num);
        return out;
    }
    let d: u128 = r.den as u128;
    proof {
        assert(pow10(1) == 10) by {
            reveal_with_fuel(pow10, 3);
        }
    }
    match dec_exp_search(d, 1, 10) {
        Some((k, pw)) => {
            let q = pw / d;
            proof {
                lemma_pow10_pos(k as nat);
                lemma_small_mod_contra(pw as nat, d as nat);
                vstd::arithmetic::div_mod::lemma_fundamental_div_mod(pw as int, d as int);
                assert(q >= 1) by {
                    if q == 0 {
                        assert(pw as int == d as int * 0 + 0);
                    }
                }
            }
            let mag = mag_of(r.num);
            let limit: u128 = 0xffff_ffff_ffff_ffff_ffff_ffff_ffff_ffff / q;
            proof {
                vstd::arithmetic::div_mod::lemma_fundamental_div_mod(
                    0xffff_ffff_ffff_ffff_ffff_ffff_ffff_ffff,
                    q as int,
                );
            }
            if (mag as u128) > limit {
                // The scaled magnitude would not fit; fall back to the
                // fraction form, as the specification does.
                proof {
                    let maxi: int = 0xffff_ffff_ffff_ffff_ffff_ffff_ffff_ffff;
                    assert((mag as int) * (q as int) > maxi) by (nonlinear_arith)
                        requires
                            mag as int >= maxi / (q as int) + 1,
                            maxi == (q as int) * (maxi / (q as int)) + maxi % (q as int),
                            0 <= maxi % (q as int) < q as int,
                            q as int >= 1,
                    ;
                }
                push_int(&mut out, r.num);
                proof {
                    reveal_strlit("/");
                }
                out.append("/");
                push_nat(&mut out, d);
                proof {
                    assert(out@ =~= fraction_str(r.num as int, r.den as int));
                }
                return out;
            }
            proof {
                let maxi: int = 0xffff_ffff_ffff_ffff_ffff_ffff_ffff_ffff;
                assert((mag as int) * (q as int) <= maxi) by (nonlinear_arith)
                    requires
                        0 <= mag as int <= maxi / (q as int),
                        maxi == (q as int) * (maxi / (q as int)) + maxi % (q as int),
                        0 <= maxi % (q as int),
                        q as int >= 1,
                ;
            }
            let m = (mag as u128) * q;
            let ip = m / pw;
            let fp = m % pw;
            if r.num < 0 {
                proof {
                    reveal_strlit("-");
                }
                out.append("-");
            }
            let ghost sign: Seq<char> = if r.num < 0 {
                seq!['-']
            } else {
                Seq::empty()
            };
            assert(out@ =~= sign);
            push_nat(&mut out, ip);
            proof {
                reveal_strlit(".");
            }
            out.append(".");
            proof {
                lemma_pow10_mono(k as nat, 38);
            }
            let c = count_digits(fp);
            proof {
                lemma_digits_len_bound(fp as nat, k as nat);
            }
            let ghost before = out@;
            let mut z: usize = c;
            while z < k
                invariant
                    c <= z <= k,
                    out@ == before + zeros((z - c) as nat),
                decreases k - z,
            {
                proof {
                    reveal_strlit("0");
                }
                out.append("0");
                proof {
                    assert(out@ =~= before + zeros((z + 1 - c) as nat));
                }
                z += 1;
            }
            push_nat(&mut out, fp);
            proof {
                assert(out@ =~= decimal_str(r.num as int, k as nat, (mag as nat) * (q as nat)));
            }
            out
        },
        None => {
            push_int(&mut out, r.num);
            proof {
                reveal_strlit("/");
            }
            out.append("/");
            push_nat(&mut out, d);
            proof {
                assert(out@ =~= fraction_str(r.num as int, r.den as int));
            }
            out
        },
    }
}

/// A positive value below its modulus would be its own remainder, so a zero
/// remainder means the modulus is no larger.
proof fn lemma_small_mod_contra(x: nat, m: nat)
    requires
        x % m == 0,
        x > 0,
        m > 0,
    ensures
        x >= m,
{
    if x < m {
        vstd::arithmetic::div_mod::lemma_small_mod(x, m);
    }
}

/// The magnitude of a cell numerator.
fn mag_of(n: i64) -> (m: u64)
    ensures
        m as nat == abs_int(n as int),
{
    if n < 0 {
        (-(n as i128)) as u64
    } else {
        n as u64
    }
}

/// While scanning a number left to right, the digits already read are a
/// prefix of the mantissa's digit string, so the mantissa is at least the
/// value read so far.
proof fn lemma_mantissa_extends(s: Seq<char>, start: int, upto: int, dot: int, has_dot: bool)
    requires
        is_number(s),
        start == sign_len(s),
        start <= upto <= s.len(),
        !has_dot ==> all_digits(s.subrange(start, upto)),
        has_dot ==> {
            &&& start < dot < upto
            &&& dot < s.len() - 1
            &&& s[dot] == '.'
            &&& all_digits(s.subrange(start, dot))
            &&& all_digits(s.subrange(dot + 1, upto))
        },
    ensures
        !has_dot ==> mantissa_of(number_body(s)) >= digits_val(s.subrange(start, upto)),
        has_dot ==> mantissa_of(number_body(s)) >= digits_val(
            s.subrange(start, dot) + s.subrange(dot + 1, upto),
        ),
{
    let t = number_body(s);
    let n = s.len() as int;
    if has_dot {
        // The point already read is the number's one point.
        let p = dot - start;
        assert(t[p] == '.');
        assert(!is_plain_int(t));
        let q = choose|q: int| is_dotted(t, q);
        assert(is_dotted(t, q));
        assert(q == p) by {
            if q != p {
                if p < q {
                    assert(is_digit(t.subrange(0, q)[p]));
                } else {
                    assert(is_digit(t.subrange(q + 1, t.len() as int)[p - q - 1]));
                }
            }
        }
        lemma_dot_unique(t, q, dot_pos(t));
        let ip = s.subrange(start, dot);
        let fp = s.subrange(dot + 1, upto);
        let rest = s.subrange(upto, n);
        assert(t.subrange(0, p) =~= ip);
        assert(t.subrange(p + 1, t.len() as int) =~= s.subrange(dot + 1, n));
        assert(ip + s.subrange(dot + 1, n) =~= (ip + fp) + rest);
        assert(all_digits(ip + fp)) by {
            assert(forall|k: int|
                0 <= k < ip.len() + fp.len() ==> is_digit(#[trigger] (ip + fp)[k]));
        }
        assert(all_digits(rest)) by {
            assert(forall|k: int|
                0 <= k < rest.len() ==> rest[k] == s.subrange(dot + 1, n)[upto - dot - 1 + k]);
        }
        lemma_digits_val_concat_ge(ip + fp, rest);
    } else {
        let u = s.subrange(start, upto);
        if is_plain_int(t) {
            let rest = s.subrange(upto, n);
            assert(t =~= u + rest);
            assert(all_digits(rest)) by {
                assert(forall|k: int| 0 <= k < rest.len() ==> rest[k] == t[upto - start + k]);
            }
            lemma_digits_val_concat_ge(u, rest);
        } else {
            let q = choose|q: int| is_dotted(t, q);
            assert(is_dotted(t, q));
            lemma_dot_unique(t, q, dot_pos(t));
            // The point lies beyond what has been read.
            assert(q + start >= upto) by {
                if q + start < upto {
                    assert(is_digit(u[q]));
                }
            }
            let ip = t.subrange(0, q);
            let fp = t.subrange(q + 1, t.len() as int);
            let mid = s.subrange(upto, q + start);
            assert(ip =~= u + mid);
            assert(ip + fp =~= u + (mid + fp));
            assert forall|k: int| 0 <= k < mid.len() + fp.len() implies is_digit(
                #[trigger] (mid + fp)[k],
            ) by {
                if k < mid.len() {
                    assert((mid + fp)[k] == mid[k]);
                    assert(mid[k] == (u + mid)[u.len() + k]);
                    assert(is_digit(ip[u.len() + k]));
                } else {
                    assert((mid + fp)[k] == fp[k - mid.len()]);
                }
            }
            assert(all_digits(mid + fp));
            lemma_digits_val_concat_ge(u, mid + fp);
        }
    }
}

} // verus!


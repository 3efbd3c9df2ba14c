//! Integer literals.
//!
//! Integer tokens use a dual representation: values within the native signed
//! 64-bit range are held inline, larger values keep their decimal digits.
//! The split is a representation optimization only: `MaybeBigInt::view` gives
//! the mathematical value either way, and `wf` pins the representation, so two
//! well-formed values are equal exactly when their mathematical values are.

use vstd::prelude::*;

verus! {

use vstd::string::StrSliceExecFns;

/// The value of a sequence of decimal digit values, most significant first.
pub open spec fn digits_value(ds: Seq<u8>) -> int
    decreases ds.len(),
{
    if ds.len() == 0 {
        0
    } else {
        digits_value(ds.drop_last()) * 10 + ds.last() as int
    }
}

/// Every entry is a digit value, below ten.
pub open spec fn digits_ok(ds: Seq<u8>) -> bool {
    forall|i: int| 0 <= i < ds.len() ==> ds[i] < 10
}

pub open spec fn pow10(n: nat) -> int
    decreases n,
{
    if n == 0 {
        1
    } else {
        10 * pow10((n - 1) as nat)
    }
}

/// `ds` without its leading zero digits.
pub open spec fn strip_leading_zeros(ds: Seq<u8>) -> Seq<u8>
    decreases ds.len(),
{
    if ds.len() > 0 && ds[0] == 0 {
        strip_leading_zeros(ds.drop_first())
    } else {
        ds
    }
}

pub open spec fn is_dec_digit(c: char) -> bool {
    48 <= c as u32 <= 57
}

/// The digit values of a text of decimal digits, most significant first.
pub open spec fn text_digits(s: Seq<char>) -> Seq<u8> {
    s.map_values(|c: char| (c as u32 - 48) as u8)
}

/// Whether the text starts with an explicit sign character.
pub open spec fn has_sign(s: Seq<char>) -> bool {
    s.len() > 0 && (s[0] == '+' || s[0] == '-')
}

/// The text without its optional sign.
pub open spec fn sign_body(s: Seq<char>) -> Seq<char> {
    if has_sign(s) {
        s.drop_first()
    } else {
        s
    }
}

/// An optional sign followed by one or more decimal digits.
pub open spec fn valid_dec_text(s: Seq<char>) -> bool {
    &&& sign_body(s).len() > 0
    &&& forall|i: int| 0 <= i < sign_body(s).len() ==> is_dec_digit(#[trigger] sign_body(s)[i])
}

/// The signed value of a decimal text.
pub open spec fn dec_text_value(s: Seq<char>) -> int {
    let m = digits_value(text_digits(sign_body(s)));
    if s.len() > 0 && s[0] == '-' {
        -m
    } else {
        m
    }
}

/// An integer too large for the native signed 64-bit form: its decimal digits,
/// most significant first, with no leading zero, and its sign.
#[derive(Clone, Debug, PartialEq, Eq)]
pub struct BigInt {
    pub negative: bool,
    pub digits: Vec<u8>,
}

impl BigInt {
    pub open spec fn wf(self) -> bool {
        &&& digits_ok(self.digits@)
        &&& self.digits@.len() > 0
        &&& self.digits@[0] != 0
    }

    pub open spec fn value(self) -> int {
        if self.negative {
            -digits_value(self.digits@)
        } else {
            digits_value(self.digits@)
        }
    }
}

/// An integer literal: inline when the value fits the native signed 64-bit
/// range, arbitrary precision otherwise.
#[derive(Clone, Debug, PartialEq, Eq)]
pub enum MaybeBigInt {
    Small(i64),
    Big(BigInt),
}

impl View for MaybeBigInt {
    type V = int;

    open spec fn view(&self) -> int {
        match *self {
            MaybeBigInt::Small(v) => v as int,
            MaybeBigInt::Big(b) => b.value(),
        }
    }
}

impl MaybeBigInt {
    /// The big form is used only for values outside the native range, so equal
    /// values always have equal representations.
    pub open spec fn wf(self) -> bool {
        match self {
            MaybeBigInt::Small(_) => true,
            MaybeBigInt::Big(b) => b.wf() && (b.value() < i64::MIN || b.value() > i64::MAX),
        }
    }
}

pub proof fn lemma_digits_value_nonneg(ds: Seq<u8>)
    ensures
        digits_value(ds) >= 0,
    decreases ds.len(),
{
    if ds.len() > 0 {
        lemma_digits_value_nonneg(ds.drop_last());
    }
}

pub proof fn lemma_digits_value_lower(ds: Seq<u8>)
    requires
        digits_ok(ds),
        ds.len() > 0,
        ds[0] != 0,
    ensures
        digits_value(ds) >= pow10((ds.len() - 1) as nat),
    decreases ds.len(),
{
    if ds.len() == 1 {
        assert(ds.drop_last().len() == 0);
        assert(digits_value(ds.drop_last()) == 0);
        assert(ds.last() == ds[0]);
        assert(pow10(0) == 1);
    } else {
        assert(ds.drop_last()[0] == ds[0]);
        assert(digits_ok(ds.drop_last()));
        lemma_digits_value_lower(ds.drop_last());
        assert(digits_value(ds) == digits_value(ds.drop_last()) * 10 + ds.last() as int);
        assert(digits_value(ds.drop_last()) * 10 >= pow10((ds.len() - 2) as nat) * 10);
        assert(pow10((ds.len() - 1) as nat) == 10 * pow10((ds.len() - 2) as nat));
    }
}

proof fn lemma_leading_zero(ds: Seq<u8>)
    requires
        ds.len() > 0,
        ds[0] == 0,
    ensures
        digits_value(ds) == digits_value(ds.drop_first()),
    decreases ds.len(),
{
    if ds.len() == 1 {
        assert(ds.drop_last().len() == 0);
        assert(ds.last() == 0);
        assert(digits_value(ds.drop_last()) == 0);
        assert(digits_value(ds.drop_first()) == 0);
        assert(digits_value(ds) == digits_value(ds.drop_last()) * 10 + ds.last() as int);
    } else {
        assert(ds.drop_last()[0] == 0);
        lemma_leading_zero(ds.drop_last());
        assert(ds.drop_last().drop_first() =~= ds.drop_first().drop_last());
        assert(ds.drop_first().last() == ds.last());
        assert(digits_value(ds) == digits_value(ds.drop_last()) * 10 + ds.last() as int);
        assert(digits_value(ds.drop_first()) == digits_value(ds.drop_first().drop_last()) * 10
            + ds.drop_first().last() as int);
        assert(digits_value(ds.drop_last()) == digits_value(ds.drop_first().drop_last()));
    }
}

pub proof fn lemma_strip_value(ds: Seq<u8>)
    ensures
        digits_value(strip_leading_zeros(ds)) == digits_value(ds),
        strip_leading_zeros(ds).len() <= ds.len(),
        digits_ok(ds) ==> digits_ok(strip_leading_zeros(ds)),
        strip_leading_zeros(ds).len() > 0 ==> strip_leading_zeros(ds)[0] != 0,
    decreases ds.len(),
{
    if ds.len() > 0 && ds[0] == 0 {
        lemma_leading_zero(ds);
        lemma_strip_value(ds.drop_first());
    }
}

proof fn lemma_strip_push(ds: Seq<u8>, d: u8)
    ensures
        strip_leading_zeros(ds.push(d)) == if strip_leading_zeros(ds).len() == 0 && d == 0 {
            Seq::<u8>::empty()
        } else {
            strip_leading_zeros(ds).push(d)
        },
    decreases ds.len(),
{
    if ds.len() > 0 && ds[0] == 0 {
        assert(ds.push(d)[0] == 0);
        assert(ds.push(d).drop_first() =~= ds.drop_first().push(d));
        lemma_strip_push(ds.drop_first(), d);
        assert(strip_leading_zeros(ds.push(d)) == strip_leading_zeros(ds.drop_first().push(d)));
        assert(strip_leading_zeros(ds) == strip_leading_zeros(ds.drop_first()));
    } else if ds.len() == 0 {
        if d == 0 {
            assert(ds.push(d)[0] == 0);
            assert(ds.push(d).drop_first() =~= Seq::<u8>::empty());
            assert(strip_leading_zeros(ds.push(d).drop_first()) =~= Seq::<u8>::empty());
            assert(strip_leading_zeros(ds).len() == 0);
        } else {
            assert(ds.push(d)[0] == d);
            assert(strip_leading_zeros(ds.push(d)) =~= strip_leading_zeros(ds).push(d));
        }
    } else {
        assert(ds.push(d)[0] == ds[0]);
        assert(strip_leading_zeros(ds.push(d)) =~= strip_leading_zeros(ds).push(d));
    }
}

pub proof fn lemma_pow10_mono(m: nat, n: nat)
    requires
        m <= n,
    ensures
        pow10(m) <= pow10(n),
        pow10(m) >= 1,
    decreases n,
{
    if m < n {
        lemma_pow10_mono(m, (n - 1) as nat);
    } else if n > 0 {
        lemma_pow10_mono((m - 1) as nat, (n - 1) as nat);
    }
}

proof fn lemma_pow10_19()
    ensures
        pow10(19) == 10_000_000_000_000_000_000,
{
    reveal_with_fuel(pow10, 21);
}

impl MaybeBigInt {
    /// Reads an optionally signed decimal integer, exactly the texts of an
    /// optional `+` or `-` followed by one or more ASCII digits.  The result is
    /// the inline form whenever the value fits the native signed 64-bit range.
    pub fn parse_decimal(s: &str) -> (r: Option<MaybeBigInt>)
        ensures
            r is Some <==> valid_dec_text(s@),
            r matches Some(m) ==> m.wf() && m@ == dec_text_value(s@),
    {
        let n = s.unicode_len();
        let mut start: usize = 0;
        let mut neg = false;
        if n > 0 {
            let c0 = s.get_char(0);
            if c0 == '+' {
                start = 1;
            } else if c0 == '-' {
                neg = true;
                start = 1;
            }
        }
        if start >= n {
            assert(sign_body(s@).len() == 0);
            return None;
        }
        let ghost body = sign_body(s@);
        proof {
            assert(body =~= s@.subrange(start as int, n as int));
        }
        let mut ds: Vec<u8> = Vec::new();
        let mut j: usize = start;
        while j < n
            invariant
                start <= j <= n,
                n == s@.len(),
                start == if has_sign(s@) {
                    1int
                } else {
                    0int
                },
                body == sign_body(s@),
                body == s@.subrange(start as int, n as int),
                forall|k: int| 0 <= k < j - start ==> is_dec_digit(#[trigger] body[k]),
                ds@ == strip_leading_zeros(text_digits(body.subrange(0, j - start))),
                digits_ok(ds@),
                ds@.len() > 0 ==> ds@[0] != 0,
            decreases n - j,
        {
            let c = s.get_char(j);
            let u = c as u32;
            if u < 48 || u > 57 {
                proof {
                    assert(!is_dec_digit(body[j - start]));
                }
                return None;
            }
            let ghost pfx = text_digits(body.subrange(0, j - start));
            proof {
                lemma_strip_push(pfx, (u - 48) as u8);
                assert(text_digits(body.subrange(0, j + 1 - start)) =~= pfx.push((u - 48) as u8));
            }
            if !(ds.len() == 0 && u == 48) {
                ds.push((u - 48) as u8);
            }
            j += 1;
        }
        proof {
            assert(body.subrange(0, n - start) =~= body);
            lemma_strip_value(text_digits(body));
        }
        Some(make_int(neg, ds))
    }
}

/// Builds the literal from its sign and its decimal magnitude digits, most
/// significant first with no leading zero: the inline form exactly when the
/// value fits the native signed 64-bit range.
fn make_int(negative: bool, ds: Vec<u8>) -> (m: MaybeBigInt)
    requires
        digits_ok(ds@),
        ds@.len() > 0 ==> ds@[0] != 0,
    ensures
        m.wf(),
        m@ == if negative {
            -digits_value(ds@)
        } else {
            digits_value(ds@)
        },
{
    proof {
        lemma_digits_value_nonneg(ds@);
    }
    if ds.len() == 0 {
        return MaybeBigInt::Small(0);
    }
    if ds.len() <= 19 {
        let mut mag: u64 = 0;
        let mut k: usize = 0;
        proof {
            lemma_pow10_19();
        }
        while k < ds.len()
            invariant
                0 <= k <= ds.len() <= 19,
                digits_ok(ds@),
                mag == digits_value(ds@.subrange(0, k as int)),
                mag < pow10(k as nat),
                pow10(19) == 10_000_000_000_000_000_000,
            decreases ds.len() - k,
        {
            proof {
                lemma_pow10_mono(k as nat, 18);
                lemma_pow10_mono(19, 19);
                assert(ds@.subrange(0, k + 1).drop_last() =~= ds@.subrange(0, k as int));
            }
            mag = mag * 10 + (ds[k] as u64);
            k += 1;
        }
        proof {
            assert(ds@.subrange(0, ds@.len() as int) =~= ds@);
        }
        if mag <= 0x7fff_ffff_ffff_ffff {
            let v = if negative {
                -(mag as i64)
            } else {
                mag as i64
            };
            return MaybeBigInt::Small(v);
        }
        if negative && mag == 0x8000_0000_0000_0000 {
            return MaybeBigInt::Small(i64::MIN);
        }
        return MaybeBigInt::Big(BigInt { negative, digits: ds });
    }
    proof {
        lemma_digits_value_lower(ds@);
        lemma_pow10_mono(19, (ds@.len() - 1) as nat);
        lemma_pow10_19();
    }
    MaybeBigInt::Big(BigInt { negative, digits: ds })
}

/// The digit value a character carries in positional notation: decimal digits,
/// then lower-case letters from ten, then upper-case letters from ten.  A
/// character that carries none is mapped above every radix in use.
pub open spec fn radix_digit_val(c: char) -> int {
    let u = c as u32;
    if 48 <= u <= 57 {
        u - 48
    } else if 97 <= u <= 122 {
        u - 87
    } else if 65 <= u <= 90 {
        u - 55
    } else {
        99
    }
}

pub open spec fn radix_digit_ok(c: char, radix: int) -> bool {
    radix_digit_val(c) < radix
}

/// The value of a text of digits in the given radix, most significant first.
pub open spec fn radix_digits_value(s: Seq<char>, radix: int) -> int
    decreases s.len(),
{
    if s.len() == 0 {
        0
    } else {
        radix_digits_value(s.drop_last(), radix) * radix + radix_digit_val(s.last())
    }
}

/// An optional sign followed by one or more digits of the radix.
pub open spec fn valid_radix_text(s: Seq<char>, radix: int) -> bool {
    &&& sign_body(s).len() > 0
    &&& forall|i: int| 0 <= i < sign_body(s).len() ==> radix_digit_ok(#[trigger] sign_body(s)[i], radix)
}

/// The signed value of a radix text.
pub open spec fn radix_text_value(s: Seq<char>, radix: int) -> int {
    let m = radix_digits_value(sign_body(s), radix);
    if s.len() > 0 && s[0] == '-' {
        -m
    } else {
        m
    }
}

pub proof fn lemma_radix_value_nonneg(s: Seq<char>, radix: int)
    requires
        radix >= 2,
        forall|i: int| 0 <= i < s.len() ==> radix_digit_ok(#[trigger] s[i], radix),
    ensures
        radix_digits_value(s, radix) >= 0,
    decreases s.len(),
{
    if s.len() > 0 {
        assert(forall|i: int| 0 <= i < s.drop_last().len() ==> radix_digit_ok(
            #[trigger] s.drop_last()[i],
            radix,
        ));
        lemma_radix_value_nonneg(s.drop_last(), radix);
        assert(radix_digits_value(s.drop_last(), radix) * radix >= 0) by (nonlinear_arith)
            requires
                radix_digits_value(s.drop_last(), radix) >= 0,
                radix >= 2,
        ;
    }
}

/// Once a prefix of the digits is already past a bound, the whole text is too:
/// appending digits never shrinks the magnitude.
pub proof fn lemma_radix_value_grows(s: Seq<char>, k: int, radix: int)
    requires
        radix >= 2,
        0 <= k <= s.len(),
        forall|i: int| 0 <= i < s.len() ==> radix_digit_ok(#[trigger] s[i], radix),
    ensures
        radix_digits_value(s, radix) >= radix_digits_value(s.subrange(0, k), radix),
    decreases s.len() - k,
{
    if k < s.len() {
        lemma_radix_value_grows(s, k + 1, radix);
        let p = s.subrange(0, k);
        let q = s.subrange(0, k + 1);
        assert(q.drop_last() =~= p);
        lemma_radix_value_nonneg(p, radix);
        assert(radix_digits_value(q, radix) == radix_digits_value(p, radix) * radix
            + radix_digit_val(q.last()));
        assert(radix_digits_value(p, radix) * radix >= radix_digits_value(p, radix))
            by (nonlinear_arith)
            requires
                radix_digits_value(p, radix) >= 0,
                radix >= 2,
        ;
    } else {
        assert(s.subrange(0, k) =~= s);
    }
}

pub open spec fn pow_int(b: int, n: nat) -> int
    decreases n,
{
    if n == 0 {
        1
    } else {
        b * pow_int(b, (n - 1) as nat)
    }
}

pub proof fn lemma_pow_int_mono(b: int, m: nat, n: nat)
    requires
        b >= 2,
        m <= n,
    ensures
        1 <= pow_int(b, m) <= pow_int(b, n),
    decreases n,
{
    if m == 0 && n > 0 {
        lemma_pow_int_mono(b, 0, (n - 1) as nat);
        assert(pow_int(b, n) == b * pow_int(b, (n - 1) as nat));
        assert(b * pow_int(b, (n - 1) as nat) >= pow_int(b, (n - 1) as nat)) by (nonlinear_arith)
            requires
                b >= 2,
                pow_int(b, (n - 1) as nat) >= 1,
        ;
    } else if m > 0 {
        lemma_pow_int_mono(b, (m - 1) as nat, (n - 1) as nat);
        assert(pow_int(b, m) == b * pow_int(b, (m - 1) as nat));
        assert(pow_int(b, n) == b * pow_int(b, (n - 1) as nat));
        assert(b * pow_int(b, (m - 1) as nat) <= b * pow_int(b, (n - 1) as nat)
            && b * pow_int(b, (m - 1) as nat) >= 1) by (nonlinear_arith)
            requires
                b >= 2,
                1 <= pow_int(b, (m - 1) as nat) <= pow_int(b, (n - 1) as nat),
        ;
    }
}

/// The value of a sequence of decimal digit values, least significant first.
pub open spec fn digits_value_lsd(ds: Seq<u8>) -> int
    decreases ds.len(),
{
    if ds.len() == 0 {
        0
    } else {
        ds[0] + 10 * digits_value_lsd(ds.drop_first())
    }
}

proof fn lemma_lsd_push(ds: Seq<u8>, d: u8)
    ensures
        digits_value_lsd(ds.push(d)) == digits_value_lsd(ds) + d * pow10(ds.len()),
    decreases ds.len(),
{
    if ds.len() == 0 {
        assert(ds.push(d)[0] == d);
        assert(ds.push(d).drop_first() =~= Seq::<u8>::empty());
        assert(digits_value_lsd(ds.push(d).drop_first()) == 0);
    } else {
        assert(ds.push(d)[0] == ds[0]);
        assert(ds.push(d).drop_first() =~= ds.drop_first().push(d));
        lemma_lsd_push(ds.drop_first(), d);
        assert(digits_value_lsd(ds.push(d)) == ds[0] + 10 * (digits_value_lsd(ds.drop_first()) + d
            * pow10((ds.len() - 1) as nat)));
        assert(pow10(ds.len()) == 10 * pow10((ds.len() - 1) as nat));
        assert(10 * (d * pow10((ds.len() - 1) as nat)) == d * (10 * pow10(
            (ds.len() - 1) as nat,
        ))) by (nonlinear_arith);
    }
}

/// A trailing zero digit carries no value in the least-significant-first form.
proof fn lemma_lsd_drop_trailing_zero(ds: Seq<u8>)
    requires
        ds.len() > 0,
        ds.last() == 0,
    ensures
        digits_value_lsd(ds) == digits_value_lsd(ds.drop_last()),
{
    assert(ds =~= ds.drop_last().push(0));
    lemma_lsd_push(ds.drop_last(), 0);
}

/// Reversing the digit order swaps the two value readings.
proof fn lemma_lsd_reverse(ds: Seq<u8>)
    ensures
        digits_value(ds.reverse()) == digits_value_lsd(ds),
    decreases ds.len(),
{
    if ds.len() > 0 {
        assert(ds.reverse().drop_last() =~= ds.drop_first().reverse());
        assert(ds.reverse().last() == ds[0]);
        lemma_lsd_reverse(ds.drop_first());
        assert(digits_value(ds.reverse()) == digits_value(ds.reverse().drop_last()) * 10
            + ds.reverse().last() as int);
    }
}

/// One step of grade-school arithmetic on a decimal magnitude held least
/// significant digit first: the digits of `value * mul + add`.
fn digits_mul_add(ds: &Vec<u8>, mul: u8, add: u8) -> (r: Vec<u8>)
    requires
        digits_ok(ds@),
        2 <= mul <= 16,
        add < 16,
    ensures
        digits_ok(r@),
        digits_value_lsd(r@) == digits_value_lsd(ds@) * mul + add,
{
    let mut out: Vec<u8> = Vec::new();
    let mut carry: u32 = add as u32;
    let mut i: usize = 0;
    let n = ds.len();
    proof {
        assert(ds@.subrange(0, 0) =~= Seq::<u8>::empty());
    }
    while i < n
        invariant
            0 <= i <= n,
            n == ds@.len(),
            digits_ok(ds@),
            2 <= mul <= 16,
            carry <= 16,
            out@.len() == i,
            digits_ok(out@),
            digits_value_lsd(out@) + carry * pow10(i as nat) == digits_value_lsd(
                ds@.subrange(0, i as int),
            ) * mul + add,
        decreases n - i,
    {
        proof {
            assert(ds@[i as int] < 10);
            assert((ds@[i as int] as int) * (mul as int) <= 144) by (nonlinear_arith)
                requires
                    ds@[i as int] < 10,
                    mul <= 16,
            ;
        }
        let t: u32 = (ds[i] as u32) * (mul as u32) + carry;
        let q: u32 = t % 10;
        let c2: u32 = t / 10;
        proof {
            assert(t == 10 * c2 + q);
            assert(q < 10);
            assert(c2 <= 16);
            let a = digits_value_lsd(out@);
            let b = digits_value_lsd(ds@.subrange(0, i as int));
            let p = pow10(i as nat);
            lemma_lsd_push(out@, q as u8);
            assert(ds@.subrange(0, i + 1).drop_first() =~= ds@.subrange(1, i + 1)) by {
                assert(ds@.subrange(0, i + 1).drop_first() =~= ds@.subrange(0, i + 1).subrange(
                    1,
                    i + 1,
                ));
            }
            assert(ds@.subrange(0, i + 1) =~= ds@.subrange(0, i as int).push(ds@[i as int]));
            lemma_lsd_push(ds@.subrange(0, i as int), ds@[i as int]);
            assert(pow10((i + 1) as nat) == 10 * pow10(i as nat));
            assert(t == 10 * c2 + q);
            assert(a + q * p + c2 * (10 * p) == (b + ds@[i as int] * p) * mul + add)
                by (nonlinear_arith)
                requires
                    a + carry * p == b * mul + add,
                    t == ds@[i as int] * mul + carry,
                    t == 10 * c2 + q,
            ;
        }
        out.push(q as u8);
        carry = c2;
        i += 1;
    }
    proof {
        assert(ds@.subrange(0, n as int) =~= ds@);
    }
    while carry > 0
        invariant
            digits_ok(out@),
            carry <= 16,
            digits_value_lsd(out@) + carry * pow10(out@.len()) == digits_value_lsd(ds@) * mul
                + add,
        decreases carry,
    {
        let q: u32 = carry % 10;
        let c2: u32 = carry / 10;
        proof {
            assert(carry == 10 * c2 + q);
            assert(q < 10);
            assert(c2 <= 16);
            let a = digits_value_lsd(out@);
            let p = pow10(out@.len());
            lemma_lsd_push(out@, q as u8);
            assert(pow10((out@.len() + 1) as nat) == 10 * pow10(out@.len()));
            assert(carry == 10 * c2 + q);
            assert(a + q * p + c2 * (10 * p) == a + carry * p) by (nonlinear_arith)
                requires
                    carry == 10 * c2 + q,
            ;
        }
        out.push(q as u8);
        carry = c2;
    }
    out
}

/// Reads an optionally signed integer in the given radix with arbitrary
/// precision: an optional `+` or `-`, then one or more digits of the radix;
/// an empty or invalid digit sequence is refused.  The result is the inline
/// form whenever the value fits the native signed 64-bit range.
pub fn parse_radix(s: &str, radix: u32) -> (r: Option<MaybeBigInt>)
    requires
        radix == 2 || radix == 8 || radix == 16,
    ensures
        r is Some <==> valid_radix_text(s@, radix as int),
        r matches Some(m) ==> m.wf() && m@ == radix_text_value(s@, radix as int),
{
    let n = s.unicode_len();
    let mut start: usize = 0;
    let mut neg = false;
    if n > 0 {
        let c0 = s.get_char(0);
        if c0 == '+' {
            start = 1;
        } else if c0 == '-' {
            neg = true;
            start = 1;
        }
    }
    if start >= n {
        assert(sign_body(s@).len() == 0);
        return None;
    }
    let ghost body = sign_body(s@);
    proof {
        assert(body =~= s@.subrange(start as int, n as int));
    }
    let mut lsd: Vec<u8> = Vec::new();
    let mut j: usize = start;
    while j < n
        invariant
            start <= j <= n,
            n == s@.len(),
            start == if has_sign(s@) {
                1int
            } else {
                0int
            },
            neg == (s@.len() > 0 && s@[0] == '-'),
            body == sign_body(s@),
            body == s@.subrange(start as int, n as int),
            radix == 2 || radix == 8 || radix == 16,
            forall|k: int| 0 <= k < j - start ==> radix_digit_ok(#[trigger] body[k], radix as int),
            digits_ok(lsd@),
            digits_value_lsd(lsd@) == radix_digits_value(
                body.subrange(0, j - start),
                radix as int,
            ),
        decreases n - j,
    {
        let c = s.get_char(j);
        let u = c as u32;
        let d: u32 = if u >= 48 && u <= 57 {
            u - 48
        } else if u >= 97 && u <= 122 {
            u - 87
        } else if u >= 65 && u <= 90 {
            u - 55
        } else {
            99
        };
        if d >= radix {
            proof {
                assert(!radix_digit_ok(body[j - start], radix as int));
            }
            return None;
        }
        proof {
            assert(body.subrange(0, j + 1 - start).drop_last() =~= body.subrange(0, j - start));
            assert(body.subrange(0, j + 1 - start).last() == body[j - start]);
        }
        lsd = digits_mul_add(&lsd, radix as u8, d as u8);
        j += 1;
    }
    proof {
        assert(body.subrange(0, n - start) =~= body);
    }
    // Drop the zero digits at the significant end, then put the magnitude
    // into the most-significant-first order the literal form carries.
    let mut hi: usize = lsd.len();
    proof {
        assert(lsd@.subrange(0, lsd@.len() as int) =~= lsd@);
    }
    loop
        invariant
            0 <= hi <= lsd@.len(),
            digits_ok(lsd@),
            digits_value_lsd(lsd@.subrange(0, hi as int)) == digits_value_lsd(lsd@),
        ensures
            0 <= hi <= lsd@.len(),
            digits_value_lsd(lsd@.subrange(0, hi as int)) == digits_value_lsd(lsd@),
            hi > 0 ==> lsd@[hi - 1] != 0,
        decreases hi,
    {
        if hi == 0 {
            break ;
        }
        if lsd[hi - 1] != 0 {
            break ;
        }
        proof {
            assert(lsd@.subrange(0, hi as int).last() == lsd@[hi - 1]);
            assert(lsd@.subrange(0, hi as int).drop_last() =~= lsd@.subrange(0, hi - 1));
            lemma_lsd_drop_trailing_zero(lsd@.subrange(0, hi as int));
        }
        hi = hi - 1;
    }
    let mut msd: Vec<u8> = Vec::new();
    let mut k: usize = hi;
    while k > 0
        invariant
            0 <= k <= hi <= lsd@.len(),
            digits_ok(lsd@),
            msd@.len() == hi - k,
            forall|m: int| 0 <= m < msd@.len() ==> msd@[m] == lsd@[hi - 1 - m],
        decreases k,
    {
        k = k - 1;
        msd.push(lsd[k]);
    }
    proof {
        assert(msd@ =~= lsd@.subrange(0, hi as int).reverse());
        lemma_lsd_reverse(lsd@.subrange(0, hi as int));
        if hi > 0 {
            assert(msd@[0] == lsd@[hi - 1]);
        }
    }
    Some(make_int(neg, msd))
}

} // verus!

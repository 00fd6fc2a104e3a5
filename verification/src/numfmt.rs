//! The numeric formatter: a descriptor holding a digit alphabet, prefix,
//! suffix, minimum digit-field width and sign policy, rendering unsigned and
//! signed machine integers.  Digits are emitted most-significant-first in a
//! single forward pass through a digit-reversal technique: the magnitude's
//! digits are folded into a second integer whose digit sequence is the
//! original one reversed, and peeling least-significant digits off that
//! value yields the original digits in emission order.
use vstd::prelude::*;

verus! {

use vstd::arithmetic::power::{
    pow, lemma_pow_adds, lemma_pow_positive, lemma_pow_increases, lemma_pow1,
};
use vstd::arithmetic::div_mod::{
    lemma_div_decreases, lemma_div_non_zero, lemma_fundamental_div_mod,
    lemma_fundamental_div_mod_converse_mod, lemma_fundamental_div_mod_converse_div,
    lemma_basic_div, lemma_multiply_divide_lt, lemma_mod_division_less_than_divisor,
    lemma_div_denominator, lemma_div_basics,
};
use vstd::arithmetic::mul::{
    lemma_mul_inequality, lemma_mul_is_distributive_add, lemma_mul_is_distributive_sub,
    lemma_mul_is_commutative,
};
use vstd::calc_macro::*;
use vstd::utf8::{encode_utf8, encode_scalar, is_ascii_chars};
use crate::encoding::{lemma_encode_concat, lemma_encode_singleton, lemma_encode_ascii_len};
use crate::sink::{
    ByteSink, SinkError, Utf8Write, wrote_prefix, lemma_wrote_prefix_extend,
    lemma_wrote_prefix_head,
};
use crate::traits::{Format, Show};

/// The base-`radix` digits of `x`, most significant first; zero renders as
/// the single digit zero.
pub open spec fn digits_of(radix: nat, x: nat) -> Seq<nat>
    decreases x,
    via digits_of_decreases
{
    if radix < 2 || x < radix {
        seq![x]
    } else {
        digits_of(radix, x / radix).push(x % radix)
    }
}

#[via_fn]
proof fn digits_of_decreases(radix: nat, x: nat) {
    if !(radix < 2 || x < radix) {
        lemma_div_decreases(x as int, radix as int);
    }
}

/// The numeric value of a digit sequence read most-significant-first.
pub open spec fn seq_value(radix: nat, ds: Seq<nat>) -> nat
    decreases ds.len(),
{
    if ds.len() == 0 {
        0
    } else {
        seq_value(radix, ds.drop_last()) * radix + ds.last()
    }
}

/// The fold that the digit-reversal loop computes: peel least-significant
/// digits off `x` and append each to `acc` most-significant-first.
pub open spec fn rev_acc(radix: nat, x: nat, acc: nat) -> nat
    decreases x,
    via rev_acc_decreases
{
    if radix < 2 || x == 0 {
        acc
    } else {
        rev_acc(radix, x / radix, acc * radix + x % radix)
    }
}

#[via_fn]
proof fn rev_acc_decreases(radix: nat, x: nat, acc: nat) {
    if !(radix < 2 || x == 0) {
        lemma_div_decreases(x as int, radix as int);
    }
}

/// The digit counter's threshold convention, overflow guard included: grow
/// a radix-power threshold under wraparound arithmetic; stop with the count
/// reached as soon as the threshold exceeds the magnitude — or as soon as
/// multiplying no longer increases it, which is how the threshold's
/// overflow is detected.
pub open spec fn guarded_digit_count(radix: nat, x: nat, length: nat, limit: nat) -> nat
    decreases 0x1_0000_0000_0000_0000 - limit,
{
    if (radix * limit) % 0x1_0000_0000_0000_0000 <= limit {
        length
    } else if limit > x {
        length
    } else {
        guarded_digit_count(
            radix,
            x,
            length + 1,
            (radix * limit) % 0x1_0000_0000_0000_0000,
        )
    }
}

/// A single digit's value is the digit itself.
pub proof fn lemma_seq_value_singleton(radix: nat, d: nat)
    ensures
        seq_value(radix, seq![d]) == d,
{
    assert(seq![d].drop_last() =~= Seq::<nat>::empty());
    assert(seq_value(radix, Seq::<nat>::empty()) == 0);
    assert(seq![d].last() == d);
    assert(seq_value(radix, seq![d]) == seq_value(radix, seq![d].drop_last()) * radix + d);
}

/// The basic shape of a digit expansion: at least one digit, every digit
/// below the radix, the value pinned between neighbouring radix powers, a
/// nonzero leading digit for a nonzero value, and the expansion's value
/// being the number itself.
pub proof fn lemma_digits_basics(radix: nat, x: nat)
    requires
        radix >= 2,
    ensures
        digits_of(radix, x).len() >= 1,
        forall|i: int|
            0 <= i < digits_of(radix, x).len() ==> #[trigger] digits_of(radix, x)[i] < radix,
        x < pow(radix as int, digits_of(radix, x).len() as nat),
        digits_of(radix, x).len() >= 2 ==> pow(
            radix as int,
            (digits_of(radix, x).len() - 1) as nat,
        ) <= x,
        x >= radix <==> digits_of(radix, x).len() >= 2,
        x >= 1 ==> digits_of(radix, x)[0] >= 1,
        seq_value(radix, digits_of(radix, x)) == x,
    decreases x,
{
    let ds = digits_of(radix, x);
    if x < radix {
        assert(ds =~= seq![x]);
        lemma_pow1(radix as int);
        lemma_seq_value_singleton(radix, x);
    } else {
        let q = x / radix;
        let m = x % radix;
        lemma_div_decreases(x as int, radix as int);
        lemma_div_non_zero(x as int, radix as int);
        lemma_mod_division_less_than_divisor(x as int, radix as int);
        lemma_fundamental_div_mod(x as int, radix as int);
        lemma_digits_basics(radix, q);
        let ds0 = digits_of(radix, q);
        let n0 = ds0.len();
        assert(ds =~= ds0.push(m));
        // the value: unfold seq_value on a push
        assert(ds.drop_last() =~= ds0);
        assert(seq_value(radix, ds) == seq_value(radix, ds0) * radix + m);
        assert(seq_value(radix, ds0) * radix + m == q * radix + m);
        // upper bound: x = q * radix + m < pow(radix, n0) * radix
        assert(q + 1 <= pow(radix as int, n0 as nat));
        lemma_mul_inequality(q as int + 1, pow(radix as int, n0 as nat), radix as int);
        lemma_mul_is_distributive_add(radix as int, q as int, 1);
        lemma_mul_is_commutative(q as int + 1, radix as int);
        lemma_pow_adds(radix as int, n0 as nat, 1);
        lemma_pow1(radix as int);
        assert(x < pow(radix as int, (n0 + 1) as nat));
        // lower bound: x >= q * radix >= pow(radix, n0 - 1) * radix
        if n0 >= 2 {
            lemma_mul_inequality(
                pow(radix as int, (n0 - 1) as nat),
                q as int,
                radix as int,
            );
            lemma_pow_adds(radix as int, (n0 - 1) as nat, 1);
        } else {
            lemma_pow1(radix as int);
            assert(q >= 1);
            lemma_mul_inequality(1, q as int, radix as int);
        }
        assert(pow(radix as int, n0 as nat) <= q * radix);
        assert(x >= q * radix);
    }
}

/// A value below `pow(radix, d)` has at most `d` digits.
pub proof fn lemma_digits_len_le(radix: nat, x: nat, d: nat)
    requires
        radix >= 2,
        d >= 1,
        x < pow(radix as int, d),
    ensures
        digits_of(radix, x).len() <= d,
    decreases x,
{
    if x < radix {
    } else {
        let q = x / radix;
        lemma_div_decreases(x as int, radix as int);
        lemma_digits_basics(radix, x);
        if d == 1 {
            lemma_pow1(radix as int);
            assert(false);
        }
        lemma_pow_adds(radix as int, 1, (d - 1) as nat);
        lemma_pow1(radix as int);
        assert(x < radix * pow(radix as int, (d - 1) as nat));
        lemma_multiply_divide_lt(x as int, radix as int, pow(radix as int, (d - 1) as nat));
        lemma_digits_len_le(radix, q, (d - 1) as nat);
    }
}

/// Prepending a digit adds its value at the highest place.
pub proof fn lemma_seq_value_prepend(radix: nat, d: nat, s: Seq<nat>)
    ensures
        seq_value(radix, seq![d] + s) == d * pow(radix as int, s.len() as nat) + seq_value(
            radix,
            s,
        ),
    decreases s.len(),
{
    if s.len() == 0 {
        assert(seq![d] + s =~= seq![d]);
        lemma_seq_value_singleton(radix, d);
        assert(s =~= Seq::<nat>::empty());
        assert(seq_value(radix, s) == 0);
        vstd::arithmetic::power::lemma_pow0(radix as int);
    } else {
        let t = seq![d] + s;
        assert(t.drop_last() =~= seq![d] + s.drop_last());
        assert(t.last() == s.last());
        lemma_seq_value_prepend(radix, d, s.drop_last());
        let p = pow(radix as int, s.drop_last().len() as nat);
        lemma_pow_adds(radix as int, s.drop_last().len() as nat, 1);
        lemma_pow1(radix as int);
        assert(seq_value(radix, t) == seq_value(radix, t.drop_last()) * radix + s.last());
        calc! {
            (==)
            seq_value(radix, t.drop_last()) * radix as int; {
                assert(seq_value(radix, t.drop_last()) == d * p + seq_value(
                    radix,
                    s.drop_last(),
                ));
            }
            (d * p + seq_value(radix, s.drop_last()) as int) * radix; {
                lemma_mul_is_distributive_add(
                    radix as int,
                    d * p,
                    seq_value(radix, s.drop_last()) as int,
                );
                lemma_mul_is_commutative(d * p + seq_value(radix, s.drop_last()) as int, radix as int);
                lemma_mul_is_commutative(d * p, radix as int);
                lemma_mul_is_commutative(seq_value(radix, s.drop_last()) as int, radix as int);
            }
            (d * p) * radix + seq_value(radix, s.drop_last()) * radix as int; {
                vstd::arithmetic::mul::lemma_mul_is_associative(d as int, p, radix as int);
            }
            d * (p * radix) + seq_value(radix, s.drop_last()) * radix as int; {}
            d * pow(radix as int, s.len() as nat) + seq_value(radix, s.drop_last()) * radix as int;
        }
    }
}

/// What the digit-reversal fold computes: the value of the reversed digit
/// sequence, with the accumulator shifted past it.
pub proof fn lemma_rev_acc(radix: nat, x: nat, acc: nat)
    requires
        radix >= 2,
        x >= 1,
    ensures
        rev_acc(radix, x, acc) == seq_value(radix, digits_of(radix, x).reverse()) + acc * pow(
            radix as int,
            digits_of(radix, x).len() as nat,
        ),
    decreases x,
{
    let ds = digits_of(radix, x);
    lemma_digits_basics(radix, x);
    if x < radix {
        lemma_basic_div(x as int, radix as int);
        vstd::arithmetic::div_mod::lemma_small_mod(x, radix);
        assert(rev_acc(radix, x, acc) == rev_acc(radix, 0, acc * radix + x % radix));
        assert(x % radix == x);
        assert(ds =~= seq![x]);
        assert(ds.reverse() =~= seq![x]);
        lemma_seq_value_singleton(radix, x);
        lemma_pow1(radix as int);
    } else {
        let q = x / radix;
        let m = x % radix;
        lemma_div_decreases(x as int, radix as int);
        lemma_div_non_zero(x as int, radix as int);
        lemma_rev_acc(radix, q, acc * radix + m);
        lemma_digits_basics(radix, q);
        let ds0 = digits_of(radix, q);
        let n0 = ds0.len();
        assert(ds =~= ds0.push(m));
        assert(ds.reverse() =~= seq![m] + ds0.reverse());
        lemma_seq_value_prepend(radix, m, ds0.reverse());
        assert(ds0.reverse().len() == n0);
        let p0 = pow(radix as int, n0 as nat);
        lemma_pow_adds(radix as int, n0 as nat, 1);
        lemma_pow1(radix as int);
        lemma_pow_positive(radix as int, n0 as nat);
        // rev_acc(x, acc) == rev_acc(q, acc * radix + m)
        //                 == seq_value(ds0.reverse()) + (acc * radix + m) * p0
        // target          == m * p0 + seq_value(ds0.reverse()) + acc * (p0 * radix)
        lemma_mul_is_distributive_add(
            p0,
            (acc * radix) as int,
            m as int,
        );
        lemma_mul_is_commutative((acc * radix + m) as int, p0);
        lemma_mul_is_commutative((acc * radix) as int, p0);
        lemma_mul_is_commutative(m as int, p0);
        vstd::arithmetic::mul::lemma_mul_is_associative(acc as int, radix as int, p0);
        vstd::arithmetic::mul::lemma_mul_is_associative(acc as int, p0, radix as int);
        lemma_mul_is_commutative(radix as int, p0);
    }
}

/// Peeling the least-significant digit off the value of a digit sequence.
pub proof fn lemma_seq_value_extract(radix: nat, ds: Seq<nat>)
    requires
        radix >= 2,
        ds.len() >= 1,
        forall|i: int| 0 <= i < ds.len() ==> #[trigger] ds[i] < radix,
    ensures
        seq_value(radix, ds) % radix == ds.last(),
        seq_value(radix, ds) / radix == seq_value(radix, ds.drop_last()),
{
    let v = seq_value(radix, ds.drop_last());
    assert(ds.last() < radix);
    lemma_fundamental_div_mod_converse_mod(
        seq_value(radix, ds) as int,
        radix as int,
        v as int,
        ds.last() as int,
    );
    lemma_fundamental_div_mod_converse_div(
        seq_value(radix, ds) as int,
        radix as int,
        v as int,
        ds.last() as int,
    );
}

/// Stepping the digit-emission loop: the tail of the digit sequence from
/// position `i`, reversed, ends in digit `i`, and dropping that digit
/// leaves the tail from `i + 1`, reversed.
pub proof fn lemma_reverse_tail_step(ds: Seq<nat>, i: int)
    requires
        0 <= i < ds.len(),
    ensures
        ds.subrange(i, ds.len() as int).reverse().len() == ds.len() - i,
        ds.subrange(i, ds.len() as int).reverse().last() == ds[i],
        ds.subrange(i, ds.len() as int).reverse().drop_last() =~= ds.subrange(
            i + 1,
            ds.len() as int,
        ).reverse(),
{
    let tail = ds.subrange(i, ds.len() as int);
    assert(tail.reverse().last() == tail[0]);
    assert forall|j: int| 0 <= j < ds.len() - i - 1 implies tail.reverse().drop_last()[j]
        == ds.subrange(i + 1, ds.len() as int).reverse()[j] by {
        assert(tail.reverse()[j] == tail[ds.len() - i - 1 - j]);
    }
}

/// What should be printed before a non-negative integer.
pub enum SignPolicy {
    /// Print a plus sign, as in `+372`.
    Plus,
    /// Print a space, as in ` 372`.
    Space,
    /// Print nothing, as in `372`.
    Empty,
}

/// The sign glyph a policy emits before a non-negative number.
pub open spec fn sign_chars(sign: SignPolicy) -> Seq<char> {
    match sign {
        SignPolicy::Plus => seq!['+'],
        SignPolicy::Space => seq![' '],
        SignPolicy::Empty => Seq::<char>::empty(),
    }
}

/// The byte length of a policy's sign glyph: one for Plus and Space,
/// nothing for Empty.
pub open spec fn sign_len_spec(sign: SignPolicy) -> nat {
    match sign {
        SignPolicy::Plus => 1,
        SignPolicy::Space => 1,
        SignPolicy::Empty => 0,
    }
}

/// How many copies of the zero digit pad a `d`-digit field to `min_len`.
pub open spec fn pad_len(min_len: nat, d: nat) -> nat {
    if d < min_len {
        (min_len - d) as nat
    } else {
        0
    }
}

/// A digit alphabet fit for rendering: at least two digits (the radix), and
/// every digit a one-byte character, so that digit count equals byte count.
pub open spec fn alphabet_wf(alphabet: Seq<char>) -> bool {
    &&& alphabet.len() >= 2
    &&& vstd::utf8::is_ascii_chars(alphabet)
}

/// The full rendering of an unsigned value: sign glyph, prefix, left
/// padding with the zero digit, the digits themselves, then the suffix.
pub open spec fn unsigned_repr(
    alphabet: Seq<char>,
    prefix: Seq<char>,
    suffix: Seq<char>,
    min_len: nat,
    sign: SignPolicy,
    x: u64,
) -> Seq<char> {
    let ds = digits_of(alphabet.len(), x as nat);
    sign_chars(sign) + prefix + Seq::new(pad_len(min_len, ds.len()), |i: int| alphabet[0])
        + ds.map(|i: int, d: nat| alphabet[d as int]) + suffix
}

/// When an unsigned value can be rendered under a descriptor: a real
/// alphabet, the radix power covering the whole expansion fitting in 64
/// bits, and the rendering's byte length fitting the machine word.
pub open spec fn unsigned_wf(
    alphabet: Seq<char>,
    prefix: Seq<char>,
    suffix: Seq<char>,
    min_len: nat,
    sign: SignPolicy,
    x: u64,
) -> bool {
    &&& alphabet_wf(alphabet)
    &&& pow(alphabet.len() as int, digits_of(alphabet.len(), x as nat).len()) <= u64::MAX
    &&& encode_utf8(unsigned_repr(alphabet, prefix, suffix, min_len, sign, x)).len()
        <= usize::MAX
}

/// The magnitude of a signed value, safe at the far end of the range.
pub open spec fn i64_mag(x: i64) -> u64 {
    if x >= 0 {
        x as u64
    } else {
        (-(x as int)) as u64
    }
}

/// The rendering of a signed value: a negative one takes a leading minus
/// and then its magnitude with the sign policy forced to Empty, so no
/// second glyph appears; a non-negative one is the unsigned rendering.
pub open spec fn signed_repr(
    alphabet: Seq<char>,
    prefix: Seq<char>,
    suffix: Seq<char>,
    min_len: nat,
    sign: SignPolicy,
    x: i64,
) -> Seq<char> {
    if x < 0 {
        seq!['-'] + unsigned_repr(alphabet, prefix, suffix, min_len, SignPolicy::Empty, i64_mag(x))
    } else {
        unsigned_repr(alphabet, prefix, suffix, min_len, sign, i64_mag(x))
    }
}

/// When a signed value can be rendered under a descriptor.
pub open spec fn signed_wf(
    alphabet: Seq<char>,
    prefix: Seq<char>,
    suffix: Seq<char>,
    min_len: nat,
    sign: SignPolicy,
    x: i64,
) -> bool {
    &&& alphabet_wf(alphabet)
    &&& pow(alphabet.len() as int, digits_of(alphabet.len(), i64_mag(x) as nat).len())
        <= u64::MAX
    &&& encode_utf8(signed_repr(alphabet, prefix, suffix, min_len, sign, x)).len() <= usize::MAX
}

/// Law: rendering magnitude zero in any radix, with no padding, prefix,
/// suffix or sign glyph, yields exactly one character, the alphabet's zero
/// digit.
pub proof fn lemma_zero_single_digit(alphabet: Seq<char>)
    requires
        alphabet.len() >= 2,
    ensures
        unsigned_repr(
            alphabet,
            Seq::<char>::empty(),
            Seq::<char>::empty(),
            0,
            SignPolicy::Empty,
            0,
        ) == seq![alphabet[0]],
{
    let ds = digits_of(alphabet.len(), 0);
    assert(ds =~= seq![0nat]);
    assert(ds.map(|i: int, d: nat| alphabet[d as int]) =~= seq![alphabet[0]]);
    assert(Seq::new(pad_len(0, ds.len()), |i: int| alphabet[0]) =~= Seq::<char>::empty());
    assert(unsigned_repr(
        alphabet,
        Seq::<char>::empty(),
        Seq::<char>::empty(),
        0,
        SignPolicy::Empty,
        0,
    ) =~= seq![alphabet[0]]);
}

/// A reusable description of how to render an integer: digit alphabet,
/// text before and after the number, a minimum digit-field width padded
/// with the zero digit, and the sign policy.
pub struct FormattedInt<'x> {
    pub prefix: &'x str,
    pub suffix: &'x str,
    pub digits: &'x [char],
    pub min_len: usize,
    pub sign: SignPolicy,
}

impl<'x> FormattedInt<'x> {
    /// How many bytes the sign glyph takes.
    pub fn sign_len(&self) -> (n: usize)
        ensures
            n == sign_len_spec(self.sign),
    {
        match self.sign {
            SignPolicy::Plus | SignPolicy::Space => 1,
            SignPolicy::Empty => 0,
        }
    }

    /// Total field length around a digit field of `s` digits: pad the digit
    /// field to the minimum width, then add prefix, suffix and sign bytes.
    pub fn with_fanciness(&self, s: usize) -> (n: usize)
        requires
            (if s < self.min_len {
                self.min_len as int
            } else {
                s as int
            }) + vstd::utf8::encode_utf8(self.prefix@).len() + vstd::utf8::encode_utf8(
                self.suffix@,
            ).len() + sign_len_spec(self.sign) <= usize::MAX,
        ensures
            n == (if s < self.min_len {
                self.min_len as int
            } else {
                s as int
            }) + vstd::utf8::encode_utf8(self.prefix@).len() + vstd::utf8::encode_utf8(
                self.suffix@,
            ).len() + sign_len_spec(self.sign),
    {
        let padded = if s < self.min_len {
            self.min_len
        } else {
            s
        };
        padded + str::len(self.prefix) + str::len(self.suffix) + self.sign_len()
    }

    /// Count of digits needed for `x` in this descriptor's radix; zero needs
    /// one digit.  The result is exactly what the guarded threshold
    /// convention prescribes on every input; whenever the radix power for
    /// the full expansion fits in 64 bits, that is the expansion's length.
    #[verifier::loop_isolation(false)]
    pub fn num_digits(&self, x: u64) -> (n: usize)
        requires
            self.digits@.len() >= 2,
        ensures
            n >= 1,
            pow(self.digits@.len() as int, digits_of(self.digits@.len() as nat, x as nat).len())
                <= u64::MAX ==> n == digits_of(self.digits@.len() as nat, x as nat).len(),
            guarded_digit_count(self.digits@.len() as nat, x as nat, 1, self.digits@.len() as nat)
                <= usize::MAX ==> n == guarded_digit_count(
                self.digits@.len() as nat,
                x as nat,
                1,
                self.digits@.len() as nat,
            ),
    {
        let ghost radix: nat = self.digits@.len() as nat;
        let ghost ds = digits_of(radix, x as nat);
        let ghost inrange: bool = pow(radix as int, ds.len()) <= u64::MAX;
        proof {
            lemma_digits_basics(radix, x as nat);
            lemma_pow1(radix as int);
        }
        let base: u64 = self.digits.len() as u64;
        let mut length: u64 = 1;
        let mut limit: u64 = base;
        while base.wrapping_mul(limit) > limit
            invariant
                base == radix,
                2 <= radix,
                radix <= u64::MAX,
                1 <= length,
                length <= limit,
                ds == digits_of(radix, x as nat),
                inrange == (pow(radix as int, ds.len()) <= u64::MAX),
                inrange ==> length <= ds.len(),
                inrange ==> limit == pow(radix as int, length as nat),
                inrange && length >= 2 ==> pow(radix as int, (length - 1) as nat) <= x,
                guarded_digit_count(radix, x as nat, 1, radix) == guarded_digit_count(
                    radix,
                    x as nat,
                    length as nat,
                    limit as nat,
                ),
            decreases u64::MAX - limit,
        {
            if limit > x {
                proof {
                    assert(guarded_digit_count(radix, x as nat, length as nat, limit as nat)
                        == length as nat);
                    if inrange {
                        lemma_digits_basics(radix, x as nat);
                        if length < ds.len() {
                            lemma_pow_increases(radix, length as nat, (ds.len() - 1) as nat);
                            assert(false);
                        }
                        if length > ds.len() {
                            lemma_pow_increases(radix, ds.len(), (length - 1) as nat);
                            lemma_pow1(radix as int);
                            assert(false);
                        }
                        lemma_digits_fit_count(radix, x as nat);
                    }
                }
                return count_to_usize(length);
            }
            proof {
                assert(guarded_digit_count(radix, x as nat, length as nat, limit as nat)
                    == guarded_digit_count(
                    radix,
                    x as nat,
                    (length + 1) as nat,
                    ((radix * (limit as nat)) % 0x1_0000_0000_0000_0000) as nat,
                ));
                if inrange {
                    if length >= ds.len() {
                        lemma_pow_increases(radix, ds.len(), length as nat);
                        assert(false);
                    }
                    lemma_pow_increases(radix, (length + 1) as nat, ds.len());
                    lemma_pow_adds(radix as int, length as nat, 1);
                    lemma_pow1(radix as int);
                    lemma_pow_positive(radix as int, length as nat);
                    lemma_mul_is_commutative(limit as int, radix as int);
                    assert(base * limit == pow(radix as int, (length + 1) as nat));
                    vstd::arithmetic::div_mod::lemma_small_mod(
                        (base * limit) as nat,
                        0x1_0000_0000_0000_0000,
                    );
                }
            }
            length = length + 1;
            limit = base.wrapping_mul(limit);
        }
        proof {
            assert(guarded_digit_count(radix, x as nat, length as nat, limit as nat)
                == length as nat);
            if inrange {
                if length < ds.len() {
                    lemma_pow_increases(radix, (length + 1) as nat, ds.len());
                    lemma_pow_adds(radix as int, length as nat, 1);
                    lemma_pow1(radix as int);
                    lemma_pow_positive(radix as int, length as nat);
                    lemma_mul_is_commutative(limit as int, radix as int);
                    assert(base * limit == pow(radix as int, (length + 1) as nat));
                    vstd::arithmetic::div_mod::lemma_small_mod(
                        (base * limit) as nat,
                        0x1_0000_0000_0000_0000,
                    );
                    lemma_mul_inequality(2, radix as int, limit as int);
                    assert(false);
                }
                lemma_digits_fit_count(radix, x as nat);
            }
        }
        count_to_usize(length)
    }

    /// The integer whose digit sequence in this descriptor's radix is `x`'s
    /// digit sequence reversed; trailing zero digits of `x` become leading
    /// zeros of the result and vanish.
    #[verifier::loop_isolation(false)]
    pub fn reverse(&self, x: u64) -> (r: u64)
        requires
            self.digits@.len() >= 2,
            pow(self.digits@.len() as int, digits_of(self.digits@.len() as nat, x as nat).len())
                <= u64::MAX,
        ensures
            r == rev_acc(self.digits@.len() as nat, x as nat, 0),
            x == 0 ==> r == 0,
            x >= 1 ==> r == seq_value(
                self.digits@.len() as nat,
                digits_of(self.digits@.len() as nat, x as nat).reverse(),
            ),
    {
        let ghost radix: nat = self.digits@.len() as nat;
        let ghost x0: nat = x as nat;
        let ghost ds = digits_of(radix, x0);
        proof {
            lemma_digits_basics(radix, x0);
            vstd::arithmetic::power::lemma_pow0(radix as int);
            lemma_div_basics(x0 as int);
        }
        let base: u64 = self.digits.len() as u64;
        let mut cur: u64 = x;
        let mut r: u64 = 0;
        let ghost mut k: nat = 0;
        while cur != 0
            invariant
                base == radix,
                2 <= radix,
                ds == digits_of(radix, x0),
                x0 == x as nat,
                pow(radix as int, ds.len()) <= u64::MAX,
                rev_acc(radix, x0, 0) == rev_acc(radix, cur as nat, r as nat),
                pow(radix as int, k) >= 1,
                cur as nat == x0 / (pow(radix as int, k) as nat),
                r < pow(radix as int, k),
                x0 >= 1 ==> k <= ds.len(),
                x0 == 0 ==> cur == 0,
            decreases cur,
        {
            proof {
                let p = pow(radix as int, k) as nat;
                lemma_pow_positive(radix as int, k);
                // the remaining value is nonzero, so the power eaten so far
                // stays below the full expansion's power
                if p > x0 {
                    lemma_basic_div(x0 as int, p as int);
                    assert(false);
                }
                if k >= ds.len() {
                    lemma_pow_increases(radix, ds.len(), k);
                    assert(false);
                }
                lemma_pow_increases(radix, (k + 1) as nat, ds.len());
                lemma_pow_adds(radix as int, k, 1);
                lemma_pow1(radix as int);
                lemma_mod_division_less_than_divisor(cur as int, radix as int);
                // r * radix + (cur % radix) < pow(radix, k + 1)
                lemma_mul_inequality(r as int, p as int - 1, radix as int);
                lemma_mul_is_distributive_sub(radix as int, p as int, 1);
                lemma_mul_is_commutative(p as int - 1, radix as int);
                lemma_mul_is_commutative(p as int, radix as int);
                // dividing once more eats one more radix power
                lemma_div_denominator(x0 as int, p as int, radix as int);
                lemma_div_decreases(cur as int, radix as int);
            }
            r = r * base + cur % base;
            cur = cur / base;
            proof {
                k = k + 1;
            }
        }
        proof {
            if x0 >= 1 {
                lemma_rev_acc(radix, x0, 0);
                assert(0 * pow(radix as int, ds.len()) == 0);
            }
        }
        r
    }
}

/// Clamp a 64-bit count to the machine word; the counts the contracts speak
/// of always fit.
fn count_to_usize(n: u64) -> (r: usize)
    ensures
        n <= usize::MAX ==> r == n,
        r >= 1 <==> n >= 1,
{
    if n <= usize::MAX as u64 {
        n as usize
    } else {
        usize::MAX
    }
}

/// A power of the smaller base never exceeds the same power of the larger.
pub proof fn lemma_pow_base_le(b1: nat, b2: nat, e: nat)
    requires
        1 <= b1 <= b2,
    ensures
        pow(b1 as int, e) <= pow(b2 as int, e),
    decreases e,
{
    if e > 0 {
        lemma_pow_base_le(b1, b2, (e - 1) as nat);
        let p1 = pow(b1 as int, (e - 1) as nat);
        let p2 = pow(b2 as int, (e - 1) as nat);
        lemma_pow_positive(b1 as int, (e - 1) as nat);
        lemma_pow_positive(b2 as int, (e - 1) as nat);
        lemma_pow_adds(b1 as int, (e - 1) as nat, 1);
        lemma_pow_adds(b2 as int, (e - 1) as nat, 1);
        lemma_pow1(b1 as int);
        lemma_pow1(b2 as int);
        assert(pow(b1 as int, e) == p1 * b1);
        assert(pow(b2 as int, e) == p2 * b2);
        lemma_mul_is_commutative(p1, b1 as int);
        lemma_mul_is_commutative(p2, b2 as int);
        assert(b1 * p1 <= b2 * p2) by (nonlinear_arith)
            requires
                1 <= b1 <= b2,
                0 < p1 <= p2,
        ;
    } else {
        vstd::arithmetic::power::lemma_pow0(b1 as int);
        vstd::arithmetic::power::lemma_pow0(b2 as int);
    }
}

/// The byte length of an unsigned rendering, part by part: sign glyph,
/// prefix bytes, one byte per padding digit, one byte per digit, suffix
/// bytes.
pub proof fn lemma_unsigned_repr_len(
    alphabet: Seq<char>,
    prefix: Seq<char>,
    suffix: Seq<char>,
    min_len: nat,
    sign: SignPolicy,
    x: u64,
)
    requires
        alphabet_wf(alphabet),
    ensures
        ({
            let ds = digits_of(alphabet.len(), x as nat);
            encode_utf8(unsigned_repr(alphabet, prefix, suffix, min_len, sign, x)).len()
                == sign_len_spec(sign) + encode_utf8(prefix).len() + pad_len(min_len, ds.len())
                + ds.len() + encode_utf8(suffix).len()
        }),
        ({
            let ds = digits_of(alphabet.len(), x as nat);
            let s1 = sign_chars(sign);
            let s3 = Seq::new(pad_len(min_len, ds.len()), |i: int| alphabet[0]);
            let s4 = ds.map(|i: int, d: nat| alphabet[d as int]);
            &&& encode_utf8(unsigned_repr(alphabet, prefix, suffix, min_len, sign, x))
                == encode_utf8(s1) + encode_utf8(prefix) + encode_utf8(s3) + encode_utf8(s4)
                + encode_utf8(suffix)
            &&& encode_utf8(s1).len() == sign_len_spec(sign)
            &&& encode_utf8(s3).len() == pad_len(min_len, ds.len())
            &&& encode_utf8(s4).len() == ds.len()
        }),
{
    let ds = digits_of(alphabet.len(), x as nat);
    let s1 = sign_chars(sign);
    let s3 = Seq::new(pad_len(min_len, ds.len()), |i: int| alphabet[0]);
    let s4 = ds.map(|i: int, d: nat| alphabet[d as int]);
    let r = unsigned_repr(alphabet, prefix, suffix, min_len, sign, x);
    assert(r == s1 + prefix + s3 + s4 + suffix);
    lemma_encode_concat(s1 + prefix + s3 + s4, suffix);
    lemma_encode_concat(s1 + prefix + s3, s4);
    lemma_encode_concat(s1 + prefix, s3);
    lemma_encode_concat(s1, prefix);
    lemma_digits_basics(alphabet.len(), x as nat);
    match sign {
        SignPolicy::Plus => {
            assert(s1 =~= seq!['+']);
            assert(is_ascii_chars(s1));
        },
        SignPolicy::Space => {
            assert(s1 =~= seq![' ']);
            assert(is_ascii_chars(s1));
        },
        SignPolicy::Empty => {
            assert(is_ascii_chars(s1));
        },
    }
    assert(is_ascii_chars(s3));
    assert forall|i: int| 0 <= i < s4.len() implies '\0' <= #[trigger] s4[i] <= '\u{7f}' by {
        assert(ds[i] < alphabet.len());
        assert(s4[i] == alphabet[ds[i] as int]);
    }
    assert(is_ascii_chars(s4));
    lemma_encode_ascii_len(s1);
    lemma_encode_ascii_len(s3);
    lemma_encode_ascii_len(s4);
}

impl<'x> Format<u64> for FormattedInt<'x> {
    /// The rendering: sign glyph, prefix, left padding, digits, suffix.
    open spec fn fmt_repr(&self, x: &u64) -> Seq<char> {
        unsigned_repr(
            self.digits@,
            self.prefix@,
            self.suffix@,
            self.min_len as nat,
            self.sign,
            *x,
        )
    }

    /// The alphabet must be a real one, the radix power covering the whole
    /// expansion must fit in 64 bits (the digit-reversal intermediate lives
    /// there), and the rendering's byte length must fit the machine word.
    open spec fn fmt_wf(&self, x: &u64) -> bool {
        unsigned_wf(
            self.digits@,
            self.prefix@,
            self.suffix@,
            self.min_len as nat,
            self.sign,
            *x,
        )
    }

    fn len(&self, x: &u64) -> (n: usize) {
        proof {
            lemma_unsigned_repr_len(
                self.digits@,
                self.prefix@,
                self.suffix@,
                self.min_len as nat,
                self.sign,
                *x,
            );
            lemma_digits_basics(self.digits@.len() as nat, *x as nat);
        }
        let nd = self.num_digits(*x);
        self.with_fanciness(nd)
    }

    #[verifier::loop_isolation(false)]
    #[verifier::rlimit(60)]
    fn write<W: ByteSink>(&self, x: &u64, w: &mut W) -> (r: Result<usize, SinkError>) {
        let ghost radix: nat = self.digits@.len() as nat;
        let ghost ds = digits_of(radix, *x as nat);
        let ghost s_sign = sign_chars(self.sign);
        let ghost s_prefix = self.prefix@;
        let ghost s_pad = Seq::new(
            pad_len(self.min_len as nat, ds.len()),
            |i: int| self.digits@[0],
        );
        let ghost s_digits = ds.map(|i: int, d: nat| self.digits@[d as int]);
        let ghost s_suffix = self.suffix@;
        let ghost whole = self.fmt_repr(x);
        proof {
            lemma_digits_basics(radix, *x as nat);
            lemma_unsigned_repr_len(
                self.digits@,
                self.prefix@,
                self.suffix@,
                self.min_len as nat,
                self.sign,
                *x,
            );
            assert(whole == s_sign + s_prefix + s_pad + s_digits + s_suffix);
        }
        let mut written: usize = 0;

        let n_sign: usize = match self.sign {
            SignPolicy::Plus => {
                match Utf8Write::push(w, '+') {
                    Ok(n) => n,
                    Err(e) => {
                        proof {
                            lemma_encode_singleton('+');
                            assert(s_sign =~= seq!['+']);
                            lemma_wrote_prefix_head(
                                old(w).contents(),
                                encode_utf8(s_sign),
                                encode_utf8(s_prefix) + encode_utf8(s_pad) + encode_utf8(
                                    s_digits,
                                ) + encode_utf8(s_suffix),
                                w.contents(),
                            );
                            assert(encode_utf8(whole) =~= encode_utf8(s_sign) + (encode_utf8(
                                s_prefix,
                            ) + encode_utf8(s_pad) + encode_utf8(s_digits) + encode_utf8(
                                s_suffix,
                            )));
                        }
                        return Err(e);
                    },
                }
            },
            SignPolicy::Space => {
                match Utf8Write::push(w, ' ') {
                    Ok(n) => n,
                    Err(e) => {
                        proof {
                            lemma_encode_singleton(' ');
                            assert(s_sign =~= seq![' ']);
                            lemma_wrote_prefix_head(
                                old(w).contents(),
                                encode_utf8(s_sign),
                                encode_utf8(s_prefix) + encode_utf8(s_pad) + encode_utf8(
                                    s_digits,
                                ) + encode_utf8(s_suffix),
                                w.contents(),
                            );
                            assert(encode_utf8(whole) =~= encode_utf8(s_sign) + (encode_utf8(
                                s_prefix,
                            ) + encode_utf8(s_pad) + encode_utf8(s_digits) + encode_utf8(
                                s_suffix,
                            )));
                        }
                        return Err(e);
                    },
                }
            },
            SignPolicy::Empty => 0,
        };
        proof {
            match self.sign {
                SignPolicy::Plus => {
                    lemma_encode_singleton('+');
                    assert(s_sign =~= seq!['+']);
                },
                SignPolicy::Space => {
                    lemma_encode_singleton(' ');
                    assert(s_sign =~= seq![' ']);
                },
                SignPolicy::Empty => {
                    assert(w.contents() =~= old(w).contents() + encode_utf8(s_sign));
                },
            }
            assert(w.contents() == old(w).contents() + encode_utf8(s_sign));
            assert(n_sign == encode_utf8(s_sign).len());
        }
        written = written + n_sign;

        let n_pre: usize = match Utf8Write::push_str(w, self.prefix) {
            Ok(n) => n,
            Err(e) => {
                proof {
                    lemma_wrote_prefix_extend(
                        old(w).contents(),
                        encode_utf8(s_sign),
                        encode_utf8(s_prefix),
                        encode_utf8(s_pad) + encode_utf8(s_digits) + encode_utf8(s_suffix),
                        w.contents(),
                    );
                    assert(encode_utf8(whole) =~= encode_utf8(s_sign) + encode_utf8(s_prefix)
                        + (encode_utf8(s_pad) + encode_utf8(s_digits) + encode_utf8(s_suffix)));
                }
                return Err(e);
            },
        };
        written = written + n_pre;

        let nd = self.num_digits(*x);
        let m = if nd < self.min_len {
            nd
        } else {
            self.min_len
        };
        let padding = self.min_len - m;
        proof {
            assert(padding == pad_len(self.min_len as nat, ds.len()));
            assert(Seq::new(padding as nat, |i: int| self.digits@[0]) =~= s_pad);
            assert(is_ascii_chars(s_pad));
            lemma_encode_ascii_len(s_pad);
        }
        let n_pad: usize = match self.write_padding(padding, w) {
            Ok(n) => n,
            Err(e) => {
                proof {
                    assert(old(w).contents() + (encode_utf8(s_sign) + encode_utf8(s_prefix))
                        =~= old(w).contents() + encode_utf8(s_sign) + encode_utf8(s_prefix));
                    lemma_wrote_prefix_extend(
                        old(w).contents(),
                        encode_utf8(s_sign) + encode_utf8(s_prefix),
                        encode_utf8(s_pad),
                        encode_utf8(s_digits) + encode_utf8(s_suffix),
                        w.contents(),
                    );
                    assert(encode_utf8(whole) =~= (encode_utf8(s_sign) + encode_utf8(s_prefix))
                        + encode_utf8(s_pad) + (encode_utf8(s_digits) + encode_utf8(s_suffix)));
                }
                return Err(e);
            },
        };
        written = written + n_pad;

        let n_dig: usize = match self.write_digit_run(*x, w) {
            Ok(n) => n,
            Err(e) => {
                proof {
                    assert(old(w).contents() + (encode_utf8(s_sign) + encode_utf8(s_prefix)
                        + encode_utf8(s_pad)) =~= old(w).contents() + encode_utf8(s_sign)
                        + encode_utf8(s_prefix) + encode_utf8(s_pad));
                    lemma_wrote_prefix_extend(
                        old(w).contents(),
                        encode_utf8(s_sign) + encode_utf8(s_prefix) + encode_utf8(s_pad),
                        encode_utf8(s_digits),
                        encode_utf8(s_suffix),
                        w.contents(),
                    );
                    assert(encode_utf8(whole) =~= (encode_utf8(s_sign) + encode_utf8(s_prefix)
                        + encode_utf8(s_pad)) + encode_utf8(s_digits) + encode_utf8(s_suffix));
                }
                return Err(e);
            },
        };
        proof {
            assert(is_ascii_chars(s_digits));
            lemma_encode_ascii_len(s_digits);
        }
        written = written + n_dig;

        let n_suf: usize = match Utf8Write::push_str(w, self.suffix) {
            Ok(n) => n,
            Err(e) => {
                proof {
                    assert(old(w).contents() + (encode_utf8(s_sign) + encode_utf8(s_prefix)
                        + encode_utf8(s_pad) + encode_utf8(s_digits)) =~= old(w).contents()
                        + encode_utf8(s_sign) + encode_utf8(s_prefix) + encode_utf8(s_pad)
                        + encode_utf8(s_digits));
                    lemma_wrote_prefix_extend(
                        old(w).contents(),
                        encode_utf8(s_sign) + encode_utf8(s_prefix) + encode_utf8(s_pad)
                            + encode_utf8(s_digits),
                        encode_utf8(s_suffix),
                        Seq::<u8>::empty(),
                        w.contents(),
                    );
                    assert(encode_utf8(whole) =~= (encode_utf8(s_sign) + encode_utf8(s_prefix)
                        + encode_utf8(s_pad) + encode_utf8(s_digits)) + encode_utf8(s_suffix)
                        + Seq::<u8>::empty());
                }
                return Err(e);
            },
        };
        proof {
            assert(w.contents() =~= old(w).contents() + encode_utf8(whole));
        }
        Ok(written + n_suf)
    }
}

impl<'x> FormattedInt<'x> {
    /// Write `padding` copies of the zero digit, the left padding of a
    /// digit field.
    #[verifier::loop_isolation(false)]
    fn write_padding<W: ByteSink>(&self, padding: usize, w: &mut W) -> (r: Result<
        usize,
        SinkError,
    >)
        requires
            alphabet_wf(self.digits@),
        ensures
            (match r {
                Ok(n) => {
                    &&& final(w).contents() == old(w).contents() + encode_utf8(
                        Seq::new(padding as nat, |i: int| self.digits@[0]),
                    )
                    &&& n == padding
                },
                Err(_) => wrote_prefix(
                    old(w).contents(),
                    final(w).contents(),
                    encode_utf8(Seq::new(padding as nat, |i: int| self.digits@[0])),
                ),
            }),
            old(w).infallible() ==> r is Ok && final(w).infallible(),
    {
        let ghost s_pad = Seq::new(padding as nat, |i: int| self.digits@[0]);
        proof {
            assert(s_pad.take(0) =~= Seq::<char>::empty());
            assert(encode_utf8(s_pad.take(0)) =~= Seq::<u8>::empty());
        }
        let mut written: usize = 0;
        let mut i: usize = 0;
        while i < padding
            invariant
                i <= padding,
                w.contents() == old(w).contents() + encode_utf8(s_pad.take(i as int)),
                written == i,
                old(w).infallible() ==> w.infallible(),
            decreases padding - i,
        {
            proof {
                assert((self.digits@[0] as nat) < 128);
                lemma_encode_singleton(self.digits@[0]);
                assert(encode_scalar(self.digits@[0] as u32).len() == 1);
            }
            let n_pad: usize = match Utf8Write::push(w, self.digits[0]) {
                Ok(n) => n,
                Err(e) => {
                    proof {
                        assert(s_pad =~= s_pad.take(i as int) + seq![self.digits@[0]]
                            + s_pad.skip(i + 1));
                        lemma_encode_concat(
                            s_pad.take(i as int) + seq![self.digits@[0]],
                            s_pad.skip(i + 1),
                        );
                        lemma_encode_concat(s_pad.take(i as int), seq![self.digits@[0]]);
                        lemma_wrote_prefix_extend(
                            old(w).contents(),
                            encode_utf8(s_pad.take(i as int)),
                            encode_utf8(seq![self.digits@[0]]),
                            encode_utf8(s_pad.skip(i + 1)),
                            w.contents(),
                        );
                        assert(encode_utf8(s_pad) =~= encode_utf8(s_pad.take(i as int))
                            + encode_utf8(seq![self.digits@[0]]) + encode_utf8(
                            s_pad.skip(i + 1),
                        ));
                    }
                    return Err(e);
                },
            };
            proof {
                assert(s_pad.take(i + 1) =~= s_pad.take(i as int) + seq![self.digits@[0]]);
                lemma_encode_concat(s_pad.take(i as int), seq![self.digits@[0]]);
            }
            written = written + n_pad;
            i = i + 1;
        }
        proof {
            assert(s_pad.take(padding as int) =~= s_pad);
        }
        Ok(written)
    }

    /// Write the digit sequence of `x`, most significant first, through the
    /// digit-reversal technique: fold the magnitude into the integer whose
    /// digits are reversed, then peel its least-significant digits off one
    /// by one, which emits the original digits in order.
    #[verifier::loop_isolation(false)]
    fn write_digit_run<W: ByteSink>(&self, x: u64, w: &mut W) -> (r: Result<usize, SinkError>)
        requires
            alphabet_wf(self.digits@),
            pow(self.digits@.len() as int, digits_of(self.digits@.len() as nat, x as nat).len())
                <= u64::MAX,
        ensures
            ({
                let s_digits = digits_of(self.digits@.len() as nat, x as nat).map(
                    |i: int, d: nat| self.digits@[d as int],
                );
                match r {
                    Ok(n) => {
                        &&& final(w).contents() == old(w).contents() + encode_utf8(s_digits)
                        &&& n == digits_of(self.digits@.len() as nat, x as nat).len()
                    },
                    Err(_) => wrote_prefix(
                        old(w).contents(),
                        final(w).contents(),
                        encode_utf8(s_digits),
                    ),
                }
            }),
            old(w).infallible() ==> r is Ok && final(w).infallible(),
    {
        let ghost radix: nat = self.digits@.len() as nat;
        let ghost ds = digits_of(radix, x as nat);
        let ghost s_digits = ds.map(|i: int, d: nat| self.digits@[d as int]);
        proof {
            lemma_digits_basics(radix, x as nat);
        }
        let base: u64 = self.digits.len() as u64;
        let mut written: usize = 0;
        let mut rv = self.reverse(x);
        if rv == 0 {
            proof {
                if x >= 1 {
                    lemma_reverse_tail_step(ds, 0);
                    assert(ds.subrange(0, ds.len() as int) =~= ds);
                    assert(seq_value(radix, ds.reverse()) >= ds.reverse().last());
                    assert(false);
                }
                assert(ds =~= seq![0nat]);
                assert(s_digits =~= seq![self.digits@[0]]);
                lemma_encode_singleton(self.digits@[0]);
                assert((self.digits@[0] as nat) < 128);
                assert(encode_scalar(self.digits@[0] as u32).len() == 1);
            }
            let n_dig: usize = match Utf8Write::push(w, self.digits[0]) {
                Ok(n) => n,
                Err(e) => {
                    return Err(e);
                },
            };
            written = written + n_dig;
        } else {
            proof {
                if x == 0 {
                    assert(false);
                }
                assert(ds.subrange(0, ds.len() as int) =~= ds);
                assert(s_digits.take(0) =~= Seq::<char>::empty());
                assert(encode_utf8(s_digits.take(0)) =~= Seq::<u8>::empty());
            }
            let nd2 = self.num_digits(x);
            let mut j: usize = 0;
            while j < nd2
                invariant
                    j <= nd2,
                    nd2 == ds.len(),
                    rv as nat == seq_value(
                        radix,
                        ds.subrange(j as int, ds.len() as int).reverse(),
                    ),
                    w.contents() == old(w).contents() + encode_utf8(s_digits.take(j as int)),
                    written == j,
                    old(w).infallible() ==> w.infallible(),
                decreases nd2 - j,
            {
                let ghost tail_rev = ds.subrange(j as int, ds.len() as int).reverse();
                proof {
                    lemma_reverse_tail_step(ds, j as int);
                    assert forall|q: int| 0 <= q < tail_rev.len() implies #[trigger] tail_rev[q]
                        < radix by {
                        assert(tail_rev[q] == ds.subrange(j as int, ds.len() as int)[ds.len()
                            - j - 1 - q]);
                    }
                    lemma_seq_value_extract(radix, tail_rev);
                    assert(rv as nat % radix == ds[j as int]);
                    assert(ds[j as int] < radix);
                }
                let idx = (rv % base) as usize;
                proof {
                    assert(self.digits@[idx as int] == s_digits[j as int]);
                    lemma_encode_singleton(self.digits@[idx as int]);
                    assert((self.digits@[idx as int] as nat) < 128);
                    assert(encode_scalar(self.digits@[idx as int] as u32).len() == 1);
                }
                let n_dig: usize = match Utf8Write::push(w, self.digits[idx]) {
                    Ok(n) => n,
                    Err(e) => {
                        proof {
                            assert(s_digits =~= s_digits.take(j as int) + seq![
                                s_digits[j as int],
                            ] + s_digits.skip(j + 1));
                            lemma_encode_concat(
                                s_digits.take(j as int) + seq![s_digits[j as int]],
                                s_digits.skip(j + 1),
                            );
                            lemma_encode_concat(
                                s_digits.take(j as int),
                                seq![s_digits[j as int]],
                            );
                            lemma_wrote_prefix_extend(
                                old(w).contents(),
                                encode_utf8(s_digits.take(j as int)),
                                encode_utf8(seq![s_digits[j as int]]),
                                encode_utf8(s_digits.skip(j + 1)),
                                w.contents(),
                            );
                            assert(encode_utf8(s_digits) =~= encode_utf8(
                                s_digits.take(j as int),
                            ) + encode_utf8(seq![s_digits[j as int]]) + encode_utf8(
                                s_digits.skip(j + 1),
                            ));
                        }
                        return Err(e);
                    },
                };
                proof {
                    assert(s_digits.take(j + 1) =~= s_digits.take(j as int) + seq![
                        s_digits[j as int],
                    ]);
                    lemma_encode_concat(s_digits.take(j as int), seq![s_digits[j as int]]);
                }
                written = written + n_dig;
                rv = rv / base;
                j = j + 1;
            }
            proof {
                assert(s_digits.take(nd2 as int) =~= s_digits);
            }
        }
        Ok(written)
    }
}

impl<'x> Format<u32> for FormattedInt<'x> {
    open spec fn fmt_repr(&self, x: &u32) -> Seq<char> {
        unsigned_repr(
            self.digits@,
            self.prefix@,
            self.suffix@,
            self.min_len as nat,
            self.sign,
            *x as u64,
        )
    }

    open spec fn fmt_wf(&self, x: &u32) -> bool {
        unsigned_wf(
            self.digits@,
            self.prefix@,
            self.suffix@,
            self.min_len as nat,
            self.sign,
            *x as u64,
        )
    }

    fn len(&self, x: &u32) -> (n: usize) {
        Format::len(self, &(*x as u64))
    }

    fn write<W: ByteSink>(&self, x: &u32, w: &mut W) -> (r: Result<usize, SinkError>) {
        Format::write(self, &(*x as u64), w)
    }
}

impl<'x> Format<u16> for FormattedInt<'x> {
    open spec fn fmt_repr(&self, x: &u16) -> Seq<char> {
        unsigned_repr(
            self.digits@,
            self.prefix@,
            self.suffix@,
            self.min_len as nat,
            self.sign,
            *x as u64,
        )
    }

    open spec fn fmt_wf(&self, x: &u16) -> bool {
        unsigned_wf(
            self.digits@,
            self.prefix@,
            self.suffix@,
            self.min_len as nat,
            self.sign,
            *x as u64,
        )
    }

    fn len(&self, x: &u16) -> (n: usize) {
        Format::len(self, &(*x as u64))
    }

    fn write<W: ByteSink>(&self, x: &u16, w: &mut W) -> (r: Result<usize, SinkError>) {
        Format::write(self, &(*x as u64), w)
    }
}

impl<'x> Format<u8> for FormattedInt<'x> {
    open spec fn fmt_repr(&self, x: &u8) -> Seq<char> {
        unsigned_repr(
            self.digits@,
            self.prefix@,
            self.suffix@,
            self.min_len as nat,
            self.sign,
            *x as u64,
        )
    }

    open spec fn fmt_wf(&self, x: &u8) -> bool {
        unsigned_wf(
            self.digits@,
            self.prefix@,
            self.suffix@,
            self.min_len as nat,
            self.sign,
            *x as u64,
        )
    }

    fn len(&self, x: &u8) -> (n: usize) {
        Format::len(self, &(*x as u64))
    }

    fn write<W: ByteSink>(&self, x: &u8, w: &mut W) -> (r: Result<usize, SinkError>) {
        Format::write(self, &(*x as u64), w)
    }
}

impl<'x> Format<usize> for FormattedInt<'x> {
    open spec fn fmt_repr(&self, x: &usize) -> Seq<char> {
        unsigned_repr(
            self.digits@,
            self.prefix@,
            self.suffix@,
            self.min_len as nat,
            self.sign,
            *x as u64,
        )
    }

    open spec fn fmt_wf(&self, x: &usize) -> bool {
        unsigned_wf(
            self.digits@,
            self.prefix@,
            self.suffix@,
            self.min_len as nat,
            self.sign,
            *x as u64,
        )
    }

    fn len(&self, x: &usize) -> (n: usize) {
        Format::len(self, &(*x as u64))
    }

    fn write<W: ByteSink>(&self, x: &usize, w: &mut W) -> (r: Result<usize, SinkError>) {
        Format::write(self, &(*x as u64), w)
    }
}

/// Law: a negative value renders the same under every sign policy — the
/// mandatory minus is the only glyph in front, and the Empty policy adds
/// nothing beyond it.
pub proof fn lemma_negative_ignores_sign_policy(
    alphabet: Seq<char>,
    prefix: Seq<char>,
    suffix: Seq<char>,
    min_len: nat,
    sign1: SignPolicy,
    sign2: SignPolicy,
    x: i64,
)
    requires
        x < 0,
    ensures
        signed_repr(alphabet, prefix, suffix, min_len, sign1, x) == signed_repr(
            alphabet,
            prefix,
            suffix,
            min_len,
            sign2,
            x,
        ),
{
}

/// A negative rendering is the minus glyph followed by the magnitude's
/// rendering under the Empty policy.
pub proof fn lemma_signed_parts(
    alphabet: Seq<char>,
    prefix: Seq<char>,
    suffix: Seq<char>,
    min_len: nat,
    sign: SignPolicy,
    x: i64,
)
    requires
        alphabet_wf(alphabet),
        x < 0,
    ensures
        encode_utf8(signed_repr(alphabet, prefix, suffix, min_len, sign, x)) == encode_scalar(
            '-' as u32,
        ) + encode_utf8(
            unsigned_repr(alphabet, prefix, suffix, min_len, SignPolicy::Empty, i64_mag(x)),
        ),
        encode_scalar('-' as u32).len() == 1,
{
    let rest = unsigned_repr(alphabet, prefix, suffix, min_len, SignPolicy::Empty, i64_mag(x));
    lemma_encode_concat(seq!['-'], rest);
    lemma_encode_singleton('-');
    assert(is_ascii_chars(seq!['-']));
    lemma_encode_ascii_len(seq!['-']);
}

impl<'x> Format<i64> for FormattedInt<'x> {
    open spec fn fmt_repr(&self, x: &i64) -> Seq<char> {
        signed_repr(
            self.digits@,
            self.prefix@,
            self.suffix@,
            self.min_len as nat,
            self.sign,
            *x,
        )
    }

    open spec fn fmt_wf(&self, x: &i64) -> bool {
        signed_wf(
            self.digits@,
            self.prefix@,
            self.suffix@,
            self.min_len as nat,
            self.sign,
            *x,
        )
    }

    fn len(&self, x: &i64) -> (n: usize) {
        let mag: u64 = if *x >= 0 {
            *x as u64
        } else {
            (-(*x as i128)) as u64
        };
        proof {
            lemma_unsigned_repr_len(
                self.digits@,
                self.prefix@,
                self.suffix@,
                self.min_len as nat,
                self.sign,
                mag,
            );
            lemma_unsigned_repr_len(
                self.digits@,
                self.prefix@,
                self.suffix@,
                self.min_len as nat,
                SignPolicy::Empty,
                mag,
            );
            if *x < 0 {
                lemma_signed_parts(
                    self.digits@,
                    self.prefix@,
                    self.suffix@,
                    self.min_len as nat,
                    self.sign,
                    *x,
                );
            }
        }
        match self.sign {
            SignPolicy::Empty if *x < 0 => Format::len(self, &mag) + 1,
            _ => Format::len(self, &mag),
        }
    }

    fn write<W: ByteSink>(&self, x: &i64, w: &mut W) -> (r: Result<usize, SinkError>) {
        let mag: u64 = if *x >= 0 {
            *x as u64
        } else {
            (-(*x as i128)) as u64
        };
        proof {
            lemma_unsigned_repr_len(
                self.digits@,
                self.prefix@,
                self.suffix@,
                self.min_len as nat,
                self.sign,
                mag,
            );
            lemma_unsigned_repr_len(
                self.digits@,
                self.prefix@,
                self.suffix@,
                self.min_len as nat,
                SignPolicy::Empty,
                mag,
            );
        }
        if *x < 0 {
            proof {
                lemma_signed_parts(
                    self.digits@,
                    self.prefix@,
                    self.suffix@,
                    self.min_len as nat,
                    self.sign,
                    *x,
                );
            }
            let ghost rest = unsigned_repr(
                self.digits@,
                self.prefix@,
                self.suffix@,
                self.min_len as nat,
                SignPolicy::Empty,
                i64_mag(*x),
            );
            let n_minus: usize = match Utf8Write::push(w, '-') {
                Ok(n) => n,
                Err(e) => {
                    proof {
                        lemma_wrote_prefix_head(
                            old(w).contents(),
                            encode_scalar('-' as u32),
                            encode_utf8(rest),
                            w.contents(),
                        );
                    }
                    return Err(e);
                },
            };
            let derived = FormattedInt { sign: SignPolicy::Empty, ..*self };
            let n_mag: usize = match Format::write(&derived, &mag, w) {
                Ok(n) => n,
                Err(e) => {
                    proof {
                        lemma_wrote_prefix_extend(
                            old(w).contents(),
                            encode_scalar('-' as u32),
                            encode_utf8(rest),
                            Seq::<u8>::empty(),
                            w.contents(),
                        );
                        assert(encode_utf8(self.fmt_repr(x)) =~= encode_scalar('-' as u32)
                            + encode_utf8(rest) + Seq::<u8>::empty());
                    }
                    return Err(e);
                },
            };
            Ok(n_minus + n_mag)
        } else {
            Format::write(self, &mag, w)
        }
    }
}

/// When the radix power for a full expansion fits in 64 bits, the digit
/// count itself is tiny.
pub proof fn lemma_digits_fit_count(radix: nat, x: nat)
    requires
        radix >= 2,
        pow(radix as int, digits_of(radix, x).len()) <= u64::MAX,
    ensures
        digits_of(radix, x).len() <= 63,
{
    let d = digits_of(radix, x).len();
    lemma_pow_base_le(2, radix, d);
    if d > 63 {
        lemma_pow_increases(2, 64, d);
        vstd::arithmetic::power2::lemma_pow2(64);
        vstd::arithmetic::power2::lemma2_to64();
        vstd::arithmetic::power2::lemma2_to64_rest();
        assert(false);
    }
}

/// The ten decimal digit characters.
pub open spec fn dec_alphabet() -> Seq<char> {
    seq!['0', '1', '2', '3', '4', '5', '6', '7', '8', '9']
}

/// The bare decimal rendering of an unsigned value: no prefix, suffix,
/// padding or sign glyph.
pub open spec fn dec_repr(x: u64) -> Seq<char> {
    unsigned_repr(
        dec_alphabet(),
        Seq::<char>::empty(),
        Seq::<char>::empty(),
        0,
        SignPolicy::Empty,
        x,
    )
}

/// The bare decimal rendering of a signed value.
pub open spec fn dec_repr_signed(x: i64) -> Seq<char> {
    signed_repr(
        dec_alphabet(),
        Seq::<char>::empty(),
        Seq::<char>::empty(),
        0,
        SignPolicy::Empty,
        x,
    )
}

/// The decimal powers the contracts lean on; ten to the nineteenth is the
/// last one that fits in 64 bits.
pub proof fn lemma_pow10()
    ensures
        pow(10, 19) == 10_000_000_000_000_000_000,
        pow(10, 10) == 10_000_000_000,
{
    reveal_with_fuel(pow, 20);
}

/// A decimal expansion of at most nineteen digits keeps the reversal
/// intermediate inside 64 bits, so the bare decimal descriptor renders it.
pub proof fn lemma_dec_format(x: u64)
    requires
        digits_of(10, x as nat).len() <= 19,
    ensures
        alphabet_wf(dec_alphabet()),
        unsigned_wf(
            dec_alphabet(),
            Seq::<char>::empty(),
            Seq::<char>::empty(),
            0,
            SignPolicy::Empty,
            x,
        ),
        encode_utf8(dec_repr(x)).len() == digits_of(10, x as nat).len(),
{
    lemma_digits_basics(10, x as nat);
    lemma_pow10();
    lemma_pow_increases(10, digits_of(10, x as nat).len(), 19);
    lemma_unsigned_repr_len(
        dec_alphabet(),
        Seq::<char>::empty(),
        Seq::<char>::empty(),
        0,
        SignPolicy::Empty,
        x,
    );
}

/// Values that fit in 32 bits need at most ten decimal digits.
pub proof fn lemma_dec_len_small(x: u64)
    requires
        x <= u32::MAX,
    ensures
        digits_of(10, x as nat).len() <= 19,
{
    lemma_pow10();
    lemma_digits_len_le(10, x as nat, 10);
}

/// Any signed 64-bit magnitude needs at most nineteen decimal digits.
pub proof fn lemma_dec_len_mag(x: i64)
    ensures
        digits_of(10, i64_mag(x) as nat).len() <= 19,
{
    lemma_pow10();
    lemma_digits_len_le(10, i64_mag(x) as nat, 19);
}

/// Every signed value can be rendered by the bare decimal descriptor.
pub proof fn lemma_dec_format_signed(x: i64)
    ensures
        signed_wf(
            dec_alphabet(),
            Seq::<char>::empty(),
            Seq::<char>::empty(),
            0,
            SignPolicy::Empty,
            x,
        ),
{
    lemma_dec_len_mag(x);
    lemma_dec_format(i64_mag(x));
    if x < 0 {
        lemma_signed_parts(
            dec_alphabet(),
            Seq::<char>::empty(),
            Seq::<char>::empty(),
            0,
            SignPolicy::Empty,
            x,
        );
    }
}

impl Show for u64 {
    open spec fn repr(&self) -> Seq<char> {
        dec_repr(*self)
    }

    /// The digit-reversal intermediate must fit in 64 bits, which holds up
    /// to nineteen decimal digits.
    open spec fn wf(&self) -> bool {
        digits_of(10, *self as nat).len() <= 19
    }

    fn len(&self) -> (n: usize) {
        let digits: [char; 10] = ['0', '1', '2', '3', '4', '5', '6', '7', '8', '9'];
        proof {
            reveal_strlit("");
            assert(digits@ =~= dec_alphabet());
            assert(""@ =~= Seq::<char>::empty());
            lemma_dec_format(*self);
        }
        let f = FormattedInt {
            prefix: "",
            suffix: "",
            digits: digits.as_slice(),
            min_len: 0,
            sign: SignPolicy::Empty,
        };
        Format::len(&f, self)
    }

    fn write<W: ByteSink>(&self, w: &mut W) -> (r: Result<usize, SinkError>) {
        let digits: [char; 10] = ['0', '1', '2', '3', '4', '5', '6', '7', '8', '9'];
        proof {
            reveal_strlit("");
            assert(digits@ =~= dec_alphabet());
            assert(""@ =~= Seq::<char>::empty());
            lemma_dec_format(*self);
        }
        let f = FormattedInt {
            prefix: "",
            suffix: "",
            digits: digits.as_slice(),
            min_len: 0,
            sign: SignPolicy::Empty,
        };
        Format::write(&f, self, w)
    }
}

impl Show for u32 {
    open spec fn repr(&self) -> Seq<char> {
        dec_repr(*self as u64)
    }

    open spec fn wf(&self) -> bool {
        true
    }

    fn len(&self) -> (n: usize) {
        proof {
            lemma_dec_len_small(*self as u64);
        }
        Show::len(&(*self as u64))
    }

    fn write<W: ByteSink>(&self, w: &mut W) -> (r: Result<usize, SinkError>) {
        proof {
            lemma_dec_len_small(*self as u64);
        }
        Show::write(&(*self as u64), w)
    }
}

impl Show for u16 {
    open spec fn repr(&self) -> Seq<char> {
        dec_repr(*self as u64)
    }

    open spec fn wf(&self) -> bool {
        true
    }

    fn len(&self) -> (n: usize) {
        proof {
            lemma_dec_len_small(*self as u64);
        }
        Show::len(&(*self as u64))
    }

    fn write<W: ByteSink>(&self, w: &mut W) -> (r: Result<usize, SinkError>) {
        proof {
            lemma_dec_len_small(*self as u64);
        }
        Show::write(&(*self as u64), w)
    }
}

impl Show for u8 {
    open spec fn repr(&self) -> Seq<char> {
        dec_repr(*self as u64)
    }

    open spec fn wf(&self) -> bool {
        true
    }

    fn len(&self) -> (n: usize) {
        proof {
            lemma_dec_len_small(*self as u64);
        }
        Show::len(&(*self as u64))
    }

    fn write<W: ByteSink>(&self, w: &mut W) -> (r: Result<usize, SinkError>) {
        proof {
            lemma_dec_len_small(*self as u64);
        }
        Show::write(&(*self as u64), w)
    }
}

impl Show for usize {
    open spec fn repr(&self) -> Seq<char> {
        dec_repr(*self as u64)
    }

    /// On a 64-bit machine a word can exceed nineteen decimal digits, so
    /// the same bound as for `u64` applies.
    open spec fn wf(&self) -> bool {
        digits_of(10, *self as nat).len() <= 19
    }

    fn len(&self) -> (n: usize) {
        Show::len(&(*self as u64))
    }

    fn write<W: ByteSink>(&self, w: &mut W) -> (r: Result<usize, SinkError>) {
        Show::write(&(*self as u64), w)
    }
}

impl Show for i64 {
    open spec fn repr(&self) -> Seq<char> {
        dec_repr_signed(*self)
    }

    open spec fn wf(&self) -> bool {
        true
    }

    fn len(&self) -> (n: usize) {
        let digits: [char; 10] = ['0', '1', '2', '3', '4', '5', '6', '7', '8', '9'];
        proof {
            reveal_strlit("");
            assert(digits@ =~= dec_alphabet());
            assert(""@ =~= Seq::<char>::empty());
            lemma_dec_format_signed(*self);
        }
        let f = FormattedInt {
            prefix: "",
            suffix: "",
            digits: digits.as_slice(),
            min_len: 0,
            sign: SignPolicy::Empty,
        };
        Format::len(&f, self)
    }

    fn write<W: ByteSink>(&self, w: &mut W) -> (r: Result<usize, SinkError>) {
        let digits: [char; 10] = ['0', '1', '2', '3', '4', '5', '6', '7', '8', '9'];
        proof {
            reveal_strlit("");
            assert(digits@ =~= dec_alphabet());
            assert(""@ =~= Seq::<char>::empty());
            lemma_dec_format_signed(*self);
        }
        let f = FormattedInt {
            prefix: "",
            suffix: "",
            digits: digits.as_slice(),
            min_len: 0,
            sign: SignPolicy::Empty,
        };
        Format::write(&f, self, w)
    }
}

impl Show for i32 {
    open spec fn repr(&self) -> Seq<char> {
        dec_repr_signed(*self as i64)
    }

    open spec fn wf(&self) -> bool {
        true
    }

    fn len(&self) -> (n: usize) {
        Show::len(&(*self as i64))
    }

    fn write<W: ByteSink>(&self, w: &mut W) -> (r: Result<usize, SinkError>) {
        Show::write(&(*self as i64), w)
    }
}

impl Show for i16 {
    open spec fn repr(&self) -> Seq<char> {
        dec_repr_signed(*self as i64)
    }

    open spec fn wf(&self) -> bool {
        true
    }

    fn len(&self) -> (n: usize) {
        Show::len(&(*self as i64))
    }

    fn write<W: ByteSink>(&self, w: &mut W) -> (r: Result<usize, SinkError>) {
        Show::write(&(*self as i64), w)
    }
}

impl Show for i8 {
    open spec fn repr(&self) -> Seq<char> {
        dec_repr_signed(*self as i64)
    }

    open spec fn wf(&self) -> bool {
        true
    }

    fn len(&self) -> (n: usize) {
        Show::len(&(*self as i64))
    }

    fn write<W: ByteSink>(&self, w: &mut W) -> (r: Result<usize, SinkError>) {
        Show::write(&(*self as i64), w)
    }
}

impl Show for isize {
    open spec fn repr(&self) -> Seq<char> {
        dec_repr_signed(*self as i64)
    }

    open spec fn wf(&self) -> bool {
        true
    }

    fn len(&self) -> (n: usize) {
        Show::len(&(*self as i64))
    }

    fn write<W: ByteSink>(&self, w: &mut W) -> (r: Result<usize, SinkError>) {
        Show::write(&(*self as i64), w)
    }
}

/// The sixteen lowercase hexadecimal digit characters.
pub open spec fn hex_alphabet() -> Seq<char> {
    seq!['0', '1', '2', '3', '4', '5', '6', '7', '8', '9', 'a', 'b', 'c', 'd', 'e', 'f']
}

/// The lowercase hexadecimal digits, as storage for [`hex`].
pub const HEX_DIGITS: [char; 16] = [
    '0',
    '1',
    '2',
    '3',
    '4',
    '5',
    '6',
    '7',
    '8',
    '9',
    'a',
    'b',
    'c',
    'd',
    'e',
    'f',
];

/// The predefined hexadecimal descriptor: lowercase digits, no prefix or
/// suffix, no padding, Empty sign.
pub fn hex() -> (f: FormattedInt<'static>)
    ensures
        f.digits@ == hex_alphabet(),
        f.prefix@ == Seq::<char>::empty(),
        f.suffix@ == Seq::<char>::empty(),
        f.min_len == 0,
        f.sign is Empty,
{
    proof {
        reveal_strlit("");
        assert(HEX_DIGITS@ =~= hex_alphabet());
        assert(""@ =~= Seq::<char>::empty());
    }
    FormattedInt {
        prefix: "",
        suffix: "",
        digits: HEX_DIGITS.as_slice(),
        min_len: 0,
        sign: SignPolicy::Empty,
    }
}

} // verus!

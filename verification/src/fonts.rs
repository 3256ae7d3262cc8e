//! The font field: `Name[=Size];...`.
//!
//! The field is cut at `;` into entries and each entry at `=`. What
//! stands before the first `=` is the font's name, taken as it is, and
//! what stands between the first and the second `=` is its size. An entry
//! without `=` gets the default size. The order of the entries is kept:
//! it is the order in which fonts are tried for a glyph.
//!
//! A size is a number in decimal notation, with or without a fraction and
//! with or without an exponent, whose value is a positive and finite
//! single-precision number. However many digits it has, it is held
//! exactly: as its digits from the first that is not zero, and the place
//! of the point before them. The range is tested on the digits;
//! `law_sizes_are_the_single_precision_numbers` says the same in
//! numbers.

use vstd::prelude::*;
use crate::error::ConfigError;
use crate::error::ErrorView;
use crate::text::all_digits;
use crate::text::chars_of;
use crate::text::decimal_fold;
use crate::text::decimal_value;
use crate::text::find_char;
use crate::text::find_in;
use crate::text::is_digit;
use crate::text::lemma_decimal_fold_concat;
use crate::text::lemma_decimal_fold_grows;
use crate::text::lemma_find_char;
use crate::text::lemma_split_head;
use crate::text::skip_plus;
use crate::text::split;
use crate::text::split_ranges;
use crate::text::unsigned_text;

verus! {

/// A font size: the number `0.digits * 10^point`. The digits are decimal
/// digits and the first of them is not zero, so the number is above
/// zero; it is below the least that single precision takes for
/// infinite, and above the greatest that it takes for zero.
#[derive(Clone, Debug, PartialEq, Eq)]
pub struct FontSize {
    pub digits: String,
    pub point: i32,
}

/// `FontSize` with its digits as a sequence of characters.
pub struct FontSizeView {
    pub digits: Seq<char>,
    pub point: int,
}

impl View for FontSize {
    type V = FontSizeView;

    open spec fn view(&self) -> FontSizeView {
        FontSizeView { digits: self.digits@, point: self.point as int }
    }
}

/// `size` is a size: its digits are decimal digits, the first of them is
/// not zero, and the number `0.digits * 10^point` is a positive and
/// finite single-precision number.
pub open spec fn is_size(size: FontSizeView) -> bool {
    &&& size.digits.len() > 0
    &&& all_digits(size.digits)
    &&& size.digits[0] != '0'
    &&& is_single_size(size.digits, size.point)
}

/// The size of a font that is named without one: 26.
pub open spec fn default_font_size() -> FontSizeView {
    FontSizeView { digits: "26"@, point: 2 }
}

/// The digits of a size text `u` before its point.
pub open spec fn whole_digits(u: Seq<char>) -> Seq<char> {
    u.take(find_char(u, '.'))
}

/// The digits of a size text `u` after its point; none without a point.
pub open spec fn fraction_digits(u: Seq<char>) -> Seq<char> {
    if find_char(u, '.') < u.len() {
        u.skip(find_char(u, '.') + 1)
    } else {
        Seq::empty()
    }
}

/// Where the exponent mark of a size text stands: at the first `e` or
/// `E`, or at the end where there is none.
pub open spec fn exponent_mark(u: Seq<char>) -> int {
    if find_char(u, 'e') <= find_char(u, 'E') {
        find_char(u, 'e')
    } else {
        find_char(u, 'E')
    }
}

/// The exponent that `x` writes: an optional sign, then one or more
/// decimal digits, however many.
pub open spec fn exponent_of(x: Seq<char>) -> Option<int> {
    let negative = x.len() > 0 && x[0] == '-';
    let digits = if negative {
        x.skip(1)
    } else {
        unsigned_text(x)
    };
    if digits.len() > 0 && all_digits(digits) {
        Some(
            if negative {
                -(decimal_value(digits) as int)
            } else {
                decimal_value(digits) as int
            },
        )
    } else {
        None
    }
}

/// How many zeros stand at the start of `d`.
pub open spec fn leading_zeros(d: Seq<char>) -> nat
    decreases d.len(),
{
    if d.len() > 0 && d[0] == '0' {
        1 + leading_zeros(d.drop_first())
    } else {
        0
    }
}

/// The digit of the decimal fraction `0.s` at place `i`: that of `s`, and
/// zero beyond its end.
pub open spec fn fraction_digit(s: Seq<char>, i: int) -> char {
    if 0 <= i < s.len() {
        s[i]
    } else {
        '0'
    }
}

/// The fractions `0.a` and `0.b` have the same digit at every place
/// before `k`.
pub open spec fn agree_before(a: Seq<char>, b: Seq<char>, k: int) -> bool {
    forall|j: int| 0 <= j < k ==> #[trigger] fraction_digit(a, j) == fraction_digit(b, j)
}

/// The decimal fraction `0.a` is less than `0.b`: at the first place
/// where their digits differ, `a` has the lesser digit.
pub open spec fn fraction_lt(a: Seq<char>, b: Seq<char>) -> bool {
    exists|k: int|
        0 <= k && #[trigger] agree_before(a, b, k) && (fraction_digit(a, k) as u32) < (
        fraction_digit(b, k) as u32)
}

/// The digits of 2^128 - 2^103, the number halfway between the greatest
/// single-precision number and the next power of two. It is
/// `0.34028... * 10^39`; a number rounds to a finite single-precision
/// number exactly when it is below it.
pub open spec fn infinite_from() -> Seq<char> {
    "340282356779733661637539395458142568448"@
}

/// The place of the point of `infinite_from`.
pub const INFINITE_POINT: i32 = 39;

/// The digits of 2^-150, the number halfway between zero and the least
/// positive single-precision number. It is `0.70064... * 10^-45`; a
/// number rounds to a positive single-precision number exactly when it
/// is above it.
pub open spec fn zero_up_to() -> Seq<char> {
    "700649232162408535461864791644958065640130970938257885878534141944895541342930300743319094181060791015625"@
}

/// The place of the point of `zero_up_to`.
pub const ZERO_POINT: i32 = -45;

/// The number `0.digits * 10^point`, with a first digit that is not
/// zero, is a positive and finite single-precision number: it lies above
/// 2^-150 and below 2^128 - 2^103. Between the two decades of the bounds
/// the place of the point decides; in the decade of a bound the digits
/// are held against those of the bound.
pub open spec fn is_single_size(digits: Seq<char>, point: int) -> bool {
    &&& digits.len() > 0
    &&& ZERO_POINT <= point <= INFINITE_POINT
    &&& point == INFINITE_POINT ==> fraction_lt(digits, infinite_from())
    &&& point == ZERO_POINT ==> fraction_lt(zero_up_to(), digits)
}

/// The size that `t` writes: an optional plus sign, a number in decimal
/// digits with or without a point, and optionally `e` or `E` with an
/// exponent, for a value that is a positive and finite single-precision
/// number. The size holds the digits from the first that is not zero,
/// and the place of the point before them. Anything else (an empty text,
/// a space, a minus sign, a word such as `inf`, zero, a number that
/// single precision takes for zero or for infinite) writes no size.
pub open spec fn font_size(t: Seq<char>) -> Option<FontSizeView> {
    let u = unsigned_text(t);
    let mark = exponent_mark(u);
    let number = u.take(mark);
    let digits = whole_digits(number) + fraction_digits(number);
    let exponent = if mark < u.len() {
        exponent_of(u.skip(mark + 1))
    } else {
        Some(0int)
    };
    if digits.len() > 0 && all_digits(digits) && exponent is Some {
        let shown = digits.skip(leading_zeros(digits) as int);
        let point = whole_digits(number).len() - leading_zeros(digits) + exponent->0;
        if is_single_size(shown, point) {
            Some(FontSizeView { digits: shown, point })
        } else {
            None
        }
    } else {
        None
    }
}

/// The name and size that one entry writes, or `None` where it has a
/// size text that writes no size.
pub open spec fn font_entry(e: Seq<char>) -> Option<(Seq<char>, FontSizeView)> {
    let parts = split(e, '=');
    if parts.len() == 1 {
        Some((parts[0], default_font_size()))
    } else {
        match font_size(parts[1]) {
            Some(size) => Some((parts[0], size)),
            None => None,
        }
    }
}

/// Every entry of the font field `s` writes a name and a size.
pub open spec fn font_list_valid(s: Seq<char>) -> bool {
    forall|k: int| 0 <= k < split(s, ';').len() ==> (#[trigger] font_entry(split(s, ';')[k])) is Some
}

/// The fonts that `list` holds, as plain values.
pub open spec fn font_views(list: Seq<(String, FontSize)>) -> Seq<(Seq<char>, FontSizeView)> {
    list.map_values(|f: (String, FontSize)| (f.0@, f.1@))
}

/// The fonts that the field `s` writes, one for each entry and in the
/// order of the entries, or `None` where some entry writes none.
pub open spec fn font_list(s: Seq<char>) -> Option<Seq<(Seq<char>, FontSizeView)>> {
    if font_list_valid(s) {
        Some(split(s, ';').map_values(|e: Seq<char>| font_entry(e)->0))
    } else {
        None
    }
}

/// Every font of a font list has a size that is a size.
pub proof fn law_fonts_hold_sizes(s: Seq<char>, k: int)
    requires
        font_list(s) is Some,
        0 <= k < font_list(s)->0.len(),
    ensures
        is_size(font_list(s)->0[k].1),
{
    let e = split(s, ';')[k];
    assert(font_entry(e) is Some);
    let parts = split(e, '=');
    if parts.len() == 1 {
        reveal_strlit("26");
    } else {
        law_sizes_are_the_single_precision_numbers(parts[1]);
    }
}

/// Digits on both sides are digits throughout, and the other way round.
proof fn lemma_all_digits_concat(a: Seq<char>, b: Seq<char>)
    ensures
        all_digits(a + b) <==> all_digits(a) && all_digits(b),
{
    if all_digits(a + b) {
        assert forall|i: int| 0 <= i < a.len() implies crate::text::is_digit(#[trigger] a[i]) by {
            assert((a + b)[i] == a[i]);
        }
        assert forall|i: int| 0 <= i < b.len() implies crate::text::is_digit(#[trigger] b[i]) by {
            assert((a + b)[a.len() + i] == b[i]);
        }
    }
    if all_digits(a) && all_digits(b) {
        assert forall|i: int| 0 <= i < (a + b).len() implies crate::text::is_digit(
            #[trigger] (a + b)[i],
        ) by {
            if i < a.len() {
                assert((a + b)[i] == a[i]);
            } else {
                assert((a + b)[i] == b[i - a.len()]);
            }
        }
    }
}

impl FontSize {
    /// The size of a font that is named without one.
    pub fn default_size() -> (r: FontSize)
        ensures
            r@ == default_font_size(),
            is_size(r@),
    {
        proof {
            reveal_strlit("26");
        }
        FontSize { digits: String::from_str("26"), point: 2 }
    }
}

/// The digits of `infinite_from` write 2^128 - 2^103.
#[verifier::spinoff_prover]
#[verifier::rlimit(100)]
pub proof fn law_infinite_from_is_halfway()
    ensures
        decimal_value(infinite_from()) == 0x1_0000_0000_0000_0000_0000_0000_0000_0000
            - 0x80_0000_0000_0000_0000_0000_0000,
        infinite_from().len() == INFINITE_POINT,
{
    reveal_strlit("340282356779733661637539395458142568448");
    reveal_with_fuel(decimal_fold, 40);
}

/// The first 35 digits of `zero_up_to`.
#[verifier::spinoff_prover]
#[verifier::rlimit(100)]
proof fn lemma_zero_up_to_high()
    ensures
        decimal_fold(0, "70064923216240853546186479164495806"@) == 70064923216240853546186479164495806,
{
    reveal_strlit("70064923216240853546186479164495806");
    reveal_with_fuel(decimal_fold, 36);
}

/// The next 35 digits of `zero_up_to`, after the first 35.
#[verifier::spinoff_prover]
#[verifier::rlimit(100)]
proof fn lemma_zero_up_to_middle()
    ensures
        decimal_fold(70064923216240853546186479164495806nat, "56401309709382578858785341419448955"@) == 7006492321624085354618647916449580656401309709382578858785341419448955,
{
    reveal_strlit("56401309709382578858785341419448955");
    reveal_with_fuel(decimal_fold, 36);
}

/// The last 35 digits of `zero_up_to`, after the first 70.
#[verifier::spinoff_prover]
#[verifier::rlimit(100)]
proof fn lemma_zero_up_to_low()
    ensures
        decimal_fold(7006492321624085354618647916449580656401309709382578858785341419448955nat, "41342930300743319094181060791015625"@) == 700649232162408535461864791644958065640130970938257885878534141944895541342930300743319094181060791015625,
{
    reveal_strlit("41342930300743319094181060791015625");
    reveal_with_fuel(decimal_fold, 36);
}

/// The digits of `zero_up_to` in three parts.
#[verifier::spinoff_prover]
#[verifier::rlimit(100)]
proof fn lemma_zero_up_to_parts()
    ensures
        zero_up_to() == "70064923216240853546186479164495806"@ + "56401309709382578858785341419448955"@ + "41342930300743319094181060791015625"@,
{
    reveal_strlit(
        "700649232162408535461864791644958065640130970938257885878534141944895541342930300743319094181060791015625",
    );
    reveal_strlit("70064923216240853546186479164495806");
    reveal_strlit("56401309709382578858785341419448955");
    reveal_strlit("41342930300743319094181060791015625");
    assert(zero_up_to() =~= "70064923216240853546186479164495806"@ + "56401309709382578858785341419448955"@ + "41342930300743319094181060791015625"@);
}

/// The digits of `zero_up_to`, with the point 45 places before them,
/// write 2^-150: they are 105 digits, and the number that they write is
/// 5^150, which is 10^150 / 2^150.
#[verifier::spinoff_prover]
#[verifier::rlimit(100)]
pub proof fn law_zero_up_to_is_halfway()
    ensures
        decimal_value(zero_up_to()) == 700649232162408535461864791644958065640130970938257885878534141944895541342930300743319094181060791015625,
        decimal_value(zero_up_to()) * 1427247692705959881058285969449495136382746624
            == 1000000000000000000000000000000000000000000000000000000000000000000000000000000000000000000000000000000000000000000000000000000000000000000000000000000,
        zero_up_to().len() - 150 == ZERO_POINT,
{
    let high = "70064923216240853546186479164495806"@;
    let middle = "56401309709382578858785341419448955"@;
    let low = "41342930300743319094181060791015625"@;
    lemma_zero_up_to_parts();
    lemma_zero_up_to_high();
    lemma_zero_up_to_middle();
    lemma_zero_up_to_low();
    lemma_decimal_fold_concat(0, high, middle);
    lemma_decimal_fold_concat(0, high + middle, low);
    reveal_strlit("70064923216240853546186479164495806");
    reveal_strlit("56401309709382578858785341419448955");
    reveal_strlit("41342930300743319094181060791015625");
}

/// The bounds are written in decimal digits.
#[verifier::spinoff_prover]
#[verifier::rlimit(100)]
proof fn lemma_bounds_are_digits()
    ensures
        all_digits(infinite_from()),
        all_digits(zero_up_to()),
{
    assert(all_digits(infinite_from())) by {
        reveal_strlit("340282356779733661637539395458142568448");
    }
    assert(all_digits("70064923216240853546186479164495806"@)) by {
        reveal_strlit("70064923216240853546186479164495806");
    }
    assert(all_digits("56401309709382578858785341419448955"@)) by {
        reveal_strlit("56401309709382578858785341419448955");
    }
    assert(all_digits("41342930300743319094181060791015625"@)) by {
        reveal_strlit("41342930300743319094181060791015625");
    }
    lemma_zero_up_to_parts();
    lemma_all_digits_concat("70064923216240853546186479164495806"@, "56401309709382578858785341419448955"@);
    lemma_all_digits_concat("70064923216240853546186479164495806"@ + "56401309709382578858785341419448955"@, "41342930300743319094181060791015625"@);
}

/// Ten to the power `n`.
pub open spec fn pow10(n: nat) -> nat
    decreases n,
{
    if n == 0 {
        1
    } else {
        10 * pow10((n - 1) as nat)
    }
}

/// The number `n * 10^e` is below the whole number `bound`.
pub open spec fn scaled_below(n: nat, e: int, bound: nat) -> bool {
    if e >= 0 {
        n * pow10(e as nat) < bound
    } else {
        n < bound * pow10((-e) as nat)
    }
}

/// The number `n * 10^e` is above the whole number `bound`.
pub open spec fn scaled_above(n: nat, e: int, bound: nat) -> bool {
    if e >= 0 {
        n * pow10(e as nat) > bound
    } else {
        n > bound * pow10((-e) as nat)
    }
}

/// The number `n * 10^e` is a positive and finite single-precision
/// number: above 2^-150, which is 5^150 / 10^150, and below
/// 2^128 - 2^103.
pub open spec fn is_single_value(n: nat, e: int) -> bool {
    &&& scaled_above(n, e + 150, decimal_value(zero_up_to()))
    &&& scaled_below(n, e, decimal_value(infinite_from()))
}

/// `k` zeros.
pub open spec fn zeros(k: nat) -> Seq<char> {
    Seq::new(k, |i: int| '0')
}

/// Powers of ten multiply by adding their exponents.
proof fn lemma_pow10_add(a: nat, b: nat)
    ensures
        pow10(a + b) == pow10(a) * pow10(b),
    decreases a,
{
    if a > 0 {
        lemma_pow10_add((a - 1) as nat, b);
        assert(pow10(a + b) == 10 * pow10((a - 1 + b) as nat));
        assert(10 * (pow10((a - 1) as nat) * pow10(b)) == (10 * pow10((a - 1) as nat)) * pow10(b))
            by (nonlinear_arith);
    } else {
        assert(pow10(a) == 1);
        assert(1 * pow10(b) == pow10(b));
    }
}

/// Powers of ten are at least one and grow with the exponent.
proof fn lemma_pow10_grows(a: nat, b: nat)
    requires
        a <= b,
    ensures
        1 <= pow10(a) <= pow10(b),
    decreases b,
{
    if b > 0 {
        if a < b {
            lemma_pow10_grows(a, (b - 1) as nat);
        } else {
            lemma_pow10_grows((a - 1) as nat, (b - 1) as nat);
        }
    }
}

/// A text of `k` digits writes a number below `10^k`, and one of at
/// least `10^(k-1)` where its first digit is not zero.
proof fn lemma_value_bounds(s: Seq<char>)
    requires
        all_digits(s),
    ensures
        decimal_value(s) < pow10(s.len()),
        s.len() > 0 && s[0] != '0' ==> decimal_value(s) >= pow10((s.len() - 1) as nat),
    decreases s.len(),
{
    if s.len() > 0 {
        let t = s.drop_last();
        let n = s.len() as int;
        assert(is_digit(s[n - 1]));
        assert forall|j: int| 0 <= j < t.len() implies is_digit(#[trigger] t[j]) by {
            assert(t[j] == s[j]);
        }
        lemma_value_bounds(t);
        assert(pow10(s.len()) == 10 * pow10(t.len()));
        if s[0] != '0' {
            lemma_codes_differ(s[0], '0');
            if n > 1 {
                assert(t[0] == s[0]);
                assert(pow10(t.len()) == 10 * pow10((t.len() - 1) as nat));
            } else {
                assert(pow10(0) == 1);
            }
        }
    } else {
        assert(pow10(0) == 1);
    }
}

/// Zeros after the digits multiply the number by a power of ten.
proof fn lemma_padded_value(s: Seq<char>, k: nat)
    ensures
        decimal_value(s + zeros(k)) == decimal_value(s) * pow10(k),
        (s + zeros(k)).len() == s.len() + k,
        all_digits(s) ==> all_digits(s + zeros(k)),
    decreases k,
{
    let p = s + zeros(k);
    if k == 0 {
        assert(p == s);
        assert(pow10(0) == 1);
        assert(decimal_value(s) * 1 == decimal_value(s));
    } else {
        let q = s + zeros((k - 1) as nat);
        assert(p.drop_last() == q);
        assert(p.last() == '0');
        lemma_padded_value(s, (k - 1) as nat);
        assert(decimal_value(p) == decimal_value(q) * 10 + 0);
        assert((decimal_value(s) * pow10((k - 1) as nat)) * 10 == decimal_value(s) * (10 * pow10(
            (k - 1) as nat,
        ))) by (nonlinear_arith);
    }
    if all_digits(s) {
        assert forall|j: int| 0 <= j < p.len() implies is_digit(#[trigger] p[j]) by {
            if j < s.len() {
                assert(p[j] == s[j]);
            } else {
                assert(p[j] == '0');
            }
        }
    }
}

/// Zeros after the digits of a fraction do not move it.
proof fn lemma_padding_keeps_order(a: Seq<char>, b: Seq<char>, ka: nat, kb: nat)
    ensures
        fraction_lt(a + zeros(ka), b + zeros(kb)) == fraction_lt(a, b),
{
    let a2 = a + zeros(ka);
    let b2 = b + zeros(kb);
    assert forall|i: int| #[trigger] fraction_digit(a2, i) == fraction_digit(a, i) by {
        if 0 <= i < a.len() {
            assert(a2[i] == a[i]);
        } else if 0 <= i < a2.len() {
            assert(a2[i] == '0');
        }
    }
    assert forall|i: int| #[trigger] fraction_digit(b2, i) == fraction_digit(b, i) by {
        if 0 <= i < b.len() {
            assert(b2[i] == b[i]);
        } else if 0 <= i < b2.len() {
            assert(b2[i] == '0');
        }
    }
    if fraction_lt(a, b) {
        let k = choose|k: int|
            0 <= k && #[trigger] agree_before(a, b, k) && (fraction_digit(a, k) as u32) < (
            fraction_digit(b, k) as u32);
        assert forall|j: int| 0 <= j < k implies #[trigger] fraction_digit(a2, j)
            == fraction_digit(b2, j) by {
            assert(fraction_digit(a, j) == fraction_digit(b, j));
            assert(fraction_digit(b2, j) == fraction_digit(b, j));
        }
        assert(agree_before(a2, b2, k));
        assert(fraction_digit(a2, k) == fraction_digit(a, k));
        assert(fraction_digit(b2, k) == fraction_digit(b, k));
    }
    if fraction_lt(a2, b2) {
        let k = choose|k: int|
            0 <= k && #[trigger] agree_before(a2, b2, k) && (fraction_digit(a2, k) as u32) < (
            fraction_digit(b2, k) as u32);
        assert forall|j: int| 0 <= j < k implies #[trigger] fraction_digit(a, j)
            == fraction_digit(b, j) by {
            assert(fraction_digit(a2, j) == fraction_digit(b2, j));
            assert(fraction_digit(a2, j) == fraction_digit(a, j));
            assert(fraction_digit(b2, j) == fraction_digit(b, j));
        }
        assert(agree_before(a, b, k));
        assert(fraction_digit(a2, k) == fraction_digit(a, k));
        assert(fraction_digit(b2, k) == fraction_digit(b, k));
    }
}

/// A number of `m` digits, moved so that no more than `q` of them stand
/// before the point, is below `10^q`.
proof fn lemma_below_by_magnitude(n: nat, m: nat, e: int, q: nat)
    requires
        n < pow10(m),
        m + e <= q,
    ensures
        scaled_below(n, e, pow10(q)),
{
    if e >= 0 {
        let k = e as nat;
        lemma_pow10_add(m, k);
        lemma_pow10_grows(m + k, q);
        lemma_pow10_grows(0, k);
        assert(n * pow10(k) < pow10(m) * pow10(k)) by (nonlinear_arith)
            requires
                n < pow10(m),
                pow10(k) >= 1,
        ;
    } else {
        let k = (-e) as nat;
        lemma_pow10_grows(0, k);
        if m <= k {
            lemma_pow10_grows(m, k);
            lemma_pow10_grows(0, q);
            assert(pow10(q) * pow10(k) >= pow10(k)) by (nonlinear_arith)
                requires
                    pow10(q) >= 1,
            ;
        } else {
            let r = (m - k) as nat;
            lemma_pow10_add(r, k);
            lemma_pow10_grows(r, q);
            assert(pow10(r) * pow10(k) <= pow10(q) * pow10(k)) by (nonlinear_arith)
                requires
                    pow10(r) <= pow10(q),
            ;
        }
    }
}

/// A number of `m` digits with a first digit that is not zero, moved so
/// that more than `q` of them stand before the point, is at least `10^q`.
proof fn lemma_not_below_by_magnitude(n: nat, m: nat, e: int, q: nat)
    requires
        m >= 1,
        n >= pow10((m - 1) as nat),
        q <= m - 1 + e,
    ensures
        !scaled_below(n, e, pow10(q)),
{
    let w = (m - 1) as nat;
    if e >= 0 {
        let k = e as nat;
        lemma_pow10_add(w, k);
        lemma_pow10_grows(q, w + k);
        assert(n * pow10(k) >= pow10(w) * pow10(k)) by (nonlinear_arith)
            requires
                n >= pow10(w),
        ;
    } else {
        let k = (-e) as nat;
        lemma_pow10_add(q, k);
        lemma_pow10_grows(q + k, w);
    }
}

/// Holding `n * 10^e` against a greater or a lesser bound.
proof fn lemma_bound_moves(n: nat, e: int, small: nat, large: nat)
    requires
        small <= large,
    ensures
        scaled_below(n, e, small) ==> scaled_below(n, e, large),
        scaled_below(n, e, small) ==> !scaled_above(n, e, large),
        small < large && !scaled_below(n, e, large) ==> scaled_above(n, e, small),
{
    if e < 0 {
        let k = (-e) as nat;
        lemma_pow10_grows(0, k);
        assert(small * pow10(k) <= large * pow10(k)) by (nonlinear_arith)
            requires
                small <= large,
        ;
        if small < large {
            assert(small * pow10(k) < large * pow10(k)) by (nonlinear_arith)
                requires
                    small < large,
                    pow10(k) >= 1,
            ;
        }
    }
}

/// The decades of the two bounds.
#[verifier::spinoff_prover]
#[verifier::rlimit(100)]
proof fn lemma_bound_decades()
    ensures
        pow10(38) <= decimal_value(infinite_from()) < pow10(39),
        pow10(104) <= decimal_value(zero_up_to()) < pow10(105),
{
    lemma_bounds_are_digits();
    lemma_value_bounds(infinite_from());
    lemma_value_bounds(zero_up_to());
    law_infinite_from_is_halfway();
    law_zero_up_to_is_halfway();
    reveal_strlit("340282356779733661637539395458142568448");
    reveal_strlit(
        "700649232162408535461864791644958065640130970938257885878534141944895541342930300743319094181060791015625",
    );
}

/// What `is_single_size` says in digits, said in numbers: for digits of
/// which the first is not zero, `0.digits * 10^point` passes
/// `is_single_size` exactly when the number that the digits write,
/// times ten to the power of `point` less their count, lies above 2^-150
/// and below 2^128 - 2^103.
pub proof fn law_single_size_is_in_range(digits: Seq<char>, point: int)
    requires
        digits.len() > 0,
        all_digits(digits),
        digits[0] != '0',
    ensures
        is_single_size(digits, point) <==> is_single_value(
            decimal_value(digits),
            point - digits.len(),
        ),
{
    let n = decimal_value(digits);
    let m = digits.len();
    let e = point - m;
    let top = decimal_value(infinite_from());
    let low = decimal_value(zero_up_to());
    lemma_value_bounds(digits);
    lemma_bound_decades();
    lemma_bounds_are_digits();
    law_infinite_from_is_halfway();
    law_zero_up_to_is_halfway();
    if point <= 38 {
        lemma_below_by_magnitude(n, m, e, 38);
        lemma_bound_moves(n, e, pow10(38), top);
    } else if point >= 40 {
        lemma_not_below_by_magnitude(n, m, e, 39);
        lemma_bound_moves(n, e, top, pow10(39));
    } else {
        let width: nat = if m >= 39 {
            m
        } else {
            39
        };
        let a = digits + zeros((width - m) as nat);
        let b = infinite_from() + zeros((width - 39) as nat);
        lemma_padding_keeps_order(digits, infinite_from(), (width - m) as nat, (width - 39) as nat);
        lemma_padded_value(digits, (width - m) as nat);
        lemma_padded_value(infinite_from(), (width - 39) as nat);
        law_fraction_order_is_numeric(a, b);
        assert(pow10(0) == 1);
        assert(n * 1 == n && top * 1 == top);
    }
    if point >= -44 {
        lemma_not_below_by_magnitude(n, m, e + 150, 105);
        lemma_bound_moves(n, e + 150, low, pow10(105));
    } else if point <= -46 {
        lemma_below_by_magnitude(n, m, e + 150, 104);
        lemma_bound_moves(n, e + 150, pow10(104), low);
    } else {
        let width: nat = if m >= 105 {
            m
        } else {
            105
        };
        let a = zero_up_to() + zeros((width - 105) as nat);
        let b = digits + zeros((width - m) as nat);
        lemma_padding_keeps_order(zero_up_to(), digits, (width - 105) as nat, (width - m) as nat);
        lemma_padded_value(zero_up_to(), (width - 105) as nat);
        lemma_padded_value(digits, (width - m) as nat);
        law_fraction_order_is_numeric(a, b);
        assert(pow10(0) == 1);
        assert(n * 1 == n && low * 1 == low);
    }
}

/// The number that a size text writes, as `(n, e)` for `n * 10^e`: the
/// number that all its digits write together, and its exponent less the
/// count of digits after the point. `None` where the text is not an
/// optional plus sign, decimal digits with at most one point among them
/// and at least one digit, and optionally `e` or `E` with an exponent.
pub open spec fn size_number(t: Seq<char>) -> Option<(nat, int)> {
    let u = unsigned_text(t);
    let mark = exponent_mark(u);
    let number = u.take(mark);
    let digits = whole_digits(number) + fraction_digits(number);
    let exponent = if mark < u.len() {
        exponent_of(u.skip(mark + 1))
    } else {
        Some(0int)
    };
    if digits.len() > 0 && all_digits(digits) && exponent is Some {
        Some((decimal_value(digits), exponent->0 - fraction_digits(number).len()))
    } else {
        None
    }
}

/// Zeros before the digits do not change the number, and what follows
/// them starts with another digit.
proof fn lemma_leading_zeros_value(d: Seq<char>)
    requires
        all_digits(d),
    ensures
        leading_zeros(d) <= d.len(),
        all_digits(d.skip(leading_zeros(d) as int)),
        decimal_value(d.skip(leading_zeros(d) as int)) == decimal_value(d),
        leading_zeros(d) < d.len() ==> d[leading_zeros(d) as int] != '0',
    decreases d.len(),
{
    if d.len() > 0 && d[0] == '0' {
        let t = d.drop_first();
        assert forall|j: int| 0 <= j < t.len() implies is_digit(#[trigger] t[j]) by {
            assert(t[j] == d[j + 1]);
        }
        lemma_leading_zeros_value(t);
        assert(d.skip(leading_zeros(d) as int) == t.skip(leading_zeros(t) as int));
        assert(d == seq!['0'] + t);
        lemma_decimal_fold_concat(0, seq!['0'], t);
        assert(decimal_fold(0, seq!['0']) == 0) by {
            assert(seq!['0'].drop_last() == Seq::<char>::empty());
            assert(seq!['0'].last() == '0');
            reveal_with_fuel(decimal_fold, 2);
        }
        if leading_zeros(d) < d.len() {
            assert(d[leading_zeros(d) as int] == t[leading_zeros(t) as int]);
        }
    } else {
        assert(d.skip(0) == d);
    }
}

/// The sizes are the texts that write a positive and finite
/// single-precision number: a text writes a size exactly when it writes
/// a number in decimal notation that lies above 2^-150 and below
/// 2^128 - 2^103, however many digits it has; and the size that it
/// writes is that number.
pub proof fn law_sizes_are_the_single_precision_numbers(t: Seq<char>)
    ensures
        font_size(t) is Some <==> (size_number(t) matches Some((n, e)) && is_single_value(n, e)),
        font_size(t) matches Some(size) ==> {
            &&& size.digits.len() > 0
            &&& all_digits(size.digits)
            &&& size.digits[0] != '0'
            &&& size_number(t) matches Some((n, e)) && decimal_value(size.digits) == n
                && size.point - size.digits.len() == e
        },
{
    let u = unsigned_text(t);
    let mark = exponent_mark(u);
    let number = u.take(mark);
    let digits = whole_digits(number) + fraction_digits(number);
    let exponent = if mark < u.len() {
        exponent_of(u.skip(mark + 1))
    } else {
        Some(0int)
    };
    if digits.len() > 0 && all_digits(digits) && exponent is Some {
        let zeros = leading_zeros(digits);
        let shown = digits.skip(zeros as int);
        let point = whole_digits(number).len() - zeros + exponent->0;
        let n = decimal_value(digits);
        let e = exponent->0 - fraction_digits(number).len();
        lemma_leading_zeros_value(digits);
        assert(point - shown.len() == e);
        if shown.len() > 0 {
            assert(shown[0] == digits[zeros as int]);
            law_single_size_is_in_range(shown, point);
        } else {
            assert(n == 0);
            lemma_bound_decades();
            lemma_pow10_grows(0, 104);
            assert(!scaled_above(0, e + 150, decimal_value(zero_up_to()))) by {
                if e + 150 < 0 {
                    lemma_pow10_grows(0, (-(e + 150)) as nat);
                    assert(decimal_value(zero_up_to()) * pow10((-(e + 150)) as nat) >= 0)
                        by (nonlinear_arith);
                } else {
                    assert(0 * pow10((e + 150) as nat) == 0);
                }
            }
        }
    }
}

/// Different characters have different code points.
proof fn lemma_codes_differ(x: char, y: char)
    ensures
        x != y ==> x as u32 != y as u32,
{
}

/// The order of decimal fractions is the order of numbers: for digit
/// texts of one length, `0.a` is less than `0.b` exactly when the number
/// that `a` writes is less than the number that `b` writes, and the two
/// texts are the same exactly when the numbers are.
pub proof fn law_fraction_order_is_numeric(a: Seq<char>, b: Seq<char>)
    requires
        a.len() == b.len(),
        all_digits(a),
        all_digits(b),
    ensures
        fraction_lt(a, b) <==> decimal_value(a) < decimal_value(b),
        a == b <==> decimal_value(a) == decimal_value(b),
    decreases a.len(),
{
    let n = a.len() as int;
    if n == 0 {
        assert(a == b);
        assert forall|k: int| 0 <= k && #[trigger] agree_before(a, b, k) implies !((
        fraction_digit(a, k) as u32) < (fraction_digit(b, k) as u32)) by {}
    } else {
        let a1 = a.drop_last();
        let b1 = b.drop_last();
        assert(is_digit(a[n - 1]) && is_digit(b[n - 1]));
        assert forall|j: int| 0 <= j < n - 1 implies is_digit(#[trigger] a1[j]) by {
            assert(a1[j] == a[j]);
        }
        assert forall|j: int| 0 <= j < n - 1 implies is_digit(#[trigger] b1[j]) by {
            assert(b1[j] == b[j]);
        }
        law_fraction_order_is_numeric(a1, b1);
        law_fraction_order_is_numeric(b1, a1);
        assert(a == a1.push(a[n - 1]) && b == b1.push(b[n - 1]));
        lemma_codes_differ(a[n - 1], b[n - 1]);
        if a1 == b1 {
            if (a[n - 1] as u32) < (b[n - 1] as u32) {
                assert forall|j: int| 0 <= j < n - 1 implies #[trigger] fraction_digit(a, j)
                    == fraction_digit(b, j) by {
                    assert(a[j] == a1[j] && b[j] == b1[j]);
                }
                assert(agree_before(a, b, n - 1));
            } else {
                assert forall|k: int| 0 <= k && #[trigger] agree_before(a, b, k) implies !((
                fraction_digit(a, k) as u32) < (fraction_digit(b, k) as u32)) by {
                    if k < n - 1 {
                        assert(a[k] == a1[k] && b[k] == b1[k]);
                    }
                }
            }
        } else if decimal_value(a1) < decimal_value(b1) {
            let k = choose|k: int|
                0 <= k && #[trigger] agree_before(a1, b1, k) && (fraction_digit(a1, k) as u32) < (
                fraction_digit(b1, k) as u32);
            assert(k < n - 1);
            assert forall|j: int| 0 <= j < k implies #[trigger] fraction_digit(a, j)
                == fraction_digit(b, j) by {
                assert(fraction_digit(a1, j) == fraction_digit(b1, j));
                assert(a[j] == a1[j] && b[j] == b1[j]);
            }
            assert(agree_before(a, b, k));
            assert(a[k] == a1[k] && b[k] == b1[k]);
        } else {
            let k2 = choose|k: int|
                0 <= k && #[trigger] agree_before(b1, a1, k) && (fraction_digit(b1, k) as u32) < (
                fraction_digit(a1, k) as u32);
            assert(k2 < n - 1);
            assert(a[k2] == a1[k2] && b[k2] == b1[k2]);
            assert forall|k: int| 0 <= k && #[trigger] agree_before(a, b, k) implies !((
            fraction_digit(a, k) as u32) < (fraction_digit(b, k) as u32)) by {
                if k < k2 {
                    assert(fraction_digit(b1, k) == fraction_digit(a1, k));
                    assert(a[k] == a1[k] && b[k] == b1[k]);
                } else if k > k2 {
                    assert(fraction_digit(a, k2) == fraction_digit(b, k2));
                }
            }
        }
    }
}

/// An index that passes over zeros only and stops on another character,
/// or at the end, is the count of leading zeros.
proof fn lemma_leading_zeros_is(d: Seq<char>, z: int)
    requires
        0 <= z <= d.len(),
        forall|j: int| 0 <= j < z ==> d[j] == '0',
        z < d.len() ==> d[z] != '0',
    ensures
        leading_zeros(d) == z,
    decreases d.len(),
{
    if z > 0 {
        let t = d.drop_first();
        assert forall|j: int| 0 <= j < z - 1 implies t[j] == '0' by {
            assert(t[j] == d[j + 1]);
        }
        if z < d.len() {
            assert(t[z - 1] == d[z]);
        }
        lemma_leading_zeros_is(t, z - 1);
    }
}

/// Whether `v[lo..hi]` holds decimal digits only.
fn digits_only(v: &Vec<char>, lo: usize, hi: usize) -> (r: bool)
    requires
        lo <= hi <= v.len(),
    ensures
        r == all_digits(v@.subrange(lo as int, hi as int)),
{
    let ghost s = v@.subrange(lo as int, hi as int);
    let mut i: usize = lo;
    while i < hi
        invariant
            lo <= i <= hi <= v.len(),
            s == v@.subrange(lo as int, hi as int),
            forall|j: int| 0 <= j < i - lo ==> is_digit(#[trigger] s[j]),
        decreases hi - i,
    {
        let d: u32 = v[i] as u32;
        assert(s[i - lo] == v@[i as int]);
        if d < 48 || d > 57 {
            return false;
        }
        i += 1;
    }
    true
}

/// The number that the digits `v[lo..hi]` write where it is at most
/// `cap`, and some number above `cap` where it is more.
fn read_capped(v: &Vec<char>, lo: usize, hi: usize, cap: u128) -> (r: u128)
    requires
        lo <= hi <= v.len(),
        all_digits(v@.subrange(lo as int, hi as int)),
        cap <= 0x1_0000_0000_0000_0000_0000,
    ensures
        decimal_value(v@.subrange(lo as int, hi as int)) <= cap ==> r == decimal_value(
            v@.subrange(lo as int, hi as int),
        ),
        decimal_value(v@.subrange(lo as int, hi as int)) > cap ==> r > cap,
        r <= cap * 10 + 9,
{
    let ghost whole = v@.subrange(lo as int, hi as int);
    let mut acc: u128 = 0;
    let mut i: usize = lo;
    assert(v@.subrange(lo as int, lo as int) == Seq::<char>::empty());
    while i < hi
        invariant
            lo <= i <= hi <= v.len(),
            whole == v@.subrange(lo as int, hi as int),
            all_digits(whole),
            cap <= 0x1_0000_0000_0000_0000_0000,
            acc == decimal_value(v@.subrange(lo as int, i as int)),
            acc <= cap,
        decreases hi - i,
    {
        let ghost before = v@.subrange(lo as int, i as int);
        let ghost after = v@.subrange(lo as int, i + 1);
        proof {
            assert(after.drop_last() == before);
            assert(after.last() == v@[i as int]);
            assert(whole[i - lo] == v@[i as int]);
        }
        let digit: u128 = (v[i] as u32 - 48) as u128;
        let next: u128 = acc * 10 + digit;
        if next > cap {
            proof {
                assert(whole == after + v@.subrange(i + 1, hi as int));
                lemma_decimal_fold_concat(0, after, v@.subrange(i + 1, hi as int));
                lemma_decimal_fold_grows(decimal_fold(0, after), v@.subrange(i + 1, hi as int));
            }
            return next;
        }
        acc = next;
        i += 1;
    }
    assert(v@.subrange(lo as int, hi as int) == whole);
    acc
}

/// Reads `v[lo..hi]` as an exponent. An exponent beyond 2^80 either way
/// comes out as some number beyond 2^80 that way.
fn exponent_in(v: &Vec<char>, lo: usize, hi: usize) -> (r: Option<i128>)
    requires
        lo <= hi <= v.len(),
    ensures
        match exponent_of(v@.subrange(lo as int, hi as int)) {
            Some(e) => r matches Some(x) && (if -0x1_0000_0000_0000_0000_0000 <= e
                <= 0x1_0000_0000_0000_0000_0000 {
                x == e
            } else if e > 0 {
                x > 0x1_0000_0000_0000_0000_0000
            } else {
                x < -0x1_0000_0000_0000_0000_0000
            }),
            None => r is None,
        },
        r matches Some(x) ==> -0x10_0000_0000_0000_0000_0009 <= x <= 0x10_0000_0000_0000_0000_0009,
{
    let ghost x = v@.subrange(lo as int, hi as int);
    let negative = lo < hi && v[lo] == '-';
    proof {
        if lo < hi {
            assert(x[0] == v@[lo as int]);
        }
    }
    let from: usize = if negative {
        assert(x.skip(1) == v@.subrange(lo + 1, hi as int));
        lo + 1
    } else {
        skip_plus(v, lo, hi)
    };
    if from == hi || !digits_only(v, from, hi) {
        return None;
    }
    let size: u128 = read_capped(v, from, hi, 0x1_0000_0000_0000_0000_0000);
    Some(
        if negative {
            -(size as i128)
        } else {
            size as i128
        },
    )
}

/// Appends the characters `v[lo..hi]` to `out`.
fn push_chars(out: &mut Vec<char>, v: &Vec<char>, lo: usize, hi: usize)
    requires
        lo <= hi <= v.len(),
    ensures
        final(out)@ == old(out)@ + v@.subrange(lo as int, hi as int),
{
    let ghost base = out@;
    let mut i: usize = lo;
    assert(base + v@.subrange(lo as int, lo as int) == base);
    while i < hi
        invariant
            lo <= i <= hi <= v.len(),
            out@ == base + v@.subrange(lo as int, i as int),
        decreases hi - i,
    {
        out.push(v[i]);
        assert(out@ == base + v@.subrange(lo as int, i + 1));
        i += 1;
    }
}

/// How many zeros stand at the start of `d`.
fn zeros_at_start(d: &Vec<char>) -> (z: usize)
    ensures
        z == leading_zeros(d@),
        z <= d.len(),
{
    let mut z: usize = 0;
    while z < d.len() && d[z] == '0'
        invariant
            z <= d.len(),
            forall|j: int| 0 <= j < z ==> d@[j] == '0',
        decreases d.len() - z,
    {
        z += 1;
    }
    proof {
        lemma_leading_zeros_is(d@, z as int);
    }
    z
}

/// Whether the decimal fraction `0.a` is less than `0.b`.
fn fraction_less(a: &Vec<char>, b: &Vec<char>) -> (r: bool)
    ensures
        r == fraction_lt(a@, b@),
{
    let mut i: usize = 0;
    while i < a.len() || i < b.len()
        invariant
            agree_before(a@, b@, i as int),
        decreases (if a.len() >= b.len() {
            a.len()
        } else {
            b.len()
        }) - i,
    {
        let x: char = if i < a.len() {
            a[i]
        } else {
            '0'
        };
        let y: char = if i < b.len() {
            b[i]
        } else {
            '0'
        };
        assert(x == fraction_digit(a@, i as int) && y == fraction_digit(b@, i as int));
        if x != y {
            if (x as u32) < (y as u32) {
                return true;
            }
            assert forall|k: int| 0 <= k && #[trigger] agree_before(a@, b@, k) implies !((
            fraction_digit(a@, k) as u32) < (fraction_digit(b@, k) as u32)) by {
                if k > i {
                    assert(fraction_digit(a@, i as int) == fraction_digit(b@, i as int));
                } else if k < i {
                    assert(fraction_digit(a@, k) == fraction_digit(b@, k));
                }
            }
            return false;
        }
        assert forall|j: int| 0 <= j < i + 1 implies #[trigger] fraction_digit(a@, j)
            == fraction_digit(b@, j) by {
            if j < i {
                assert(agree_before(a@, b@, i as int));
            }
        }
        i += 1;
    }
    assert forall|k: int| 0 <= k && #[trigger] agree_before(a@, b@, k) implies !((fraction_digit(
        a@,
        k,
    ) as u32) < (fraction_digit(b@, k) as u32)) by {
        if k < i {
            assert(fraction_digit(a@, k) == fraction_digit(b@, k));
        }
    }
    false
}

/// The text of one decimal digit.
fn digit_text(c: char) -> (r: &'static str)
    requires
        is_digit(c),
    ensures
        r@ == seq![c],
{
    proof {
        reveal_strlit("0");
        reveal_strlit("1");
        reveal_strlit("2");
        reveal_strlit("3");
        reveal_strlit("4");
        reveal_strlit("5");
        reveal_strlit("6");
        reveal_strlit("7");
        reveal_strlit("8");
        reveal_strlit("9");
    }
    let r = if c == '0' {
        "0"
    } else if c == '1' {
        "1"
    } else if c == '2' {
        "2"
    } else if c == '3' {
        "3"
    } else if c == '4' {
        "4"
    } else if c == '5' {
        "5"
    } else if c == '6' {
        "6"
    } else if c == '7' {
        "7"
    } else if c == '8' {
        "8"
    } else {
        "9"
    };
    assert(r@ =~= seq![c]);
    r
}

/// The digits `d[from..]` as a text.
fn digits_text(d: &Vec<char>, from: usize) -> (r: String)
    requires
        from <= d.len(),
        all_digits(d@),
    ensures
        r@ == d@.skip(from as int),
{
    let mut r = String::new();
    let mut i: usize = from;
    assert(d@.subrange(from as int, from as int) == Seq::<char>::empty());
    while i < d.len()
        invariant
            from <= i <= d.len(),
            all_digits(d@),
            r@ == d@.subrange(from as int, i as int),
        decreases d.len() - i,
    {
        r.append(digit_text(d[i]));
        assert(r@ == d@.subrange(from as int, i + 1));
        i += 1;
    }
    assert(d@.subrange(from as int, d.len() as int) == d@.skip(from as int));
    r
}

/// The digits `d[from..]` on their own.
fn digits_from(d: &Vec<char>, from: usize) -> (r: Vec<char>)
    requires
        from <= d.len(),
    ensures
        r@ == d@.skip(from as int),
{
    let mut r: Vec<char> = Vec::new();
    push_chars(&mut r, d, from, d.len());
    assert(d@.subrange(from as int, d.len() as int) == d@.skip(from as int));
    assert(Seq::<char>::empty() + d@.skip(from as int) == d@.skip(from as int));
    r
}

/// Whether `0.digits * 10^point` is a positive and finite
/// single-precision number.
fn single_size(digits: &Vec<char>, point: i128) -> (r: bool)
    ensures
        r == is_single_size(digits@, point as int),
{
    if digits.len() == 0 || point < -45 || point > 39 {
        return false;
    }
    if point == 39 {
        let bound = chars_of("340282356779733661637539395458142568448");
        fraction_less(digits, &bound)
    } else if point == -45 {
        let bound = chars_of(
            "700649232162408535461864791644958065640130970938257885878534141944895541342930300743319094181060791015625",
        );
        fraction_less(&bound, digits)
    } else {
        true
    }
}

/// There are no more leading zeros than characters.
proof fn lemma_leading_zeros_bound(d: Seq<char>)
    ensures
        leading_zeros(d) <= d.len(),
    decreases d.len(),
{
    if d.len() > 0 && d[0] == '0' {
        lemma_leading_zeros_bound(d.drop_first());
    }
}

/// The digits of the number `v[lo..hi]`, which has no sign and no
/// exponent, and how many of them stand before the point. `None` where
/// the number has no digit or holds something else than digits and one
/// point.
fn number_digits(v: &Vec<char>, lo: usize, hi: usize) -> (r: Option<(Vec<char>, usize)>)
    requires
        lo <= hi <= v.len(),
    ensures
        match r {
            Some((digits, whole)) => {
                &&& digits@ == whole_digits(v@.subrange(lo as int, hi as int)) + fraction_digits(
                    v@.subrange(lo as int, hi as int),
                )
                &&& whole == whole_digits(v@.subrange(lo as int, hi as int)).len()
                &&& digits.len() > 0
                &&& all_digits(digits@)
            },
            None => {
                let digits = whole_digits(v@.subrange(lo as int, hi as int)) + fraction_digits(
                    v@.subrange(lo as int, hi as int),
                );
                !(digits.len() > 0 && all_digits(digits))
            },
        },
{
    let ghost number = v@.subrange(lo as int, hi as int);
    let dot: usize = find_in(v, lo, hi, '.');
    let after: usize = if dot < hi {
        dot + 1
    } else {
        hi
    };
    let ghost whole = v@.subrange(lo as int, dot as int);
    let ghost frac = v@.subrange(after as int, hi as int);
    proof {
        lemma_find_char(number, '.');
        assert(whole_digits(number) == whole);
        assert(fraction_digits(number) == frac);
        lemma_all_digits_concat(whole, frac);
    }
    if !digits_only(v, lo, dot) || !digits_only(v, after, hi) {
        return None;
    }
    if (dot - lo) + (hi - after) == 0 {
        return None;
    }
    let mut digits: Vec<char> = Vec::new();
    push_chars(&mut digits, v, lo, dot);
    push_chars(&mut digits, v, after, hi);
    assert(digits@ == whole + frac);
    Some((digits, dot - lo))
}

/// The size with the given digits, of which `whole` stand before the
/// point, times ten to the power `exponent`; `None` where that is no
/// positive and finite single-precision number.
fn sized(digits: &Vec<char>, whole: usize, exponent: i128) -> (r: Option<FontSize>)
    requires
        all_digits(digits@),
        -0x10_0000_0000_0000_0000_0009 <= exponent <= 0x10_0000_0000_0000_0000_0009,
    ensures
        match r {
            Some(size) => {
                &&& size@.digits == digits@.skip(leading_zeros(digits@) as int)
                &&& size@.point == whole - leading_zeros(digits@) + exponent
                &&& is_single_size(size@.digits, size@.point)
            },
            None => !is_single_size(
                digits@.skip(leading_zeros(digits@) as int),
                whole - leading_zeros(digits@) + exponent,
            ),
        },
{
    let zeros: usize = zeros_at_start(digits);
    let point: i128 = whole as i128 - zeros as i128 + exponent;
    let shown = digits_from(digits, zeros);
    if !single_size(&shown, point) {
        return None;
    }
    Some(FontSize { digits: digits_text(digits, zeros), point: point as i32 })
}

/// Reads `v[lo..hi]` as a font size.
pub fn parse_font_size_in(v: &Vec<char>, lo: usize, hi: usize) -> (r: Option<FontSize>)
    requires
        lo <= hi <= v.len(),
    ensures
        match font_size(v@.subrange(lo as int, hi as int)) {
            Some(size) => r matches Some(s) && s@ == size && is_size(size),
            None => r is None,
        },
{
    proof {
        law_sizes_are_the_single_precision_numbers(v@.subrange(lo as int, hi as int));
    }
    let from: usize = skip_plus(v, lo, hi);
    let ghost u = v@.subrange(from as int, hi as int);
    let small: usize = find_in(v, from, hi, 'e');
    let large: usize = find_in(v, from, hi, 'E');
    let mark: usize = if small <= large {
        small
    } else {
        large
    };
    proof {
        lemma_find_char(u, 'e');
        lemma_find_char(u, 'E');
        assert(mark - from == exponent_mark(u));
        assert(u.take(mark - from) == v@.subrange(from as int, mark as int));
        if mark < hi {
            assert(u.skip(mark - from + 1) == v@.subrange(mark + 1, hi as int));
        }
    }
    let (digits, whole) = match number_digits(v, from, mark) {
        Some(number) => number,
        None => {
            return None;
        },
    };
    let exponent: i128 = if mark < hi {
        match exponent_in(v, mark + 1, hi) {
            Some(e) => e,
            None => {
                return None;
            },
        }
    } else {
        0
    };
    proof {
        lemma_leading_zeros_bound(digits@);
    }
    sized(&digits, whole, exponent)
}

/// Reads a font field.
///
/// Gives one font for each entry, in the order of the entries, and
/// `InvalidFont` with the field's text where some entry has a size text
/// that writes no size.
pub fn parse_font_str(s: &str) -> (r: Result<Vec<(String, FontSize)>, ConfigError>)
    ensures
        match font_list(s@) {
            Some(fonts) => r matches Ok(v) && font_views(v@) == fonts,
            None => r matches Err(e) && e@ == ErrorView::InvalidFont(s@),
        },
{
    let v = chars_of(s);
    let ghost entries = split(s@, ';');
    assert(v@.subrange(0, v.len() as int) == s@);
    let ranges = split_ranges(&v, 0, v.len(), ';');
    let mut out: Vec<(String, FontSize)> = Vec::new();
    let mut k: usize = 0;
    while k < ranges.len()
        invariant
            0 <= k <= ranges.len(),
            ranges.len() == entries.len(),
            entries == split(s@, ';'),
            v@ == s@,
            forall|j: int| 0 <= j < ranges.len() ==> (#[trigger] ranges[j]).0 <= ranges[j].1 <= v.len(),
            forall|j: int|
                0 <= j < ranges.len() ==> v@.subrange(ranges[j].0 as int, ranges[j].1 as int)
                    == #[trigger] entries[j],
            out.len() == k,
            forall|j: int|
                0 <= j < k ==> #[trigger] font_entry(entries[j]) == Some((out[j].0@, out[j].1@)),
        decreases ranges.len() - k,
    {
        let range = ranges[k];
        let a: usize = range.0;
        let b: usize = range.1;
        let ghost e = entries[k as int];
        assert(v@.subrange(a as int, b as int) == e);
        let eq: usize = find_in(&v, a, b, '=');
        let name = s.substring_char(a, eq).to_owned();
        proof {
            lemma_split_head(e, '=');
            assert(e.take(eq - a) == v@.subrange(a as int, eq as int));
        }
        let size = if eq == b {
            FontSize::default_size()
        } else {
            let end: usize = find_in(&v, eq + 1, b, '=');
            proof {
                let rest = e.skip(eq - a + 1);
                assert(rest == v@.subrange(eq + 1, b as int));
                lemma_split_head(rest, '=');
                assert(rest.take(end - (eq + 1)) == v@.subrange(eq + 1, end as int));
            }
            match parse_font_size_in(&v, eq + 1, end) {
                Some(size) => size,
                None => {
                    assert(font_entry(e) is None);
                    return Err(ConfigError::InvalidFont(s.to_owned()));
                },
            }
        };
        out.push((name, size));
        k += 1;
    }
    proof {
        let fonts = font_list(s@)->0;
        assert(font_list_valid(s@));
        assert(font_views(out@) =~= fonts);
    }
    Ok(out)
}

} // verus!

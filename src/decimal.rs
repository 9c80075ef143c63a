//! Decimal numbers written out digit by digit, as they stand in colour texts:
//! their grammar, parser, rounding to a number of decimal places, and display
//! form.
use vstd::prelude::*;

use crate::chars::{
    chars_of, find_char, hex_digit_str, index_of_char, is_digit, lemma_index_of_char,
    lemma_index_of_char_bound, upper_hex_char,
};

verus! {

/// A non-empty run of decimal digits.
pub open spec fn all_digits(s: Seq<char>) -> bool {
    s.len() > 0 && forall|i: int| 0 <= i < s.len() ==> is_digit(#[trigger] s[i])
}

/// The values of decimal digit characters.
pub open spec fn digit_values(s: Seq<char>) -> Seq<u8> {
    s.map_values(|c: char| ((c as u32) - ('0' as u32)) as u8)
}

/// The characters of digit values.
pub open spec fn digits_text(d: Seq<u8>) -> Seq<char> {
    d.map_values(|x: u8| upper_hex_char(x as int))
}

/// The text without one leading minus sign.
pub open spec fn unsigned_part(s: Seq<char>) -> Seq<char> {
    if s.len() > 0 && s[0] == '-' {
        s.drop_first()
    } else {
        s
    }
}

/// A decimal number: `[-]digits[.digits]`.
pub open spec fn is_decimal_text(s: Seq<char>) -> bool {
    let u = unsigned_part(s);
    let k = index_of_char(u, '.') as int;
    all_digits(u.take(k)) && (k == u.len() || all_digits(u.skip(k + 1)))
}

/// The text of a decimal number with the given sign, whole digits and fraction
/// digits; the point is written only when there are fraction digits.
pub open spec fn decimal_text(negative: bool, whole: Seq<u8>, fraction: Seq<u8>) -> Seq<char> {
    (if negative {
        seq!['-']
    } else {
        Seq::empty()
    }) + digits_text(whole) + (if fraction.len() > 0 {
        seq!['.'] + digits_text(fraction)
    } else {
        Seq::empty()
    })
}

/// Whether every value is a decimal digit value.
pub open spec fn all_digit_values(d: Seq<u8>) -> bool {
    forall|i: int| 0 <= i < d.len() ==> #[trigger] d[i] < 10
}

proof fn lemma_digits_round_trip(s: Seq<char>)
    requires
        forall|i: int| 0 <= i < s.len() ==> is_digit(#[trigger] s[i]),
    ensures
        digits_text(digit_values(s)) == s,
        all_digit_values(digit_values(s)),
{
    assert forall|i: int| 0 <= i < s.len() implies #[trigger] digits_text(digit_values(s))[i]
        == s[i] by {
        let c = s[i];
        assert(is_digit(c));
        let d = ((c as u32) - ('0' as u32)) as u8;
        assert(upper_hex_char(d as int) == ((d + 48) as u8) as char);
        assert((((d + 48) as u8) as char) as u32 == c as u32);
    }
    assert(digits_text(digit_values(s)) =~= s);
}

/// A decimal number written out digit by digit: a sign, the digits before the
/// point and the digits after it.
#[derive(Clone, Debug, PartialEq, Eq)]
pub struct Decimal {
    /// Written with a leading `-`.
    pub negative: bool,
    /// The digit values before the point, most significant first.
    pub whole: Vec<u8>,
    /// The digit values after the point; empty when no point is written.
    pub fraction: Vec<u8>,
}

impl View for Decimal {
    type V = Seq<char>;

    /// The number's text.
    open spec fn view(&self) -> Seq<char> {
        decimal_text(self.negative, self.whole@, self.fraction@)
    }
}

/// The decimal digits of `v` between `lo` and `hi`, or `None` when that run is
/// empty or holds another character.
fn digits_between(v: &Vec<char>, lo: usize, hi: usize) -> (r: Option<Vec<u8>>)
    requires
        lo <= hi <= v.len(),
    ensures
        r is Some <==> all_digits(v@.subrange(lo as int, hi as int)),
        r matches Some(d) ==> d@ == digit_values(v@.subrange(lo as int, hi as int)),
{
    if lo == hi {
        return None;
    }
    let mut out: Vec<u8> = Vec::new();
    let mut i = lo;
    while i < hi
        invariant
            lo <= i <= hi <= v.len(),
            out@ =~= digit_values(v@.subrange(lo as int, i as int)),
            forall|j: int| lo <= j < i ==> is_digit(#[trigger] v@[j]),
        decreases hi - i,
    {
        let c = v[i];
        if !('0' <= c && c <= '9') {
            assert(!is_digit(v@.subrange(lo as int, hi as int)[i - lo]));
            return None;
        }
        out.push(((c as u32) - ('0' as u32)) as u8);
        i += 1;
    }
    Some(out)
}

impl Decimal {
    /// Every digit is below ten and there is at least one digit before the point.
    pub open spec fn wf(&self) -> bool {
        &&& self.whole.len() > 0
        &&& all_digit_values(self.whole@)
        &&& all_digit_values(self.fraction@)
    }

    /// Reads `[-]digits[.digits]`; `None` for any other text.
    pub fn parse(v: &Vec<char>) -> (r: Option<Decimal>)
        ensures
            r is Some <==> is_decimal_text(v@),
            r matches Some(d) ==> d.wf() && d@ == v@,
    {
        let n = v.len();
        let negative = n > 0 && v[0] == '-';
        let start: usize = if negative {
            1
        } else {
            0
        };
        let ghost u = unsigned_part(v@);
        assert(u =~= v@.skip(start as int));
        let k = find_char(v, start, '.');
        let ghost ku = (k - start) as int;
        assert(u.take(ku) =~= v@.subrange(start as int, k as int));
        let whole = match digits_between(v, start, k) {
            Some(w) => w,
            None => return None,
        };
        proof {
            lemma_digits_round_trip(v@.subrange(start as int, k as int));
        }
        let fraction: Vec<u8> = if k == n {
            Vec::new()
        } else {
            assert(u.skip(ku + 1) =~= v@.subrange(k + 1, n as int));
            match digits_between(v, k + 1, n) {
                Some(f) => {
                    proof {
                        lemma_digits_round_trip(v@.subrange(k + 1, n as int));
                    }
                    f
                },
                None => return None,
            }
        };
        let d = Decimal { negative, whole, fraction };
        proof {
            if k == n {
                assert(v@ =~= v@.subrange(0, start as int) + v@.subrange(start as int, k as int));
            } else {
                assert(v@[k as int] == '.');
                assert(v@ =~= v@.subrange(0, start as int) + v@.subrange(start as int, k as int)
                    + seq!['.'] + v@.subrange(k + 1, n as int));
            }
            if negative {
                assert(v@.subrange(0, 1) =~= seq!['-']);
            } else {
                assert(v@.subrange(0, 0) =~= Seq::<char>::empty());
            }
            assert(d@ =~= v@);
        }
        Some(d)
    }

    /// Reads a decimal number from text.
    pub fn from_text(s: &str) -> (r: Option<Decimal>)
        ensures
            r is Some <==> is_decimal_text(s@),
            r matches Some(d) ==> d.wf() && d@ == s@,
    {
        let v = chars_of(s);
        Decimal::parse(&v)
    }
}

/// The text with its trailing `0` characters removed.
pub open spec fn strip_zeros(t: Seq<char>) -> Seq<char>
    decreases t.len(),
{
    if t.len() > 0 && t.last() == '0' {
        strip_zeros(t.drop_last())
    } else {
        t
    }
}

/// The display form of a number's text: where the text has a point, trailing
/// zeros are removed and then a trailing point; other texts are kept.
pub open spec fn nice_text(t: Seq<char>) -> Seq<char> {
    if index_of_char(t, '.') < t.len() {
        let z = strip_zeros(t);
        if z.len() > 0 && z.last() == '.' {
            z.drop_last()
        } else {
            z
        }
    } else {
        t
    }
}

proof fn lemma_strip_zeros(q: Seq<char>, f: Seq<u8>, j: int)
    requires
        q.len() > 0,
        q.last() != '0',
        0 <= j <= f.len(),
        all_digit_values(f),
        forall|i: int| j <= i < f.len() ==> f[i] == 0,
        j == 0 || f[j - 1] != 0,
    ensures
        strip_zeros(q + digits_text(f)) == q + digits_text(f.take(j)),
    decreases f.len(),
{
    if f.len() == j {
        assert(f.take(j) =~= f);
        if j > 0 {
            assert((q + digits_text(f)).last() == upper_hex_char(f[j - 1] as int));
            assert((((f[j - 1] + 48) as u8) as char) as u32 == f[j - 1] + 48);
        } else {
            assert(q + digits_text(f) =~= q);
        }
    } else {
        let g = f.drop_last();
        assert((q + digits_text(f)).drop_last() =~= q + digits_text(g));
        assert((q + digits_text(f)).last() == upper_hex_char(0));
        assert(upper_hex_char(0) == '0');
        lemma_strip_zeros(q, g, j);
        assert(g.take(j) =~= f.take(j));
    }
}

proof fn lemma_no_point(negative: bool, w: Seq<u8>)
    requires
        all_digit_values(w),
    ensures
        ({
            let p = (if negative {
                seq!['-']
            } else {
                Seq::empty()
            }) + digits_text(w);
            index_of_char(p, '.') == p.len()
        }),
{
    let p = (if negative {
        seq!['-']
    } else {
        Seq::empty()
    }) + digits_text(w);
    assert forall|j: int| 0 <= j < p.len() implies p[j] != '.' by {
        if !(negative && j == 0) {
            let k = if negative {
                j - 1
            } else {
                j
            };
            assert(p[j] == upper_hex_char(w[k] as int));
            assert((((w[k] + 48) as u8) as char) as u32 == w[k] + 48);
        }
    }
    lemma_index_of_char(p, '.', p.len() as int);
}

/// Appends the characters of the first `upto` digit values of `d`.
fn append_digits(r: &mut String, d: &Vec<u8>, upto: usize)
    requires
        upto <= d.len(),
        all_digit_values(d@),
    ensures
        final(r)@ == old(r)@ + digits_text(d@.take(upto as int)),
{
    let mut i: usize = 0;
    while i < upto
        invariant
            upto <= d.len(),
            all_digit_values(d@),
            i <= upto,
            r@ == old(r)@ + digits_text(d@.take(i as int)),
        decreases upto - i,
    {
        r.append(hex_digit_str(d[i]));
        assert(digits_text(d@.take(i + 1)) =~= digits_text(d@.take(i as int)) + seq![
            upper_hex_char(d@[i as int] as int),
        ]);
        i += 1;
    }
}

impl Decimal {
    /// The number's text, such as `-12.50`.
    pub fn to_text(&self) -> (r: String)
        requires
            self.wf(),
        ensures
            r@ == self@,
    {
        let mut r = String::new();
        if self.negative {
            r.append("-");
            proof {
                reveal_strlit("-");
            }
        }
        append_digits(&mut r, &self.whole, self.whole.len());
        assert(self.whole@.take(self.whole.len() as int) =~= self.whole@);
        if self.fraction.len() > 0 {
            r.append(".");
            proof {
                reveal_strlit(".");
            }
            append_digits(&mut r, &self.fraction, self.fraction.len());
            assert(self.fraction@.take(self.fraction.len() as int) =~= self.fraction@);
        }
        assert(r@ =~= self@);
        r
    }

    /// The number's display text: trailing zeros after the point are dropped,
    /// and the point too when no digit is left after it (`99.900` gives `99.9`,
    /// `99.000` gives `99`).
    pub fn to_nice_string(&self) -> (r: String)
        requires
            self.wf(),
        ensures
            r@ == nice_text(self@),
    {
        let mut j = self.fraction.len();
        while j > 0 && self.fraction[j - 1] == 0
            invariant
                j <= self.fraction.len(),
                forall|i: int| j <= i < self.fraction.len() ==> self.fraction@[i] == 0,
            decreases j,
        {
            j -= 1;
        }
        let mut r = String::new();
        if self.negative {
            r.append("-");
            proof {
                reveal_strlit("-");
            }
        }
        append_digits(&mut r, &self.whole, self.whole.len());
        assert(self.whole@.take(self.whole.len() as int) =~= self.whole@);
        let ghost p = r@;
        proof {
            lemma_no_point(self.negative, self.whole@);
        }
        if j > 0 {
            r.append(".");
            proof {
                reveal_strlit(".");
            }
            append_digits(&mut r, &self.fraction, j);
        }
        proof {
            let t = self@;
            if self.fraction.len() == 0 {
                assert(t =~= p);
            } else {
                let q = p + seq!['.'];
                assert(t =~= q + digits_text(self.fraction@));
                assert(t[p.len() as int] == '.');
                assert forall|i: int| 0 <= i < p.len() implies t[i] != '.' by {
                    assert(t[i] == p[i]);
                    if p[i] == '.' {
                        assert(index_of_char(p, '.') < p.len()) by {
                            lemma_index_of_char_bound(p, '.', i);
                        }
                    }
                }
                lemma_index_of_char(t, '.', p.len() as int);
                lemma_strip_zeros(q, self.fraction@, j as int);
                if j == 0 {
                    assert(self.fraction@.take(0) =~= Seq::<u8>::empty());
                    assert((q + digits_text(self.fraction@.take(0))).drop_last() =~= p);
                } else {
                    let z = q + digits_text(self.fraction@.take(j as int));
                    let d = self.fraction@[j - 1];
                    assert(z.last() == upper_hex_char(d as int));
                    assert((((d + 48) as u8) as char) as u32 == d + 48);
                    assert(r@ =~= z);
                }
            }
        }
        r
    }
}

impl Decimal {
    /// A copy of the number.
    pub fn duplicate(&self) -> (r: Decimal)
        ensures
            r@ == self@,
            r.wf() == self.wf(),
            r.negative == self.negative,
            r.whole@ == self.whole@,
            r.fraction@ == self.fraction@,
    {
        let whole = self.whole.clone();
        let fraction = self.fraction.clone();
        assert(whole@ =~= self.whole@);
        assert(fraction@ =~= self.fraction@);
        Decimal { negative: self.negative, whole, fraction }
    }
}

fn all_below_ten(d: &Vec<u8>) -> (r: bool)
    ensures
        r == all_digit_values(d@),
{
    let mut i: usize = 0;
    while i < d.len()
        invariant
            i <= d.len(),
            forall|j: int| 0 <= j < i ==> d@[j] < 10,
        decreases d.len() - i,
    {
        if d[i] >= 10 {
            return false;
        }
        i += 1;
    }
    true
}

impl Decimal {
    /// Whether the number is well formed: at least one whole digit, and every
    /// digit below ten.
    pub fn is_well_formed(&self) -> (r: bool)
        ensures
            r == self.wf(),
    {
        self.whole.len() > 0 && all_below_ten(&self.whole) && all_below_ten(&self.fraction)
    }
}

/// `k` zero digits.
pub open spec fn zero_digits(k: nat) -> Seq<u8> {
    Seq::new(k, |i: int| 0u8)
}

/// `k` nine digits.
pub open spec fn nine_digits(k: nat) -> Seq<u8> {
    Seq::new(k, |i: int| 9u8)
}

/// Ten to the power `n`.
pub open spec fn pow10(n: nat) -> nat
    decreases n,
{
    if n == 0 {
        1
    } else {
        10 * pow10((n - 1) as nat)
    }
}

/// The number that digit values denote, most significant first.
pub open spec fn digits_number(d: Seq<u8>) -> nat
    decreases d.len(),
{
    if d.len() == 0 {
        0
    } else {
        digits_number(d.drop_last()) * 10 + d.last() as nat
    }
}

/// The magnitude of a number whose digits denote `m` with `s` of them after
/// the point, counted in units of the `places`-th decimal place and rounded
/// half away from zero.
pub open spec fn rounded_units(m: nat, s: nat, places: nat) -> nat {
    if s <= places {
        m * pow10((places - s) as nat)
    } else {
        (m + 5 * pow10((s - places - 1) as nat)) / pow10((s - places) as nat)
    }
}

proof fn lemma_pow10_positive(n: nat)
    ensures
        pow10(n) > 0,
    decreases n,
{
    if n > 0 {
        lemma_pow10_positive((n - 1) as nat);
    }
}

proof fn lemma_pow10_add(a: nat, b: nat)
    ensures
        pow10(a) * pow10(b) == pow10(a + b),
    decreases b,
{
    if b == 0 {
        assert(pow10(b) == 1);
        assert(a + b == a);
        assert(pow10(a) * 1 == pow10(a));
    } else {
        let b1 = (b - 1) as nat;
        lemma_pow10_add(a, b1);
        assert(pow10(b) == 10 * pow10(b1));
        assert(((a + b) - 1) as nat == a + b1);
        assert(pow10(a + b) == 10 * pow10(a + b1));
        let x = pow10(a);
        let y = pow10(b1);
        assert(x * (10 * y) == 10 * (x * y)) by (nonlinear_arith);
    }
}

proof fn lemma_digits_concat(a: Seq<u8>, b: Seq<u8>)
    ensures
        digits_number(a + b) == digits_number(a) * pow10(b.len()) + digits_number(b),
    decreases b.len(),
{
    if b.len() == 0 {
        assert(a + b =~= a);
        assert(digits_number(b) == 0);
        assert(pow10(b.len()) == 1);
        assert(digits_number(a) * 1 == digits_number(a));
    } else {
        let c = b.drop_last();
        lemma_digits_concat(a, c);
        assert((a + b).drop_last() =~= a + c);
        assert((a + b).last() == b.last());
        let x = digits_number(a);
        let p = pow10(c.len());
        let y = digits_number(c);
        let l = b.last() as nat;
        assert(digits_number(a + b) == digits_number(a + c) * 10 + l);
        assert(digits_number(a + c) == x * p + y);
        assert(digits_number(b) == y * 10 + l);
        assert(pow10(b.len()) == 10 * p);
        assert((x * p + y) * 10 + l == x * (10 * p) + (y * 10 + l)) by (nonlinear_arith);
    }
}

proof fn lemma_digits_bound(b: Seq<u8>)
    requires
        all_digit_values(b),
    ensures
        digits_number(b) < pow10(b.len()),
    decreases b.len(),
{
    if b.len() > 0 {
        let c = b.drop_last();
        lemma_digits_bound(c);
        assert(b.last() < 10);
        assert(digits_number(c) * 10 + b.last() < 10 * pow10(c.len())) by (nonlinear_arith)
            requires
                digits_number(c) < pow10(c.len()),
                b.last() < 10,
        ;
    }
}

proof fn lemma_digits_zeros(k: nat)
    ensures
        digits_number(zero_digits(k)) == 0,
    decreases k,
{
    if k > 0 {
        assert(zero_digits(k).drop_last() =~= zero_digits((k - 1) as nat));
        lemma_digits_zeros((k - 1) as nat);
    }
}

proof fn lemma_digits_nines(k: nat)
    ensures
        digits_number(nine_digits(k)) + 1 == pow10(k),
    decreases k,
{
    if k > 0 {
        assert(nine_digits(k).drop_last() =~= nine_digits((k - 1) as nat));
        lemma_digits_nines((k - 1) as nat);
    }
}

/// Adds one to the number that the digits denote; a new leading digit is
/// added exactly when all digits were nines.
fn increment(d: &mut Vec<u8>)
    requires
        all_digit_values(old(d)@),
    ensures
        all_digit_values(final(d)@),
        digits_number(final(d)@) == digits_number(old(d)@) + 1,
        final(d)@.len() == old(d)@.len() + if digits_number(old(d)@) + 1 == pow10(old(d)@.len()) {
            1nat
        } else {
            0nat
        },
{
    let ghost d0 = d@;
    let n = d.len();
    let mut j = n;
    while j > 0 && d[j - 1] == 9
        invariant
            j <= n == d.len() == d0.len(),
            all_digit_values(d0),
            d@ =~= d0.take(j as int) + zero_digits((n - j) as nat),
            d0 =~= d0.take(j as int) + nine_digits((n - j) as nat),
        decreases j,
    {
        d.set(j - 1, 0);
        assert(d0.take(j - 1) + seq![9u8] =~= d0.take(j as int));
        j -= 1;
        assert(d0 =~= d0.take(j as int) + nine_digits((n - j) as nat));
    }
    proof {
        let t = d0.take(j as int);
        let k = (n - j) as nat;
        assert(d0 =~= t + nine_digits(k));
    }
    if j > 0 {
        let v = d[j - 1];
        d.set(j - 1, v + 1);
        proof {
            let k = (n - j) as nat;
            let t1 = d0.take(j - 1);
            assert(d0.take(j as int) =~= t1 + seq![v]);
            assert(d@ =~= t1 + seq![(v + 1) as u8] + zero_digits(k));
            lemma_increment_digit(t1, v, k);
        }
    } else {
        d.insert(0, 1);
        proof {
            assert(d@ =~= seq![1u8] + zero_digits(n as nat));
            assert(d0 =~= nine_digits(n as nat));
            lemma_increment_nines(n as nat);
        }
    }
}

/// Adding one to digits that end in `k` nines, after a digit below nine.
proof fn lemma_increment_digit(t1: Seq<u8>, v: u8, k: nat)
    requires
        v < 9,
        all_digit_values(t1),
    ensures
        ({
            let before = t1 + seq![v] + nine_digits(k);
            let after = t1 + seq![(v + 1) as u8] + zero_digits(k);
            &&& all_digit_values(after)
            &&& digits_number(after) == digits_number(before) + 1
            &&& digits_number(before) + 1 != pow10(before.len())
        }),
{
    let before_head = t1 + seq![v];
    let after_head = t1 + seq![(v + 1) as u8];
    let nines = nine_digits(k);
    let zeros = zero_digits(k);
    let p = pow10(k);
    lemma_digits_concat(before_head, nines);
    lemma_digits_concat(after_head, zeros);
    lemma_digits_nines(k);
    lemma_digits_zeros(k);
    assert(before_head.drop_last() =~= t1);
    assert(after_head.drop_last() =~= t1);
    let x = digits_number(before_head);
    assert(digits_number(after_head) == x + 1);
    assert((x + 1) * p == x * p + p) by (nonlinear_arith);
    let after = after_head + zeros;
    assert(all_digit_values(after));
    lemma_digits_bound(after);
}

/// Adding one to `k` nines gives a one followed by `k` zeros.
proof fn lemma_increment_nines(k: nat)
    ensures
        ({
            let after = seq![1u8] + zero_digits(k);
            &&& all_digit_values(after)
            &&& digits_number(after) == digits_number(nine_digits(k)) + 1
            &&& digits_number(nine_digits(k)) + 1 == pow10(k)
        }),
{
    let zeros = zero_digits(k);
    lemma_digits_concat(seq![1u8], zeros);
    lemma_digits_zeros(k);
    lemma_digits_nines(k);
    assert(digits_number(Seq::<u8>::empty()) == 0);
    assert(seq![1u8].drop_last() =~= Seq::<u8>::empty());
    assert(digits_number(seq![1u8]) == 1);
    let p = pow10(k);
    assert(digits_number(seq![1u8] + zeros) == 1 * p + 0);
    assert(1 * p + 0 == p) by (nonlinear_arith);
    assert(all_digit_values(seq![1u8] + zeros)) by {
        assert forall|i: int| 0 <= i < k + 1 implies #[trigger] (seq![1u8] + zeros)[i] < 10 by {
            if i > 0 {
                assert((seq![1u8] + zeros)[i] == zeros[i - 1]);
            }
        }
    }
}


/// The number's digits, whole digits first.
pub open spec fn all_digits_of(d: Decimal) -> Seq<u8> {
    d.whole@ + d.fraction@
}

proof fn lemma_round_up_step(a: nat, first: nat, rest: nat, q: nat)
    requires
        q > 0,
        first < 10,
        rest < q,
    ensures
        (a * (10 * q) + (first * q + rest) + 5 * q) / (10 * q) == if first >= 5 {
            a + 1
        } else {
            a
        },
{
    let x = a * (10 * q) + (first * q + rest) + 5 * q;
    if first >= 5 {
        assert(x == (a + 1) * (10 * q) + ((first - 5) * q + rest)) by (nonlinear_arith)
            requires
                x == a * (10 * q) + (first * q + rest) + 5 * q,
                first >= 5,
        ;
        assert(0 <= (first - 5) * q + rest < 10 * q) by (nonlinear_arith)
            requires
                5 <= first < 10,
                rest < q,
                q > 0,
        ;
        vstd::arithmetic::div_mod::lemma_fundamental_div_mod_converse(
            x as int,
            (10 * q) as int,
            (a + 1) as int,
            ((first - 5) * q + rest) as int,
        );
    } else {
        assert(x == a * (10 * q) + ((first + 5) * q + rest)) by (nonlinear_arith)
            requires
                x == a * (10 * q) + (first * q + rest) + 5 * q,
        ;
        assert(0 <= (first + 5) * q + rest < 10 * q) by (nonlinear_arith)
            requires
                first < 5,
                rest < q,
                q > 0,
        ;
        vstd::arithmetic::div_mod::lemma_fundamental_div_mod_converse(
            x as int,
            (10 * q) as int,
            a as int,
            ((first + 5) * q + rest) as int,
        );
    }
}

/// The whole digits, the first `keep` fraction digits, and `pad` zeros.
fn leading_digits(d: &Decimal, keep: usize, pad: usize) -> (r: Vec<u8>)
    requires
        keep <= d.fraction.len(),
    ensures
        r@ == d.whole@ + d.fraction@.take(keep as int) + zero_digits(pad as nat),
{
    let mut r: Vec<u8> = Vec::new();
    let mut i: usize = 0;
    while i < d.whole.len()
        invariant
            i <= d.whole.len(),
            r@ =~= d.whole@.take(i as int),
        decreases d.whole.len() - i,
    {
        r.push(d.whole[i]);
        i += 1;
    }
    let mut i: usize = 0;
    while i < keep
        invariant
            keep <= d.fraction.len(),
            i <= keep,
            r@ =~= d.whole@ + d.fraction@.take(i as int),
        decreases keep - i,
    {
        r.push(d.fraction[i]);
        i += 1;
    }
    let mut i: usize = 0;
    while i < pad
        invariant
            i <= pad,
            r@ =~= d.whole@ + d.fraction@.take(keep as int) + zero_digits(i as nat),
        decreases pad - i,
    {
        r.push(0);
        i += 1;
    }
    r
}

/// Splits digits into the first `cut` and the rest.
fn split_digits(d: &Vec<u8>, cut: usize) -> (r: (Vec<u8>, Vec<u8>))
    requires
        cut <= d.len(),
    ensures
        r.0@ == d@.take(cut as int),
        r.1@ == d@.skip(cut as int),
{
    let mut head: Vec<u8> = Vec::new();
    let mut tail: Vec<u8> = Vec::new();
    let mut i: usize = 0;
    while i < cut
        invariant
            cut <= d.len(),
            i <= cut,
            head@ =~= d@.take(i as int),
        decreases cut - i,
    {
        head.push(d[i]);
        i += 1;
    }
    while i < d.len()
        invariant
            cut <= i <= d.len(),
            head@ =~= d@.take(cut as int),
            tail@ =~= d@.subrange(cut as int, i as int),
        decreases d.len() - i,
    {
        tail.push(d[i]);
        i += 1;
    }
    (head, tail)
}

/// Rounding needs no digit beyond the last one kept: padding with zeros scales
/// the number, and it stays below the next power of ten.
proof fn lemma_round_padded(all: Seq<u8>, w: nat, s: nat, places: nat)
    requires
        all.len() == w + s,
        s <= places,
        all_digit_values(all),
    ensures
        digits_number(all + zero_digits((places - s) as nat)) == rounded_units(
            digits_number(all),
            s,
            places,
        ),
        rounded_units(digits_number(all), s, places) < pow10(w + places),
{
    let zeros = zero_digits((places - s) as nat);
    lemma_digits_concat(all, zeros);
    lemma_digits_zeros((places - s) as nat);
    lemma_digits_bound(all);
    lemma_pow10_add(w + s, (places - s) as nat);
    lemma_pow10_positive((places - s) as nat);
    let m = digits_number(all);
    let p = pow10((places - s) as nat);
    assert(m * p < pow10(w + s) * p) by (nonlinear_arith)
        requires
            m < pow10(w + s),
            p > 0,
    ;
    assert((w + s + (places - s) as nat) == w + places);
}

/// Rounding away digits: the kept digits, plus one when the first digit
/// dropped is five or more.
proof fn lemma_round_dropped(kept: Seq<u8>, dropped: Seq<u8>)
    requires
        dropped.len() > 0,
        all_digit_values(kept),
        all_digit_values(dropped),
    ensures
        rounded_units(
            digits_number(kept + dropped),
            dropped.len() as nat,
            0,
        ) == digits_number(kept) + if dropped[0] >= 5 {
            1nat
        } else {
            0nat
        },
{
    let k = dropped.len() as nat;
    let q = pow10((k - 1) as nat);
    let rest = dropped.drop_first();
    lemma_digits_concat(kept, dropped);
    lemma_pow10_positive((k - 1) as nat);
    assert(dropped =~= seq![dropped[0]] + rest);
    lemma_digits_concat(seq![dropped[0]], rest);
    assert(digits_number(Seq::<u8>::empty()) == 0);
    assert(seq![dropped[0]].drop_last() =~= Seq::<u8>::empty());
    assert(digits_number(seq![dropped[0]]) == dropped[0] as nat);
    assert(all_digit_values(rest));
    lemma_digits_bound(rest);
    assert(pow10(k) == 10 * q);
    lemma_round_up_step(digits_number(kept), dropped[0] as nat, digits_number(rest), q);
}

impl Decimal {
    /// The number with exactly `places` digits after the point, rounded half
    /// away from zero: the sign is kept and the magnitude is rounded. Digits are
    /// added, as zeros, or dropped; the whole part gains one leading digit only
    /// when rounding carries past its first digit (`99.9996` to three places
    /// gives `100.000`).
    pub fn round_to(&self, places: usize) -> (r: Decimal)
        requires
            self.wf(),
        ensures
            r.wf(),
            r.negative == self.negative,
            r.fraction.len() == places,
            r@ == rounded_text(self@, places as nat),
            digits_number(all_digits_of(r)) == rounded_units(
                digits_number(all_digits_of(*self)),
                self.fraction.len() as nat,
                places as nat,
            ),
            r.whole.len() == self.whole.len() + if digits_number(all_digits_of(r)) >= pow10(
                (self.whole.len() + places) as nat,
            ) {
                1nat
            } else {
                0nat
            },
    {
        let s = self.fraction.len();
        let w = self.whole.len();
        let ghost all = all_digits_of(*self);
        let mut d: Vec<u8>;
        if s <= places {
            d = leading_digits(self, s, places - s);
            proof {
                assert(self.fraction@.take(s as int) =~= self.fraction@);
                lemma_round_padded(all, w as nat, s as nat, places as nat);
            }
        } else {
            d = leading_digits(self, places, 0);
            let ghost kept = d@;
            let ghost dropped = self.fraction@.skip(places as int);
            proof {
                assert(kept =~= self.whole@ + self.fraction@.take(places as int));
                assert(all =~= kept + dropped);
                assert(dropped[0] == self.fraction@[places as int]);
                lemma_round_dropped(kept, dropped);
                lemma_digits_bound(kept);
                assert(rounded_units(digits_number(all), s as nat, places as nat) == rounded_units(
                    digits_number(kept + dropped),
                    dropped.len() as nat,
                    0,
                ));
            }
            if self.fraction[places] >= 5 {
                increment(&mut d);
            }
        }
        let cut = d.len() - places;
        let (whole, fraction) = split_digits(&d, cut);
        assert(whole@ + fraction@ =~= d@);
        let r = Decimal { negative: self.negative, whole, fraction };
        proof {
            lemma_rounded_text(*self, r, places as nat);
        }
        r
    }

    /// The number's display text: rounded to three decimal places, half away
    /// from zero, then with trailing zeros after the point dropped, and the
    /// point too when no digit is left after it (`99.9994` gives `99.999`,
    /// `99.9996` gives `100`, `99.900` gives `99.9`).
    pub fn to_display_string(&self) -> (r: String)
        requires
            self.wf(),
        ensures
            r@ == shown_number(self@),
    {
        self.round_to(3).to_nice_string()
    }
}

/// The sign, whole digit values and fraction digit values of a decimal text.
pub open spec fn decimal_parts(t: Seq<char>) -> (bool, Seq<u8>, Seq<u8>) {
    let u = unsigned_part(t);
    let k = index_of_char(u, '.') as int;
    (
        t.len() > 0 && t[0] == '-',
        digit_values(u.take(k)),
        if k < u.len() {
            digit_values(u.skip(k + 1))
        } else {
            Seq::empty()
        },
    )
}

/// The last `len` decimal digits of `n`, most significant first.
pub open spec fn number_digits(n: nat, len: nat) -> Seq<u8>
    decreases len,
{
    if len == 0 {
        Seq::empty()
    } else {
        number_digits(n / 10, (len - 1) as nat).push((n % 10) as u8)
    }
}

/// The text of a decimal number rounded to `places` decimal places, half away
/// from zero. The whole part keeps its digits and gains a leading one when
/// rounding carries past its first digit.
pub open spec fn rounded_text(t: Seq<char>, places: nat) -> Seq<char> {
    let (negative, w, f) = decimal_parts(t);
    let r = rounded_units(digits_number(w + f), f.len(), places);
    let wl = if r >= pow10(w.len() + places) {
        w.len() + 1
    } else {
        w.len()
    };
    let d = number_digits(r, wl + places);
    decimal_text(negative, d.take(wl as int), d.skip(wl as int))
}

/// How a number is displayed: rounded to three decimal places, then trimmed.
pub open spec fn shown_number(t: Seq<char>) -> Seq<char> {
    nice_text(rounded_text(t, 3))
}

proof fn lemma_digit_values_of_text(x: Seq<u8>)
    requires
        all_digit_values(x),
    ensures
        digit_values(digits_text(x)) == x,
{
    assert forall|i: int| 0 <= i < x.len() implies #[trigger] digit_values(digits_text(x))[i]
        == x[i] by {
        let v = x[i];
        assert((((v + 48) as u8) as char) as u32 == v + 48);
    }
    assert(digit_values(digits_text(x)) =~= x);
}

/// A well-formed decimal's text splits back into its sign and digits.
proof fn lemma_parts_of_text(d: Decimal)
    requires
        d.wf(),
    ensures
        decimal_parts(d@) == (d.negative, d.whole@, d.fraction@),
{
    let w = digits_text(d.whole@);
    let f = digits_text(d.fraction@);
    let s = d@;
    let u = unsigned_part(s);
    assert forall|j: int| 0 <= j < w.len() implies is_digit(#[trigger] w[j]) by {
        let x = d.whole@[j];
        assert((((x + 48) as u8) as char) as u32 == x + 48);
    }
    if d.negative {
        assert(s[0] == '-');
    } else {
        assert(s[0] == w[0]);
    }
    if d.fraction.len() > 0 {
        assert(u =~= w + seq!['.'] + f);
    } else {
        assert(u =~= w);
    }
    assert forall|j: int| 0 <= j < w.len() implies u[j] != '.' by {
        assert(u[j] == w[j]);
    }
    lemma_index_of_char(u, '.', w.len() as int);
    assert(u.take(w.len() as int) =~= w);
    lemma_digit_values_of_text(d.whole@);
    if d.fraction.len() > 0 {
        assert(u.skip(w.len() as int + 1) =~= f);
        lemma_digit_values_of_text(d.fraction@);
    } else {
        assert(d.fraction@ =~= Seq::<u8>::empty());
    }
}

/// Digits are the digits of the number they denote.
proof fn lemma_number_digits_unique(d: Seq<u8>)
    requires
        all_digit_values(d),
    ensures
        number_digits(digits_number(d), d.len()) == d,
    decreases d.len(),
{
    if d.len() > 0 {
        let init = d.drop_last();
        lemma_number_digits_unique(init);
        let x = digits_number(init);
        let l = d.last() as nat;
        assert(l < 10);
        vstd::arithmetic::div_mod::lemma_fundamental_div_mod_converse(
            (x * 10 + l) as int,
            10,
            x as int,
            l as int,
        );
        assert(init.push(d.last()) =~= d);
    }
}

proof fn lemma_rounded_text(d: Decimal, r: Decimal, places: nat)
    requires
        d.wf(),
        r.wf(),
        r.negative == d.negative,
        r.fraction.len() == places,
        digits_number(all_digits_of(r)) == rounded_units(
            digits_number(all_digits_of(d)),
            d.fraction.len() as nat,
            places,
        ),
        r.whole.len() == d.whole.len() + if digits_number(all_digits_of(r)) >= pow10(
            (d.whole.len() + places) as nat,
        ) {
            1nat
        } else {
            0nat
        },
    ensures
        r@ == rounded_text(d@, places),
{
    lemma_parts_of_text(d);
    let all = all_digits_of(r);
    assert(all_digit_values(all));
    lemma_number_digits_unique(all);
    let wl = r.whole.len();
    assert(all.take(wl as int) =~= r.whole@);
    assert(all.skip(wl as int) =~= r.fraction@);
}

} // verus!

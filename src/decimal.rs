//! Signed decimals read from text, kept digit for digit.
use vstd::prelude::*;

verus! {

/// True of the ASCII digits `0` to `9`.
pub open spec fn is_digit(c: char) -> bool {
    '0' <= c && c <= '9'
}

/// The value of an ASCII digit.
pub open spec fn digit_value(c: char) -> u8 {
    (c as u32 - '0' as u32) as u8
}

/// The character that writes the digit `d`.
pub open spec fn digit_char(d: u8) -> char {
    (d + 48) as char
}

/// Length of the leading sign of `s`, if it has one.
pub open spec fn sign_len(s: Seq<char>) -> int {
    if s.len() > 0 && (s[0] == '-' || s[0] == '+') {
        1
    } else {
        0
    }
}

/// `s` without its leading sign.
pub open spec fn unsigned_part(s: Seq<char>) -> Seq<char> {
    s.subrange(sign_len(s), s.len() as int)
}

/// Decimal text: an optional `+` or `-`, then digits with at most one `.`
/// among them, and at least one digit.
pub open spec fn is_decimal_text(s: Seq<char>) -> bool {
    let b = unsigned_part(s);
    &&& forall|i: int| 0 <= i < b.len() ==> is_digit(#[trigger] b[i]) || b[i] == '.'
    &&& forall|i: int, j: int|
        0 <= i < b.len() && 0 <= j < b.len() && #[trigger] b[i] == '.' && #[trigger] b[j] == '.'
            ==> i == j
    &&& exists|i: int| 0 <= i < b.len() && is_digit(#[trigger] b[i])
}

/// The digits of `b`, in order, with everything else left out.
pub open spec fn digits_of(b: Seq<char>) -> Seq<u8>
    decreases b.len(),
{
    if b.len() == 0 {
        Seq::empty()
    } else if is_digit(b.last()) {
        digits_of(b.drop_last()).push(digit_value(b.last()))
    } else {
        digits_of(b.drop_last())
    }
}

/// The number of characters after the first `.` of `b`, or 0 when it has none.
pub open spec fn fraction_len(b: Seq<char>) -> nat
    decreases b.len(),
{
    if b.len() == 0 {
        0
    } else if b[0] == '.' {
        (b.len() - 1) as nat
    } else {
        fraction_len(b.drop_first())
    }
}

/// A decimal as sign, digits and scale: its value is
/// `(-1 if negative) * (the integer the digits write) / 10^scale`.
pub struct DecimalView {
    pub negative: bool,
    pub digits: Seq<u8>,
    pub scale: nat,
}

/// The integer that a sequence of digits writes.
pub open spec fn magnitude(digits: Seq<u8>) -> nat
    decreases digits.len(),
{
    if digits.len() == 0 {
        0
    } else {
        magnitude(digits.drop_last()) * 10 + digits.last() as nat
    }
}

impl DecimalView {
    /// The value times `10^scale`.
    pub open spec fn numerator(self) -> int {
        if self.negative {
            -(magnitude(self.digits) as int)
        } else {
            magnitude(self.digits) as int
        }
    }

    /// Digits below ten and no more fraction digits than digits.
    pub open spec fn wf(self) -> bool {
        &&& self.digits.len() > 0
        &&& self.scale <= self.digits.len()
        &&& forall|i: int| 0 <= i < self.digits.len() ==> #[trigger] self.digits[i] < 10
    }
}

/// The decimal that the decimal text `s` writes.
pub open spec fn decimal_of(s: Seq<char>) -> DecimalView {
    DecimalView {
        negative: s.len() > 0 && s[0] == '-',
        digits: digits_of(unsigned_part(s)),
        scale: fraction_len(unsigned_part(s)),
    }
}

/// The text that writes `d`: `-` when negative, the whole digits, then,
/// when there are fraction digits, `.` and those digits.
pub open spec fn text_of(d: DecimalView) -> Seq<char> {
    let whole = (d.digits.len() - d.scale) as int;
    let sign = if d.negative {
        seq!['-']
    } else {
        Seq::empty()
    };
    let fraction = if d.scale > 0 {
        seq!['.'] + chars_of(d.digits.skip(whole))
    } else {
        Seq::empty()
    };
    sign + chars_of(d.digits.take(whole)) + fraction
}

/// Relies on `String::push`: appends one character at the end.
#[verifier::external_body]
fn push_char(s: &mut String, c: char)
    ensures
        final(s)@ == old(s)@.push(c),
{
    s.push(c)
}

/// A signed decimal number, with every digit that its text held.
#[derive(Clone, Debug, PartialEq, Eq)]
pub struct Decimal {
    pub negative: bool,
    pub digits: Vec<u8>,
    pub scale: usize,
}

impl View for Decimal {
    type V = DecimalView;

    open spec fn view(&self) -> DecimalView {
        DecimalView { negative: self.negative, digits: self.digits@, scale: self.scale as nat }
    }
}

proof fn lemma_digits_of_len(b: Seq<char>)
    ensures
        digits_of(b).len() <= b.len(),
    decreases b.len(),
{
    if b.len() > 0 {
        lemma_digits_of_len(b.drop_last());
    }
}

impl Decimal {
    /// Reads decimal text; `None` when `s` is not decimal text.
    pub fn parse(s: &str) -> (r: Option<Decimal>)
        ensures
            r is Some <==> is_decimal_text(s@),
            r matches Some(d) ==> d@ == decimal_of(s@) && d@.wf(),
    {
        let n = s.unicode_len();
        let ghost sq = s@;
        let mut start: usize = 0;
        let mut negative = false;
        if n > 0 {
            let c0 = s.get_char(0);
            if c0 == '-' || c0 == '+' {
                start = 1;
                negative = c0 == '-';
            }
        }
        let ghost b = unsigned_part(sq);
        assert(start == sign_len(sq));
        assert(b.skip(0) =~= b);
        assert(b.take(0) =~= Seq::<char>::empty());
        let mut digits: Vec<u8> = Vec::new();
        let mut dot: Option<usize> = None;
        let mut i: usize = start;
        while i < n
            invariant
                n == sq.len(),
                s@ == sq,
                start == sign_len(sq),
                b == unsigned_part(sq),
                start <= i <= n,
                digits@ == digits_of(b.take(i - start)),
                forall|k: int| 0 <= k < i - start ==> is_digit(#[trigger] b[k]) || b[k] == '.',
                dot matches Some(d) ==> start <= d < i && b[d - start] == '.' && forall|k: int|
                    0 <= k < i - start && #[trigger] b[k] == '.' ==> k == d - start,
                dot is None ==> forall|k: int| 0 <= k < i - start ==> #[trigger] b[k] != '.',
                dot is None ==> fraction_len(b) == fraction_len(b.skip(i - start)),
                dot matches Some(d) ==> fraction_len(b) == b.len() - (d - start) - 1,
                digits.len() <= i,
                dot matches Some(d) ==> digits.len() + d + 1 >= i,
                forall|k: int| 0 <= k < digits.len() ==> #[trigger] digits@[k] < 10,
            decreases n - i,
        {
            let c = s.get_char(i);
            let ghost j = i - start;
            assert(b[j] == c);
            assert(b.take(j + 1).drop_last() =~= b.take(j));
            if '0' <= c && c <= '9' {
                let d = (c as u32 - '0' as u32) as u8;
                digits.push(d);
            } else if c == '.' {
                if dot.is_some() {
                    assert(!is_decimal_text(sq));
                    return None;
                }
                assert(b.skip(j).drop_first() =~= b.skip(j + 1));
                dot = Some(i);
            } else {
                assert(!is_decimal_text(sq));
                return None;
            }
            proof {
                if dot is None {
                    assert(b.skip(j).drop_first() =~= b.skip(j + 1));
                }
            }
            i = i + 1;
        }
        assert(b.take(n - start) =~= b);
        if digits.len() == 0 {
            proof {
                lemma_no_digits(b);
            }
            return None;
        }
        let scale: usize = match dot {
            Some(d) => n - d - 1,
            None => 0,
        };
        proof {
            if dot is None {
                assert(b.skip(n - start).len() == 0);
            }
            lemma_some_digit(b);
        }
        Some(Decimal { negative, digits, scale })
    }
}

impl Decimal {
    /// Writes the decimal as text, digit for digit.
    pub fn to_text(&self) -> (r: String)
        requires
            self@.wf(),
        ensures
            r@ == text_of(self@),
    {
        let mut r = String::new();
        if self.negative {
            push_char(&mut r, '-');
        }
        let ghost sign = r@;
        let whole = self.digits.len() - self.scale;
        let mut i: usize = 0;
        while i < self.digits.len()
            invariant
                self@.wf(),
                whole == self.digits.len() - self.scale,
                sign == (if self.negative { seq!['-'] } else { Seq::<char>::empty() }),
                0 <= i <= self.digits.len(),
                i <= whole ==> r@ == sign + self.digits@.take(i as int).map_values(
                    |x: u8| digit_char(x),
                ),
                i > whole ==> r@ == sign + self.digits@.take(whole as int).map_values(
                    |x: u8| digit_char(x),
                ) + seq!['.'] + self.digits@.subrange(whole as int, i as int).map_values(
                    |x: u8| digit_char(x),
                ),
            decreases self.digits.len() - i,
        {
            if i == whole {
                push_char(&mut r, '.');
                assert(self.digits@.subrange(whole as int, whole as int).map_values(
                    |x: u8| digit_char(x),
                ) =~= Seq::<char>::empty());
            }
            let d = self.digits[i];
            assert(d < 10);
            push_char(&mut r, (d + 48) as char);
            assert(self.digits@.take(i + 1) =~= self.digits@.take(i as int).push(d));
            if i >= whole {
                assert(self.digits@.subrange(whole as int, i + 1) =~= self.digits@.subrange(
                    whole as int,
                    i as int,
                ).push(d));
            }
            i = i + 1;
        }
        proof {
            assert(self.digits@.take(i as int) =~= self.digits@);
            assert(self.digits@.subrange(whole as int, i as int) =~= self.digits@.skip(
                whole as int,
            ));
            assert(r@ =~= text_of(self@));
        }
        r
    }
}

proof fn lemma_digit_char(x: u8)
    requires
        x < 10,
    ensures
        is_digit(digit_char(x)),
        digit_value(digit_char(x)) == x,
{
}

proof fn lemma_digits_of_concat(a: Seq<char>, b: Seq<char>)
    ensures
        digits_of(a + b) == digits_of(a) + digits_of(b),
    decreases b.len(),
{
    if b.len() == 0 {
        assert(a + b =~= a);
        assert(digits_of(a) + digits_of(b) =~= digits_of(a));
    } else {
        assert((a + b).drop_last() =~= a + b.drop_last());
        lemma_digits_of_concat(a, b.drop_last());
        if is_digit(b.last()) {
            assert(digits_of(a) + digits_of(b) =~= (digits_of(a) + digits_of(b.drop_last())).push(
                digit_value(b.last()),
            ));
        }
    }
}

/// The characters that write the digits `ds`.
pub open spec fn chars_of(ds: Seq<u8>) -> Seq<char> {
    ds.map_values(|x: u8| digit_char(x))
}

proof fn lemma_chars_of_digits(ds: Seq<u8>)
    requires
        forall|i: int| 0 <= i < ds.len() ==> #[trigger] ds[i] < 10,
    ensures
        digits_of(chars_of(ds)) == ds,
        forall|i: int| 0 <= i < ds.len() ==> is_digit(#[trigger] chars_of(ds)[i]),
    decreases ds.len(),
{
    assert forall|i: int| 0 <= i < ds.len() implies is_digit(#[trigger] chars_of(ds)[i]) by {
        lemma_digit_char(ds[i]);
    }
    if ds.len() > 0 {
        assert(chars_of(ds).drop_last() =~= chars_of(ds.drop_last()));
        lemma_chars_of_digits(ds.drop_last());
        lemma_digit_char(ds.last());
        assert(ds.drop_last().push(ds.last()) =~= ds);
    } else {
        assert(chars_of(ds) =~= Seq::<char>::empty());
    }
}

proof fn lemma_fraction_len_skips_whole(a: Seq<char>, r: Seq<char>)
    requires
        forall|i: int| 0 <= i < a.len() ==> #[trigger] a[i] != '.',
    ensures
        fraction_len(a + r) == fraction_len(r),
    decreases a.len(),
{
    if a.len() > 0 {
        assert((a + r)[0] == a[0]);
        assert((a + r).drop_first() =~= a.drop_first() + r);
        lemma_fraction_len_skips_whole(a.drop_first(), r);
    } else {
        assert(a + r =~= r);
    }
}

/// Writing a decimal as text loses nothing: the text is decimal text, and
/// reading it gives back the same decimal.
pub proof fn lemma_text_round_trip(d: DecimalView)
    requires
        d.wf(),
    ensures
        is_decimal_text(text_of(d)),
        decimal_of(text_of(d)) == d,
{
    let w = (d.digits.len() - d.scale) as int;
    let whole = d.digits.take(w);
    let frac = d.digits.skip(w);
    let sign = if d.negative {
        seq!['-']
    } else {
        Seq::<char>::empty()
    };
    let fc = if d.scale > 0 {
        seq!['.'] + chars_of(frac)
    } else {
        Seq::<char>::empty()
    };
    let wc = chars_of(whole);
    let t = text_of(d);
    assert(t =~= sign + (wc + fc));
    lemma_chars_of_digits(whole);
    lemma_chars_of_digits(frac);
    let b = wc + fc;
    assert(unsigned_part(t) =~= b) by {
        if !d.negative {
            assert(t =~= b);
            if b.len() > 0 {
                if w > 0 {
                    assert(b[0] == wc[0]);
                } else {
                    assert(b[0] == '.');
                }
            }
        }
    }
    assert forall|i: int| 0 <= i < b.len() implies is_digit(#[trigger] b[i]) || b[i] == '.' by {
        if i >= wc.len() && d.scale > 0 && i > wc.len() {
            assert(b[i] == chars_of(frac)[i - wc.len() - 1]);
        }
    }
    assert forall|i: int, j: int|
        0 <= i < b.len() && 0 <= j < b.len() && #[trigger] b[i] == '.' && #[trigger] b[j] == '.'
            implies i == j by {
        if i < wc.len() {
            assert(is_digit(wc[i]));
        }
        if j < wc.len() {
            assert(is_digit(wc[j]));
        }
        if i > wc.len() {
            assert(b[i] == chars_of(frac)[i - wc.len() - 1]);
        }
        if j > wc.len() {
            assert(b[j] == chars_of(frac)[j - wc.len() - 1]);
        }
    }
    if w > 0 {
        assert(is_digit(b[0]));
    } else {
        assert(b[1] == chars_of(frac)[0]);
        assert(is_digit(b[1]));
    }
    lemma_digits_of_concat(wc, fc);
    if d.scale > 0 {
        lemma_digits_of_concat(seq!['.'], chars_of(frac));
        assert(seq!['.'].drop_last() =~= Seq::<char>::empty());
        assert(seq!['.'].last() == '.');
        assert(digits_of(Seq::<char>::empty()) =~= Seq::<u8>::empty());
        assert(digits_of(seq!['.']) =~= Seq::<u8>::empty());
        assert(Seq::<u8>::empty() + frac =~= frac);
        assert(fc.drop_first() =~= chars_of(frac));
    } else {
        assert(digits_of(fc) =~= Seq::<u8>::empty());
        assert(frac =~= Seq::<u8>::empty());
    }
    assert(whole + frac =~= d.digits);
    assert forall|i: int| 0 <= i < wc.len() implies #[trigger] wc[i] != '.' by {
        assert(is_digit(wc[i]));
    }
    lemma_fraction_len_skips_whole(wc, fc);
}

proof fn lemma_no_digits(b: Seq<char>)
    requires
        digits_of(b).len() == 0,
    ensures
        forall|i: int| 0 <= i < b.len() ==> !is_digit(#[trigger] b[i]),
    decreases b.len(),
{
    if b.len() > 0 {
        lemma_digits_of_len(b.drop_last());
        lemma_no_digits(b.drop_last());
        assert forall|i: int| 0 <= i < b.len() implies !is_digit(#[trigger] b[i]) by {
            if i < b.len() - 1 {
                assert(b.drop_last()[i] == b[i]);
            }
        }
    }
}

proof fn lemma_some_digit(b: Seq<char>)
    requires
        digits_of(b).len() > 0,
    ensures
        exists|i: int| 0 <= i < b.len() && is_digit(#[trigger] b[i]),
    decreases b.len(),
{
    if is_digit(b.last()) {
        assert(is_digit(b[b.len() - 1]));
    } else {
        lemma_some_digit(b.drop_last());
        let i = choose|i: int| 0 <= i < b.drop_last().len() && is_digit(#[trigger] b.drop_last()[i]);
        assert(b[i] == b.drop_last()[i]);
    }
}

} // verus!

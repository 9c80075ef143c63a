//! CSS functional notation for colours, such as `rgb(255, 0, 0)` or
//! `hsla(240, 100%, 50%, 0.5)`: the parsed form, its parser and its formatter.
use vstd::prelude::*;

use crate::chars::{
    chars_without_spaces, copy_range, find_char, index_of_char, lower_text, without_spaces,
};
use crate::decimal::{is_decimal_text, shown_number, Decimal};

verus! {

/// Why a colour text could not be parsed.
#[derive(Clone, Copy, Debug, PartialEq, Eq, Structural)]
pub enum Error {
    /// A `#` text whose digits are neither six nor eight.
    InvalidHexLength,
    /// A `#` text with a character that is not a hexadecimal digit.
    InvalidHexChars,
    /// A functional notation without `(` or without a closing `)`.
    MissingCssParens,
    /// A value that is not a decimal number.
    InvalidCssFloat,
    /// A value ending in `%` whose number is not a decimal number.
    InvalidCssPercent,
    /// A number of values other than the format takes.
    InvalidCssParams,
    /// A format that the requested colour model cannot be read from.
    WrongCssFormat,
    /// A format name that is none of the six known ones.
    UnknownCssFormat,
}

/// The names of the colour functions.
#[derive(Clone, Copy, Debug, PartialEq, Eq, Hash, Structural)]
pub enum CssColorType {
    Rgb,
    Rgba,
    Hsv,
    Hsva,
    Hsl,
    Hsla,
}

/// The lower-case name of a colour function.
pub open spec fn function_name(t: CssColorType) -> Seq<char> {
    match t {
        CssColorType::Rgb => seq!['r', 'g', 'b'],
        CssColorType::Rgba => seq!['r', 'g', 'b', 'a'],
        CssColorType::Hsv => seq!['h', 's', 'v'],
        CssColorType::Hsva => seq!['h', 's', 'v', 'a'],
        CssColorType::Hsl => seq!['h', 's', 'l'],
        CssColorType::Hsla => seq!['h', 's', 'l', 'a'],
    }
}

/// How many values a colour function takes: three, and a fourth for alpha.
pub open spec fn arity(t: CssColorType) -> nat {
    match t {
        CssColorType::Rgb | CssColorType::Hsv | CssColorType::Hsl => 3,
        _ => 4,
    }
}

/// The model of a colour function without its alpha channel.
pub open spec fn base_type(t: CssColorType) -> CssColorType {
    match t {
        CssColorType::Rgb | CssColorType::Rgba => CssColorType::Rgb,
        CssColorType::Hsv | CssColorType::Hsva => CssColorType::Hsv,
        CssColorType::Hsl | CssColorType::Hsla => CssColorType::Hsl,
    }
}

/// The colour function a name denotes, ignoring ASCII case.
pub open spec fn type_named(name: Seq<char>) -> Option<CssColorType> {
    let l = lower_text(name);
    if l == function_name(CssColorType::Rgb) {
        Some(CssColorType::Rgb)
    } else if l == function_name(CssColorType::Rgba) {
        Some(CssColorType::Rgba)
    } else if l == function_name(CssColorType::Hsv) {
        Some(CssColorType::Hsv)
    } else if l == function_name(CssColorType::Hsva) {
        Some(CssColorType::Hsva)
    } else if l == function_name(CssColorType::Hsl) {
        Some(CssColorType::Hsl)
    } else if l == function_name(CssColorType::Hsla) {
        Some(CssColorType::Hsla)
    } else {
        None
    }
}

fn same_chars(v: &Vec<char>, w: &[char]) -> (r: bool)
    ensures
        r == (v@ == w@),
{
    if v.len() != w.len() {
        return false;
    }
    let mut i: usize = 0;
    while i < v.len()
        invariant
            i <= v.len(),
            v.len() == w@.len(),
            forall|j: int| 0 <= j < i ==> v@[j] == w@[j],
        decreases v.len() - i,
    {
        if v[i] != w[i] {
            return false;
        }
        i += 1;
    }
    assert(v@ =~= w@);
    true
}

impl CssColorType {
    /// The colour function named `name`, in any ASCII case.
    pub fn from_name(name: &Vec<char>) -> (r: Option<Self>)
        ensures
            r == type_named(name@),
    {
        let l = crate::chars::lowercase_chars(name);
        if same_chars(&l, &['r', 'g', 'b']) {
            Some(CssColorType::Rgb)
        } else if same_chars(&l, &['r', 'g', 'b', 'a']) {
            Some(CssColorType::Rgba)
        } else if same_chars(&l, &['h', 's', 'v']) {
            Some(CssColorType::Hsv)
        } else if same_chars(&l, &['h', 's', 'v', 'a']) {
            Some(CssColorType::Hsva)
        } else if same_chars(&l, &['h', 's', 'l']) {
            Some(CssColorType::Hsl)
        } else if same_chars(&l, &['h', 's', 'l', 'a']) {
            Some(CssColorType::Hsla)
        } else {
            None
        }
    }

    /// The lower-case name of the colour function.
    pub fn name(&self) -> (r: &'static str)
        ensures
            r@ == function_name(*self),
    {
        proof {
            reveal_strlit("rgb");
            reveal_strlit("rgba");
            reveal_strlit("hsv");
            reveal_strlit("hsva");
            reveal_strlit("hsl");
            reveal_strlit("hsla");
        }
        match self {
            CssColorType::Rgb => "rgb",
            CssColorType::Rgba => "rgba",
            CssColorType::Hsv => "hsv",
            CssColorType::Hsva => "hsva",
            CssColorType::Hsl => "hsl",
            CssColorType::Hsla => "hsla",
        }
    }

    /// How many values the colour function takes.
    pub fn arity(&self) -> (r: usize)
        ensures
            r == arity(*self),
    {
        match self {
            CssColorType::Rgb | CssColorType::Hsv | CssColorType::Hsl => 3,
            _ => 4,
        }
    }

    /// The same model without its alpha channel.
    pub fn base(&self) -> (r: Self)
        ensures
            r == base_type(*self),
    {
        match self {
            CssColorType::Rgb | CssColorType::Rgba => CssColorType::Rgb,
            CssColorType::Hsv | CssColorType::Hsva => CssColorType::Hsv,
            CssColorType::Hsl | CssColorType::Hsla => CssColorType::Hsl,
        }
    }
}

/// One value of a colour function: a number, or a number followed by `%`.
#[derive(Clone, Debug, PartialEq, Eq)]
pub enum CssNumber {
    /// A number written with `%`; it stands for the written number divided by 100.
    Percent(Decimal),
    /// A number written without `%`.
    Float(Decimal),
}

impl View for CssNumber {
    type V = (bool, Seq<char>);

    /// Whether it was written with `%`, and the text of its number.
    open spec fn view(&self) -> (bool, Seq<char>) {
        match self {
            CssNumber::Percent(d) => (true, d@),
            CssNumber::Float(d) => (false, d@),
        }
    }
}

/// What one value of a colour function reads as: a `%` suffix makes it a
/// percentage; the rest must be a decimal number.
pub open spec fn number_result(seg: Seq<char>) -> Result<(bool, Seq<char>), Error> {
    if seg.len() > 0 && seg.last() == '%' {
        if is_decimal_text(seg.drop_last()) {
            Ok((true, seg.drop_last()))
        } else {
            Err(Error::InvalidCssPercent)
        }
    } else if is_decimal_text(seg) {
        Ok((false, seg))
    } else {
        Err(Error::InvalidCssFloat)
    }
}

impl CssNumber {
    /// Its number is well formed.
    pub open spec fn wf(&self) -> bool {
        match self {
            CssNumber::Percent(d) => d.wf(),
            CssNumber::Float(d) => d.wf(),
        }
    }

    /// Reads one value of a colour function.
    pub fn parse(seg: &Vec<char>) -> (r: Result<CssNumber, Error>)
        ensures
            r matches Ok(n) ==> n.wf() && number_result(seg@) == Ok::<_, Error>(n@),
            r matches Err(e) ==> number_result(seg@) == Err::<(bool, Seq<char>), _>(e),
    {
        let n = seg.len();
        if n > 0 && seg[n - 1] == '%' {
            let mut body: Vec<char> = Vec::new();
            let mut i: usize = 0;
            while i < n - 1
                invariant
                    n == seg.len(),
                    n > 0,
                    i <= n - 1,
                    body@ =~= seg@.take(i as int),
                decreases n - 1 - i,
            {
                body.push(seg[i]);
                i += 1;
            }
            assert(body@ =~= seg@.drop_last());
            match Decimal::parse(&body) {
                Some(d) => Ok(CssNumber::Percent(d)),
                None => Err(Error::InvalidCssPercent),
            }
        } else {
            match Decimal::parse(seg) {
                Some(d) => Ok(CssNumber::Float(d)),
                None => Err(Error::InvalidCssFloat),
            }
        }
    }

    /// The number, whichever way it was written.
    pub fn decimal(&self) -> (r: &Decimal)
        ensures
            r@ == self@.1,
            r.wf() == self.wf(),
    {
        match self {
            CssNumber::Percent(d) => d,
            CssNumber::Float(d) => d,
        }
    }

    /// Whether it was written with `%`.
    pub fn is_percent(&self) -> (r: bool)
        ensures
            r == self@.0,
    {
        match self {
            CssNumber::Percent(_) => true,
            CssNumber::Float(_) => false,
        }
    }
}

/// What the comma-separated values between the parentheses read as: the
/// values in order, or the error of the first one that does not read.
pub open spec fn values_result(s: Seq<char>) -> Result<Seq<(bool, Seq<char>)>, Error>
    decreases s.len(),
{
    let k = index_of_char(s, ',');
    match number_result(s.take(k as int)) {
        Err(e) => Err(e),
        Ok(n) => if k >= s.len() {
            Ok(seq![n])
        } else {
            match values_result(s.skip(k as int + 1)) {
                Err(e) => Err(e),
                Ok(rest) => Ok(seq![n] + rest),
            }
        },
    }
}

/// `done` put in front of the values of a successful result.
pub open spec fn prepend_values(
    done: Seq<(bool, Seq<char>)>,
    r: Result<Seq<(bool, Seq<char>)>, Error>,
) -> Result<Seq<(bool, Seq<char>)>, Error> {
    match r {
        Ok(rest) => Ok(done + rest),
        Err(e) => Err(e),
    }
}

/// What a colour text without spaces reads as in functional notation: the
/// function and its values.
pub open spec fn notation_result(s: Seq<char>) -> Result<
    (CssColorType, Seq<(bool, Seq<char>)>),
    Error,
> {
    let p = index_of_char(s, '(') as int;
    let rest = s.skip(p + 1);
    if p >= s.len() || rest.len() == 0 || rest.last() != ')' {
        Err(Error::MissingCssParens)
    } else {
        match type_named(s.take(p)) {
            None => Err(Error::UnknownCssFormat),
            Some(t) => match values_result(rest.drop_last()) {
                Err(e) => Err(e),
                Ok(vals) => if vals.len() != arity(t) {
                    Err(Error::InvalidCssParams)
                } else {
                    Ok((t, vals))
                },
            },
        }
    }
}

/// Reads the comma-separated values of `x`.
fn parse_values(x: &Vec<char>) -> (r: Result<Vec<CssNumber>, Error>)
    ensures
        r matches Ok(vals) ==> (forall|i: int| 0 <= i < vals.len() ==> (#[trigger] vals@[i]).wf())
            && values_result(x@) == Ok::<_, Error>(vals@.map_values(|n: CssNumber| n@)),
        r matches Err(e) ==> values_result(x@) == Err::<Seq<(bool, Seq<char>)>, _>(e),
{
    let mut out: Vec<CssNumber> = Vec::new();
    let mut start: usize = 0;
    assert(x@.skip(0) =~= x@);
    loop
        invariant
            start <= x.len(),
            forall|i: int| 0 <= i < out.len() ==> (#[trigger] out@[i]).wf(),
            values_result(x@) == prepend_values(
                out@.map_values(|n: CssNumber| n@),
                values_result(x@.skip(start as int)),
            ),
        decreases x.len() - start,
    {
        let k = find_char(x, start, ',');
        let seg = copy_range(x, start, k);
        let ghost rest = x@.skip(start as int);
        assert(rest.take(k - start) =~= seg@);
        let n = match CssNumber::parse(&seg) {
            Ok(n) => n,
            Err(e) => return Err(e),
        };
        let ghost before = out@.map_values(|n: CssNumber| n@);
        out.push(n);
        assert(out@.map_values(|n: CssNumber| n@) =~= before + seq![n@]);
        if k == x.len() {
            return Ok(out);
        }
        assert(rest.skip(k - start + 1) =~= x@.skip(k + 1));
        assert(before + seq![n@] + Seq::<(bool, Seq<char>)>::empty() =~= before + seq![n@]);
        proof {
            match values_result(x@.skip(k + 1)) {
                Ok(tail) => {
                    assert(before + (seq![n@] + tail) =~= before + seq![n@] + tail);
                },
                Err(_) => {},
            }
        }
        start = k + 1;
    }
}

/// A colour in functional notation: the function and its values, three or,
/// with an alpha channel, four.
#[derive(Clone, Debug, PartialEq, Eq)]
pub struct CssColorNotation {
    /// The colour function.
    pub format: CssColorType,
    /// The values in the order they are written.
    pub values: Vec<CssNumber>,
}

impl View for CssColorNotation {
    type V = (CssColorType, Seq<(bool, Seq<char>)>);

    open spec fn view(&self) -> (CssColorType, Seq<(bool, Seq<char>)>) {
        (self.format, self.values@.map_values(|n: CssNumber| n@))
    }
}

impl CssColorNotation {
    /// Every value is well formed.
    pub open spec fn wf(&self) -> bool {
        forall|i: int| 0 <= i < self.values.len() ==> (#[trigger] self.values@[i]).wf()
    }

    /// Whether every value is well formed.
    pub fn is_well_formed(&self) -> (r: bool)
        ensures
            r == self.wf(),
    {
        let mut i: usize = 0;
        while i < self.values.len()
            invariant
                i <= self.values.len(),
                forall|j: int| 0 <= j < i ==> (#[trigger] self.values@[j]).wf(),
            decreases self.values.len() - i,
        {
            if !self.values[i].decimal().is_well_formed() {
                return false;
            }
            i += 1;
        }
        true
    }

    /// Reads functional notation from characters that hold no spaces.
    pub fn parse_chars(s: &Vec<char>) -> (r: Result<CssColorNotation, Error>)
        ensures
            r matches Ok(n) ==> n.wf() && notation_result(s@) == Ok::<_, Error>(n@),
            r matches Err(e) ==> notation_result(s@) == Err::<
                (CssColorType, Seq<(bool, Seq<char>)>),
                _,
            >(e),
    {
        let n = s.len();
        let p = find_char(s, 0, '(');
        assert(s@.skip(0) =~= s@);
        if p >= n || p + 1 >= n || s[n - 1] != ')' {
            return Err(Error::MissingCssParens);
        }
        let ghost rest = s@.skip(p + 1);
        let name = copy_range(s, 0, p);
        assert(name@ =~= s@.take(p as int));
        let format = match CssColorType::from_name(&name) {
            Some(t) => t,
            None => return Err(Error::UnknownCssFormat),
        };
        let inner = copy_range(s, p + 1, n - 1);
        assert(inner@ =~= rest.drop_last());
        let values = match parse_values(&inner) {
            Ok(v) => v,
            Err(e) => return Err(e),
        };
        if values.len() != format.arity() {
            return Err(Error::InvalidCssParams);
        }
        Ok(CssColorNotation { format, values })
    }

    /// Reads functional notation such as `rgba(127.5, 120, 95%, 0.3)`. Spaces
    /// anywhere are ignored and the function name may be in any ASCII case.
    pub fn parse(s: &str) -> (r: Result<CssColorNotation, Error>)
        ensures
            r matches Ok(n) ==> n.wf() && notation_result(without_spaces(s@)) == Ok::<_, Error>(
                n@,
            ),
            r matches Err(e) ==> notation_result(without_spaces(s@)) == Err::<
                (CssColorType, Seq<(bool, Seq<char>)>),
                _,
            >(e),
    {
        let v = chars_without_spaces(s);
        CssColorNotation::parse_chars(&v)
    }
}

/// A successful parse has exactly as many values as its function takes.
pub proof fn lemma_parsed_arity(s: Seq<char>)
    ensures
        notation_result(s) matches Ok(n) ==> n.1.len() == arity(n.0),
{
}

/// The display form of one value: its number rounded to three decimal places
/// and trimmed, then `%` for a percentage.
pub open spec fn number_text(n: (bool, Seq<char>)) -> Seq<char> {
    shown_number(n.1) + if n.0 {
        seq!['%']
    } else {
        Seq::empty()
    }
}

/// The parts with `", "` between each two.
pub open spec fn joined(parts: Seq<Seq<char>>) -> Seq<char>
    decreases parts.len(),
{
    if parts.len() == 0 {
        Seq::empty()
    } else if parts.len() == 1 {
        parts[0]
    } else {
        joined(parts.drop_last()) + seq![',', ' '] + parts.last()
    }
}

/// The display form of a colour in functional notation, such as
/// `rgb(127.5, 255, 0)`.
pub open spec fn notation_text(v: (CssColorType, Seq<(bool, Seq<char>)>)) -> Seq<char> {
    function_name(v.0) + seq!['('] + joined(v.1.map_values(|n: (bool, Seq<char>)| number_text(n)))
        + seq![')']
}

impl CssNumber {
    /// The display text: the number rounded to three decimal places and
    /// trimmed (`99.9994` gives `99.999`), then `%` for a percentage.
    pub fn to_css_string(&self) -> (r: String)
        requires
            self.wf(),
        ensures
            r@ == number_text(self@),
    {
        match self {
            CssNumber::Percent(d) => {
                let mut r = d.to_display_string();
                r.append("%");
                proof {
                    reveal_strlit("%");
                }
                r
            },
            CssNumber::Float(d) => {
                let r = d.to_display_string();
                assert(r@ =~= number_text(self@));
                r
            },
        }
    }
}

impl CssColorNotation {
    /// The display text, such as `hsla(240.5, 30%, 60%, 0.7)`: the lower-case
    /// function name and the values, separated by `", "`, in parentheses.
    pub fn to_css_string(&self) -> (r: String)
        requires
            self.wf(),
        ensures
            r@ == notation_text(self@),
    {
        let ghost parts = self@.1.map_values(|n: (bool, Seq<char>)| number_text(n));
        let mut r = String::from_str(self.format.name());
        r.append("(");
        proof {
            reveal_strlit("(");
        }
        let ghost head = r@;
        let mut i: usize = 0;
        while i < self.values.len()
            invariant
                self.wf(),
                i <= self.values.len(),
                parts == self@.1.map_values(|n: (bool, Seq<char>)| number_text(n)),
                head == function_name(self.format) + seq!['('],
                r@ == head + joined(parts.take(i as int)),
            decreases self.values.len() - i,
        {
            let ghost before = r@;
            if i > 0 {
                r.append(", ");
                proof {
                    reveal_strlit(", ");
                }
            }
            let s = self.values[i].to_css_string();
            r.append(s.as_str());
            proof {
                let prev = parts.take(i as int);
                let next = parts.take(i + 1);
                assert(next.drop_last() =~= prev);
                assert(next.last() == number_text(self.values@[i as int]@));
                if i == 0 {
                    assert(joined(next) == next[0]);
                    assert(joined(prev) =~= Seq::<char>::empty());
                    assert(r@ =~= before + s@);
                } else {
                    assert(joined(next) == joined(prev) + seq![',', ' '] + next.last());
                    assert(r@ =~= before + seq![',', ' '] + s@);
                }
            }
            i += 1;
            assert(r@ =~= head + joined(parts.take(i as int)));
        }
        r.append(")");
        proof {
            reveal_strlit(")");
        }
        assert(parts.take(self.values.len() as int) =~= parts);
        assert(r@ =~= notation_text(self@));
        r
    }
}

/// A channel value as an exact fraction: `amount / divisor`.
#[derive(Clone, Debug, PartialEq, Eq)]
pub struct Channel {
    /// The number as written.
    pub amount: Decimal,
    /// What the number is divided by: 1, 100 or 255.
    pub divisor: u16,
}

/// What the written number in position `slot` of a colour function is divided
/// by to give the channel value. The alpha slot, and the saturation, value and
/// lightness slots, are fractions: a percentage is divided by 100 and a plain
/// number is taken as it is. Red, green and blue are divided by 255 when written
/// plainly and by 100 as percentages. Hue is in degrees either way.
pub open spec fn slot_divisor(t: CssColorType, slot: int, percent: bool) -> int {
    if slot == 3 {
        if percent {
            100
        } else {
            1
        }
    } else if base_type(t) == CssColorType::Rgb {
        if percent {
            100
        } else {
            255
        }
    } else if slot == 0 {
        1
    } else if percent {
        100
    } else {
        1
    }
}

fn divisor_of(t: CssColorType, slot: usize, percent: bool) -> (r: u16)
    ensures
        r == slot_divisor(t, slot as int, percent),
{
    if slot == 3 {
        if percent {
            100
        } else {
            1
        }
    } else if t.base() == CssColorType::Rgb {
        if percent {
            100
        } else {
            255
        }
    } else if slot == 0 {
        1
    } else if percent {
        100
    } else {
        1
    }
}

impl CssColorNotation {
    /// The channel values in the order they are written, each as its number
    /// and the divisor that its position and its `%` call for.
    /// Fails with `InvalidCssParams` when the count of values is not the one
    /// the function takes.
    pub fn channels(&self) -> (r: Result<Vec<Channel>, Error>)
        ensures
            r is Err <==> self.values.len() != arity(self.format),
            r matches Err(e) ==> e == Error::InvalidCssParams,
            r matches Ok(c) ==> c.len() == self.values.len() && forall|i: int|
                0 <= i < c.len() ==> {
                    &&& (#[trigger] c@[i]).amount@ == self.values@[i]@.1
                    &&& c@[i].amount.wf() == self.values@[i].wf()
                    &&& c@[i].divisor == slot_divisor(self.format, i, self.values@[i]@.0)
                },
    {
        if self.values.len() != self.format.arity() {
            return Err(Error::InvalidCssParams);
        }
        let mut out: Vec<Channel> = Vec::new();
        let mut i: usize = 0;
        while i < self.values.len()
            invariant
                i <= self.values.len(),
                out.len() == i,
                forall|j: int|
                    0 <= j < i ==> {
                        &&& (#[trigger] out@[j]).amount@ == self.values@[j]@.1
                        &&& out@[j].amount.wf() == self.values@[j].wf()
                        &&& out@[j].divisor == slot_divisor(self.format, j, self.values@[j]@.0)
                    },
            decreases self.values.len() - i,
        {
            let v = &self.values[i];
            let amount = v.decimal().duplicate();
            let divisor = divisor_of(self.format, i, v.is_percent());
            out.push(Channel { amount, divisor });
            i += 1;
        }
        Ok(out)
    }

    /// The channels for a colour of model `target`: fails with `WrongCssFormat`
    /// when the function belongs to another model (alpha aside), and otherwise
    /// as `channels` does.
    pub fn channels_for(&self, target: CssColorType) -> (r: Result<Vec<Channel>, Error>)
        ensures
            base_type(self.format) != base_type(target) ==> r == Err::<Vec<Channel>, _>(
                Error::WrongCssFormat,
            ),
            base_type(self.format) == base_type(target) ==> (r is Err <==> self.values.len()
                != arity(self.format)),
            r matches Err(e) ==> e == Error::WrongCssFormat || e == Error::InvalidCssParams,
            r matches Ok(c) ==> c.len() == self.values.len() && forall|i: int|
                0 <= i < c.len() ==> {
                    &&& (#[trigger] c@[i]).amount@ == self.values@[i]@.1
                    &&& c@[i].amount.wf() == self.values@[i].wf()
                    &&& c@[i].divisor == slot_divisor(self.format, i, self.values@[i]@.0)
                },
    {
        if self.format.base() != target.base() {
            return Err(Error::WrongCssFormat);
        }
        self.channels()
    }
}

impl std::str::FromStr for CssColorNotation {
    type Err = Error;

    fn from_str(s: &str) -> Result<CssColorNotation, Error> {
        CssColorNotation::parse(s)
    }
}

} // verus!

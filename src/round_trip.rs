//! Reading back what the formatter writes: the display text of a colour in
//! functional notation parses to the same function and the same values, each
//! number in its display form.
use vstd::prelude::*;

use crate::chars::{
    index_of_char, is_digit, lemma_index_of_char, lemma_index_of_char_facts,
    lemma_without_spaces_keeps, lower_text, without_spaces,
};
use crate::css::{
    arity, function_name, joined, notation_result, notation_text, number_result, number_text,
    type_named, values_result, CssColorNotation, CssColorType, CssNumber, Error,
};
use crate::decimal::{
    all_digit_values, all_digits, decimal_parts, decimal_text, digits_number, digits_text,
    is_decimal_text, nice_text, number_digits, pow10, rounded_text, rounded_units, shown_number,
    strip_zeros, unsigned_part, Decimal,
};

verus! {

proof fn lemma_strip_zeros_facts(s: Seq<char>)
    ensures
        strip_zeros(s).len() <= s.len(),
        strip_zeros(s) == s.take(strip_zeros(s).len() as int),
        forall|j: int| strip_zeros(s).len() <= j < s.len() ==> s[j] == '0',
        strip_zeros(s).len() > 0 ==> s[strip_zeros(s).len() - 1] != '0',
    decreases s.len(),
{
    if s.len() > 0 && s.last() == '0' {
        let t = s.drop_last();
        lemma_strip_zeros_facts(t);
        let m = strip_zeros(t).len() as int;
        assert(t.take(m) =~= s.take(m));
        assert forall|j: int| m <= j < s.len() implies s[j] == '0' by {
            if j < s.len() - 1 {
                assert(s[j] == t[j]);
            }
        }
    } else {
        assert(s.take(s.len() as int) =~= s);
    }
}

/// The display form of a decimal number is a decimal number too, and a prefix
/// of it that ends in a digit.
pub proof fn lemma_nice_decimal(d: Seq<char>)
    requires
        is_decimal_text(d),
    ensures
        is_decimal_text(nice_text(d)),
        0 < nice_text(d).len() <= d.len(),
        nice_text(d) == d.take(nice_text(d).len() as int),
        is_digit(nice_text(d).last()),
{
    let o: int = if d.len() > 0 && d[0] == '-' {
        1
    } else {
        0
    };
    let u = unsigned_part(d);
    assert(u =~= d.skip(o));
    let k = index_of_char(u, '.') as int;
    lemma_index_of_char_facts(u, '.');
    let w = u.take(k);
    assert(all_digits(w));
    if k == u.len() {
        assert forall|j: int| 0 <= j < d.len() implies d[j] != '.' by {
            if j >= o {
                assert(d[j] == u[j - o]);
            }
        }
        lemma_index_of_char(d, '.', d.len() as int);
        assert(d.take(d.len() as int) =~= d);
        assert(u.take(k) =~= u);
        assert(d.last() == u[k - 1]);
        assert(is_digit(w[k - 1]));
    } else {
        let f = u.skip(k + 1);
        assert(all_digits(f));
        assert(d[o + k] == '.');
        assert forall|j: int| 0 <= j < o + k implies d[j] != '.' by {
            if j >= o {
                assert(d[j] == u[j - o]);
            }
        }
        lemma_index_of_char(d, '.', o + k);
        lemma_strip_zeros_facts(d);
        let z = strip_zeros(d);
        let m = z.len() as int;
        if m < o + k + 1 {
            assert(d[o + k] == '0');
        }
        assert(m >= o + k + 1);
        if m == o + k + 1 {
            assert(z.last() == '.');
            let n = z.drop_last();
            assert(n =~= d.take(o + k));
            assert(nice_text(d) == n);
            let un = unsigned_part(n);
            assert(un =~= w);
            assert forall|j: int| 0 <= j < un.len() implies un[j] != '.' by {
                assert(is_digit(w[j]));
            }
            lemma_index_of_char(un, '.', un.len() as int);
            assert(un.take(un.len() as int) =~= un);
            assert(n.last() == w[k - 1]);
            assert(is_digit(w[k - 1]));
        } else {
            assert(z.last() == d[m - 1]);
            assert(d[m - 1] == f[m - o - k - 2]);
            assert(is_digit(f[m - o - k - 2]));
            assert(nice_text(d) == z);
            let uz = unsigned_part(z);
            assert(uz =~= u.take(m - o));
            assert forall|j: int| 0 <= j < k implies uz[j] != '.' by {
                assert(uz[j] == u[j]);
            }
            assert(uz[k] == '.');
            lemma_index_of_char(uz, '.', k);
            assert(uz.take(k) =~= w);
            assert(uz.skip(k + 1) =~= f.take(m - o - k - 1));
            assert(all_digits(f.take(m - o - k - 1))) by {
                assert forall|j: int| 0 <= j < m - o - k - 1 implies is_digit(
                    #[trigger] f.take(m - o - k - 1)[j],
                ) by {
                    assert(f.take(m - o - k - 1)[j] == f[j]);
                }
            }
            assert(z.last() == f[m - o - k - 2]);
            assert(is_digit(f[m - o - k - 2]));
        }
    }
}

/// A character that can occur in the display text of one value.
pub open spec fn is_number_char(c: char) -> bool {
    is_digit(c) || c == '-' || c == '.' || c == '%'
}

proof fn lemma_decimal_chars(d: Seq<char>)
    requires
        is_decimal_text(d),
    ensures
        forall|j: int| 0 <= j < d.len() ==> is_number_char(#[trigger] d[j]) && d[j] != '%',
{
    let o: int = if d.len() > 0 && d[0] == '-' {
        1
    } else {
        0
    };
    let u = unsigned_part(d);
    assert(u =~= d.skip(o));
    let k = index_of_char(u, '.') as int;
    lemma_index_of_char_facts(u, '.');
    assert forall|j: int| 0 <= j < d.len() implies is_number_char(#[trigger] d[j]) && d[j]
        != '%' by {
        if j >= o {
            let i = j - o;
            assert(d[j] == u[i]);
            if i < k {
                assert(u.take(k)[i] == u[i]);
            } else if i > k {
                assert(u.skip(k + 1)[i - k - 1] == u[i]);
            }
        }
    }
}

/// The display text of a value reads back as that value, its number in
/// display form (rounded to three decimal places and trimmed).
pub proof fn lemma_number_text_reads_back(n: (bool, Seq<char>))
    requires
        is_decimal_text(n.1),
    ensures
        number_result(number_text(n)) == Ok::<_, Error>((n.0, shown_number(n.1))),
        forall|j: int|
            0 <= j < number_text(n).len() ==> is_number_char(
                #[trigger] number_text(n)[j],
            ),
{
    let t0 = rounded_text(n.1, 3);
    lemma_rounded_decimal(n.1, 3);
    let t = nice_text(t0);
    lemma_nice_decimal(t0);
    lemma_decimal_chars(t0);
    let s = number_text(n);
    assert forall|j: int| 0 <= j < t.len() implies is_number_char(#[trigger] t[j]) && t[j]
        != '%' by {
        assert(t[j] == t0[j]);
    }
    if n.0 {
        assert(s.drop_last() =~= t);
    } else {
        assert(s =~= t);
    }
}

/// The parts with `,` between each two.
pub open spec fn comma_joined(parts: Seq<Seq<char>>) -> Seq<char>
    decreases parts.len(),
{
    if parts.len() == 0 {
        Seq::empty()
    } else if parts.len() == 1 {
        parts[0]
    } else {
        parts[0] + seq![','] + comma_joined(parts.drop_first())
    }
}

proof fn lemma_comma_joined_last(parts: Seq<Seq<char>>)
    requires
        parts.len() >= 2,
    ensures
        comma_joined(parts) == comma_joined(parts.drop_last()) + seq![','] + parts.last(),
    decreases parts.len(),
{
    let rest = parts.drop_first();
    if parts.len() == 2 {
        assert(parts.drop_last().len() == 1);
        assert(rest.len() == 1);
        assert(comma_joined(rest) == rest[0]);
        assert(comma_joined(parts.drop_last()) == parts.drop_last()[0]);
        assert(comma_joined(parts) =~= comma_joined(parts.drop_last()) + seq![','] + parts.last());
    } else {
        lemma_comma_joined_last(rest);
        assert(rest.drop_last() =~= parts.drop_last().drop_first());
        assert(comma_joined(parts.drop_last()) == parts[0] + seq![','] + comma_joined(
            parts.drop_last().drop_first(),
        ));
        assert(comma_joined(parts) =~= comma_joined(parts.drop_last()) + seq![','] + parts.last());
    }
}

proof fn lemma_without_spaces_concat(a: Seq<char>, b: Seq<char>)
    ensures
        without_spaces(a + b) == without_spaces(a) + without_spaces(b),
    decreases b.len(),
{
    if b.len() == 0 {
        assert(a + b =~= a);
    } else {
        lemma_without_spaces_concat(a, b.drop_last());
        assert((a + b).drop_last() =~= a + b.drop_last());
        if b.last() != ' ' {
            assert(without_spaces(a) + without_spaces(b.drop_last()).push(b.last()) =~= (
            without_spaces(a) + without_spaces(b.drop_last())).push(b.last()));
        }
    }
}

proof fn lemma_joined_without_spaces(parts: Seq<Seq<char>>)
    requires
        forall|i: int, j: int|
            0 <= i < parts.len() && 0 <= j < parts[i].len() ==> #[trigger] parts[i][j] != ' ',
    ensures
        without_spaces(joined(parts)) == comma_joined(parts),
    decreases parts.len(),
{
    if parts.len() == 1 {
        lemma_without_spaces_keeps(parts[0]);
    } else if parts.len() >= 2 {
        let init = parts.drop_last();
        lemma_joined_without_spaces(init);
        lemma_comma_joined_last(parts);
        let a = joined(init);
        lemma_without_spaces_concat(a + seq![',', ' '], parts.last());
        lemma_without_spaces_concat(a, seq![',', ' ']);
        assert(without_spaces(seq![',', ' ']) =~= seq![',']) by {
            let e = Seq::<char>::empty();
            assert(without_spaces(e) == e);
            assert(seq![','].drop_last() =~= e);
            assert(without_spaces(seq![',']) == without_spaces(e).push(','));
            assert(seq![',', ' '].drop_last() =~= seq![',']);
            assert(without_spaces(seq![',', ' ']) == without_spaces(seq![',']));
        }
        lemma_without_spaces_keeps(parts.last());
    }
}

proof fn lemma_map_front<A, B>(s: Seq<A>, f: spec_fn(A) -> B)
    requires
        s.len() > 0,
    ensures
        s.map_values(f) == seq![f(s[0])] + s.drop_first().map_values(f),
{
    assert(s.map_values(f) =~= seq![f(s[0])] + s.drop_first().map_values(f));
}

proof fn lemma_first_value_reads_back(first: Seq<char>, tail: Seq<char>, n: (bool, Seq<char>))
    requires
        first == number_text(n),
        is_decimal_text(n.1),
    ensures
        ({
            let s = first + seq![','] + tail;
            &&& index_of_char(s, ',') == first.len()
            &&& s.take(first.len() as int) == first
            &&& s.skip(first.len() as int + 1) == tail
        }),
        index_of_char(first, ',') == first.len(),
        number_result(first) == Ok::<_, Error>((n.0, shown_number(n.1))),
{
    lemma_number_text_reads_back(n);
    assert forall|j: int| 0 <= j < first.len() implies first[j] != ',' by {
        assert(is_number_char(first[j]));
    }
    let s = first + seq![','] + tail;
    assert(s[first.len() as int] == ',');
    assert forall|j: int| 0 <= j < first.len() implies s[j] != ',' by {
        assert(s[j] == first[j]);
    }
    lemma_index_of_char(s, ',', first.len() as int);
    lemma_index_of_char(first, ',', first.len() as int);
    assert(s.take(first.len() as int) =~= first);
    assert(s.skip(first.len() as int + 1) =~= tail);
}

proof fn lemma_values_read_back(vals: Seq<(bool, Seq<char>)>)
    requires
        vals.len() > 0,
        forall|i: int| 0 <= i < vals.len() ==> is_decimal_text(#[trigger] vals[i].1),
    ensures
        values_result(
            comma_joined(vals.map_values(|n: (bool, Seq<char>)| number_text(n))),
        ) == Ok::<_, Error>(
            vals.map_values(|n: (bool, Seq<char>)| (n.0, shown_number(n.1))),
        ),
    decreases vals.len(),
{
    let shown = |n: (bool, Seq<char>)| number_text(n);
    let read = |n: (bool, Seq<char>)| (n.0, shown_number(n.1));
    let parts = vals.map_values(shown);
    let first = parts[0];
    let rest = vals.drop_first();
    lemma_map_front(vals, shown);
    lemma_map_front(vals, read);
    assert(first == number_text(vals[0]));
    if vals.len() == 1 {
        lemma_first_value_reads_back(first, Seq::empty(), vals[0]);
        assert(comma_joined(parts) == first);
        assert(first.take(first.len() as int) =~= first);
        assert(rest.map_values(read) =~= Seq::<(bool, Seq<char>)>::empty());
        assert(seq![read(vals[0])] + Seq::<(bool, Seq<char>)>::empty() =~= seq![read(vals[0])]);
    } else {
        lemma_values_read_back(rest);
        let tail = comma_joined(rest.map_values(shown));
        assert(parts.drop_first() == rest.map_values(shown));
        assert(comma_joined(parts) == first + seq![','] + tail);
        lemma_first_value_reads_back(first, tail, vals[0]);
    }
}

/// Formatting a colour in functional notation and reading the text back gives
/// the same function and the same values, each number in its display form
/// (rounded to three decimal places and trimmed): `rgb(127.51234, 255.0, 0)` is
/// written as `rgb(127.512, 255, 0)`, which reads as `127.512`, `255` and `0`.
pub proof fn lemma_display_reads_back(t: CssColorType, vals: Seq<(bool, Seq<char>)>)
    requires
        vals.len() == arity(t),
        forall|i: int| 0 <= i < vals.len() ==> is_decimal_text(#[trigger] vals[i].1),
    ensures
        notation_result(without_spaces(notation_text((t, vals))))
            == Ok::<_, Error>(
            (t, vals.map_values(|n: (bool, Seq<char>)| (n.0, shown_number(n.1)))),
        ),
{
    let name = function_name(t);
    let parts = vals.map_values(|n: (bool, Seq<char>)| number_text(n));
    assert forall|i: int, j: int|
        0 <= i < parts.len() && 0 <= j < parts[i].len() implies #[trigger] parts[i][j] != ' ' by {
        lemma_number_text_reads_back(vals[i]);
        assert(is_number_char(parts[i][j]));
    }
    lemma_joined_without_spaces(parts);
    let c = comma_joined(parts);
    let head = name + seq!['('];
    let j = joined(parts);
    assert(notation_text((t, vals)) =~= head + j + seq![')']);
    lemma_without_spaces_concat(head + j, seq![')']);
    lemma_without_spaces_concat(head, j);
    lemma_without_spaces_keeps(head);
    lemma_without_spaces_keeps(seq![')']);
    let s = head + c + seq![')'];
    assert(without_spaces(notation_text((t, vals))) == s);
    assert(s[name.len() as int] == '(');
    assert forall|k: int| 0 <= k < name.len() implies s[k] != '(' by {
        assert(s[k] == name[k]);
    }
    lemma_index_of_char(s, '(', name.len() as int);
    assert(s.take(name.len() as int) =~= name);
    assert(lower_text(name) =~= name);
    assert(type_named(name) == Some(t)) by {
        assert(seq!['h', 's', 'v'][2] != seq!['h', 's', 'l'][2]);
        assert(seq!['h', 's', 'v', 'a'][2] != seq!['h', 's', 'l', 'a'][2]);
        assert(seq!['r', 'g', 'b'][0] != seq!['h', 's', 'v'][0]);
        assert(seq!['r', 'g', 'b'][0] != seq!['h', 's', 'l'][0]);
        assert(seq!['r', 'g', 'b', 'a'][0] != seq!['h', 's', 'v', 'a'][0]);
        assert(seq!['r', 'g', 'b', 'a'][0] != seq!['h', 's', 'l', 'a'][0]);
    }
    let rest = s.skip(name.len() as int + 1);
    assert(rest =~= c + seq![')']);
    assert(rest.drop_last() =~= c);
    lemma_values_read_back(vals);
}

/// The text of a well-formed decimal number is a decimal number.
pub proof fn lemma_decimal_text_wf(d: Decimal)
    requires
        d.wf(),
    ensures
        is_decimal_text(d@),
{
    lemma_decimal_text_parts(d.negative, d.whole@, d.fraction@);
}

/// A sign, at least one whole digit and any fraction digits make a decimal
/// number's text.
proof fn lemma_decimal_text_parts(negative: bool, whole: Seq<u8>, fraction: Seq<u8>)
    requires
        whole.len() > 0,
        all_digit_values(whole),
        all_digit_values(fraction),
    ensures
        is_decimal_text(decimal_text(negative, whole, fraction)),
{
    let w = digits_text(whole);
    let f = digits_text(fraction);
    let s = decimal_text(negative, whole, fraction);
    let u = unsigned_part(s);
    assert forall|j: int| 0 <= j < w.len() implies is_digit(#[trigger] w[j]) by {
        let x = whole[j];
        assert((((x + 48) as u8) as char) as u32 == x + 48);
    }
    assert forall|j: int| 0 <= j < f.len() implies is_digit(#[trigger] f[j]) by {
        let x = fraction[j];
        assert((((x + 48) as u8) as char) as u32 == x + 48);
    }
    if negative {
        assert(s[0] == '-');
    } else {
        assert(s[0] == w[0]);
    }
    if fraction.len() > 0 {
        assert(u =~= w + seq!['.'] + f);
    } else {
        assert(u =~= w);
    }
    assert forall|j: int| 0 <= j < w.len() implies u[j] != '.' by {
        assert(u[j] == w[j]);
    }
    lemma_index_of_char(u, '.', w.len() as int);
    assert(u.take(w.len() as int) =~= w);
    if fraction.len() > 0 {
        assert(u.skip(w.len() as int + 1) =~= f);
    }
}

proof fn lemma_number_digits_shape(n: nat, len: nat)
    ensures
        number_digits(n, len).len() == len,
        all_digit_values(number_digits(n, len)),
    decreases len,
{
    if len > 0 {
        lemma_number_digits_shape(n / 10, (len - 1) as nat);
    }
}

/// Rounding a decimal number's text gives a decimal number's text.
pub proof fn lemma_rounded_decimal(t: Seq<char>, places: nat)
    requires
        is_decimal_text(t),
    ensures
        is_decimal_text(rounded_text(t, places)),
{
    let u = unsigned_part(t);
    let k = index_of_char(u, '.') as int;
    let (negative, w, f) = decimal_parts(t);
    lemma_index_of_char_facts(u, '.');
    assert(all_digits(u.take(k)));
    assert(w.len() == k);
    let r = rounded_units(digits_number(w + f), f.len(), places);
    let wl = if r >= pow10(w.len() + places) {
        w.len() + 1
    } else {
        w.len()
    };
    let d = number_digits(r, wl + places);
    lemma_number_digits_shape(r, wl + places);
    assert(all_digit_values(d.take(wl as int))) by {
        assert forall|i: int| 0 <= i < wl implies #[trigger] d.take(wl as int)[i] < 10 by {
            assert(d.take(wl as int)[i] == d[i]);
        }
    }
    assert(all_digit_values(d.skip(wl as int))) by {
        assert forall|i: int| 0 <= i < places implies #[trigger] d.skip(wl as int)[i] < 10 by {
            assert(d.skip(wl as int)[i] == d[wl + i]);
        }
    }
    lemma_decimal_text_parts(negative, d.take(wl as int), d.skip(wl as int));
}

/// For a well-formed colour in functional notation with as many values as its
/// function takes, reading back its display text gives the same function and
/// values, each number in display form.
pub proof fn lemma_notation_reads_back(n: CssColorNotation)
    requires
        n.wf(),
        n.values.len() == arity(n.format),
    ensures
        notation_result(without_spaces(notation_text(n@))) == Ok::<
            _,
            Error,
        >((n.format, n@.1.map_values(|v: (bool, Seq<char>)| (v.0, shown_number(v.1))))),
{
    assert forall|i: int| 0 <= i < n@.1.len() implies is_decimal_text(#[trigger] n@.1[i].1) by {
        let v = n.values@[i];
        assert(v.wf());
        match v {
            CssNumber::Percent(d) => lemma_decimal_text_wf(d),
            CssNumber::Float(d) => lemma_decimal_text_wf(d),
        }
    }
    lemma_display_reads_back(n.format, n@.1);
}

} // verus!

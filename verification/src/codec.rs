use vstd::prelude::*;
use vstd::string::{StrSliceExecFns, StringExecFns};
use crate::errors::CipherError;

verus! {

// The text codec: a byte sequence is rendered as decimal values joined by
// ", " (for display), and such a text is parsed back into the bytes it
// renders.  Parsing splits on the exact ", " separator, leftmost first, as
// `str::split` does, and rejects the first token that is not a decimal value
// between 0 and 255.

/// The ten decimal digit characters.
pub open spec fn is_digit(c: char) -> bool {
    c == '0' || c == '1' || c == '2' || c == '3' || c == '4' || c == '5' || c == '6' || c == '7'
        || c == '8' || c == '9'
}

/// The numeric value of a digit character.
pub open spec fn digit_of(c: char) -> int
    recommends
        is_digit(c),
{
    if c == '0' {
        0
    } else if c == '1' {
        1
    } else if c == '2' {
        2
    } else if c == '3' {
        3
    } else if c == '4' {
        4
    } else if c == '5' {
        5
    } else if c == '6' {
        6
    } else if c == '7' {
        7
    } else if c == '8' {
        8
    } else {
        9
    }
}

/// The character for a decimal digit.
pub open spec fn digit_char(d: int) -> char
    recommends
        0 <= d <= 9,
{
    if d == 0 {
        '0'
    } else if d == 1 {
        '1'
    } else if d == 2 {
        '2'
    } else if d == 3 {
        '3'
    } else if d == 4 {
        '4'
    } else if d == 5 {
        '5'
    } else if d == 6 {
        '6'
    } else if d == 7 {
        '7'
    } else if d == 8 {
        '8'
    } else {
        '9'
    }
}

/// The decimal rendering of `v`: most significant digit first, no sign, no
/// leading zeros.
pub open spec fn decimal_of(v: int) -> Seq<char>
    recommends
        0 <= v,
    decreases v,
{
    if v <= 9 {
        seq![digit_char(v)]
    } else {
        decimal_of(v / 10).push(digit_char(v % 10))
    }
}

/// The separator between rendered bytes.
pub open spec fn separator() -> Seq<char> {
    seq![',', ' ']
}

/// The text rendering of a byte sequence: decimal values joined by ", ".
pub open spec fn text_of(bs: Seq<u8>) -> Seq<char>
    decreases bs.len(),
{
    if bs.len() == 0 {
        Seq::empty()
    } else if bs.len() == 1 {
        decimal_of(bs[0] as int)
    } else {
        decimal_of(bs[0] as int) + separator() + text_of(bs.skip(1))
    }
}

/// A text split on the ", " separator, leftmost occurrence first, exactly as
/// `str::split` walks it.  Every text splits into at least one token; the
/// empty text splits into one empty token.
pub open spec fn split_tokens(s: Seq<char>) -> Seq<Seq<char>>
    decreases s.len(),
{
    if s.len() >= 2 && s[0] == ',' && s[1] == ' ' {
        seq![Seq::<char>::empty()] + split_tokens(s.skip(2))
    } else if s.len() == 0 {
        seq![Seq::<char>::empty()]
    } else {
        let rest = split_tokens(s.skip(1));
        seq![seq![s[0]] + rest[0]] + rest.skip(1)
    }
}

/// Splitting always yields at least one token.
pub proof fn lemma_split_tokens_nonempty(s: Seq<char>)
    ensures
        split_tokens(s).len() >= 1,
    decreases s.len(),
{
    if s.len() >= 2 && s[0] == ',' && s[1] == ' ' {
        lemma_split_tokens_nonempty(s.skip(2));
    } else if s.len() > 0 {
        lemma_split_tokens_nonempty(s.skip(1));
    }
}

/// Whether a separator starts at position `k` of `s`.
pub open spec fn sep_at(s: Seq<char>, k: int) -> bool {
    0 <= k && k + 2 <= s.len() && s[k] == ',' && s[k + 1] == ' '
}

/// If the leftmost separator of `s` stands at position `i`, the first token
/// is everything before it and the rest of the text splits on its own.
pub proof fn lemma_split_at_first_sep(s: Seq<char>, i: int)
    requires
        sep_at(s, i),
        forall|k: int| 0 <= k < i ==> !sep_at(s, k),
    ensures
        split_tokens(s) == seq![s.take(i)] + split_tokens(s.skip(i + 2)),
    decreases i,
{
    if i == 0 {
        assert(s.take(0) =~= Seq::<char>::empty());
        assert(split_tokens(s) == seq![Seq::<char>::empty()] + split_tokens(s.skip(2)));
    } else {
        assert(!sep_at(s, 0));
        assert(s.len() >= 3);
        assert(sep_at(s.skip(1), i - 1));
        assert forall|k: int| 0 <= k < i - 1 implies !sep_at(s.skip(1), k) by {
            assert(!sep_at(s, k + 1));
        }
        lemma_split_at_first_sep(s.skip(1), i - 1);
        let rest = split_tokens(s.skip(1));
        lemma_split_tokens_nonempty(s.skip(i + 2));
        assert(s.skip(1).skip(i + 1) =~= s.skip(i + 2));
        assert(rest == seq![s.skip(1).take(i - 1)] + split_tokens(s.skip(i + 2)));
        assert(rest[0] == s.skip(1).take(i - 1));
        assert(rest.skip(1) =~= split_tokens(s.skip(i + 2)));
        assert(seq![s[0]] + s.skip(1).take(i - 1) =~= s.take(i));
        assert(split_tokens(s) == seq![seq![s[0]] + rest[0]] + rest.skip(1));
    }
}

/// A text without a separator is one single token.
pub proof fn lemma_split_no_sep(s: Seq<char>)
    requires
        forall|k: int| 0 <= k ==> !sep_at(s, k),
    ensures
        split_tokens(s) == seq![s],
    decreases s.len(),
{
    if s.len() == 0 {
        assert(s =~= Seq::<char>::empty());
    } else {
        assert(!sep_at(s, 0));
        assert forall|k: int| 0 <= k implies !sep_at(s.skip(1), k) by {
            assert(!sep_at(s, k + 1));
        }
        lemma_split_no_sep(s.skip(1));
        let rest = split_tokens(s.skip(1));
        assert(rest == seq![s.skip(1)]);
        assert(seq![s[0]] + s.skip(1) =~= s);
        assert(rest.skip(1) =~= Seq::<Seq<char>>::empty());
        assert(split_tokens(s) == seq![seq![s[0]] + rest[0]] + rest.skip(1));
        assert(seq![s] + Seq::<Seq<char>>::empty() =~= seq![s]);
    }
}

/// A token made of decimal digits only.
pub open spec fn all_digits(t: Seq<char>) -> bool {
    forall|i: int| 0 <= i < t.len() ==> is_digit(#[trigger] t[i])
}

/// The value of a run of digit characters, most significant first.
pub open spec fn digits_value(t: Seq<char>) -> int
    recommends
        all_digits(t),
    decreases t.len(),
{
    if t.len() == 0 {
        0
    } else {
        digits_value(t.drop_last()) * 10 + digit_of(t.last())
    }
}

/// A valid token: nonempty, all decimal digits, and a value that fits a byte.
pub open spec fn token_is_valid(t: Seq<char>) -> bool {
    t.len() > 0 && all_digits(t) && digits_value(t) <= 255
}

/// The byte a valid token stands for.
pub open spec fn token_value(t: Seq<char>) -> u8
    recommends
        token_is_valid(t),
{
    digits_value(t) as u8
}

/// Whether every token of a split is valid.
pub open spec fn all_tokens_valid(toks: Seq<Seq<char>>) -> bool {
    forall|i: int| 0 <= i < toks.len() ==> token_is_valid(#[trigger] toks[i])
}

/// The leftmost invalid token of a split.
pub open spec fn first_invalid_token(toks: Seq<Seq<char>>) -> Seq<char>
    recommends
        !all_tokens_valid(toks),
    decreases toks.len(),
{
    if toks.len() == 0 {
        Seq::empty()
    } else if !token_is_valid(toks[0]) {
        toks[0]
    } else {
        first_invalid_token(toks.skip(1))
    }
}

/// The bytes the tokens of a split stand for.
pub open spec fn token_values(toks: Seq<Seq<char>>) -> Seq<u8> {
    Seq::new(toks.len(), |i: int| token_value(toks[i]))
}

/// What parsing a text yields: the bytes of its tokens if every token is a
/// decimal byte value, else the leftmost token that is not.
pub open spec fn parse_text(s: Seq<char>) -> Result<Seq<u8>, Seq<char>> {
    if all_tokens_valid(split_tokens(s)) {
        Result::Ok(token_values(split_tokens(s)))
    } else {
        Result::Err(first_invalid_token(split_tokens(s)))
    }
}

/// A run of digits never has a negative value.
pub proof fn lemma_digits_value_nonneg(t: Seq<char>)
    ensures
        digits_value(t) >= 0,
    decreases t.len(),
{
    if t.len() > 0 {
        lemma_digits_value_nonneg(t.drop_last());
    }
}

/// Reading one more digit multiplies the prefix value by ten and adds it.
pub proof fn lemma_digits_value_step(t: Seq<char>, m: int)
    requires
        0 <= m < t.len(),
    ensures
        digits_value(t.take(m + 1)) == digits_value(t.take(m)) * 10 + digit_of(t[m]),
{
    assert(t.take(m + 1).drop_last() =~= t.take(m));
    assert(t.take(m + 1).last() == t[m]);
    assert(digits_value(t.take(m + 1)) == digits_value(t.take(m + 1).drop_last()) * 10 + digit_of(
        t.take(m + 1).last(),
    ));
}

/// The value of a whole run of digits is at least the value of any prefix.
pub proof fn lemma_digits_value_mono(t: Seq<char>, m: int)
    requires
        0 <= m <= t.len(),
    ensures
        digits_value(t) >= digits_value(t.take(m)),
    decreases t.len() - m,
{
    if m == t.len() {
        assert(t.take(m) =~= t);
    } else {
        lemma_digits_value_step(t, m);
        lemma_digits_value_nonneg(t.take(m));
        lemma_digits_value_mono(t, m + 1);
    }
}

/// If the first `j` tokens are valid and token `j` is not, token `j` is the
/// leftmost invalid one.
pub proof fn lemma_first_invalid(toks: Seq<Seq<char>>, j: int)
    requires
        0 <= j < toks.len(),
        forall|q: int| 0 <= q < j ==> token_is_valid(#[trigger] toks[q]),
        !token_is_valid(toks[j]),
    ensures
        !all_tokens_valid(toks),
        first_invalid_token(toks) == toks[j],
    decreases j,
{
    if j == 0 {
    } else {
        assert forall|q: int| 0 <= q < j - 1 implies token_is_valid(#[trigger] toks.skip(1)[q]) by {
            assert(toks.skip(1)[q] == toks[q + 1]);
        }
        assert(toks.skip(1)[j - 1] == toks[j]);
        lemma_first_invalid(toks.skip(1), j - 1);
    }
}

/// Rendering one more byte appends a separator and that byte's digits.
pub proof fn lemma_text_of_step(bs: Seq<u8>, i: int)
    requires
        1 <= i,
        i + 1 <= bs.len(),
    ensures
        text_of(bs.take(i + 1)) == text_of(bs.take(i)) + separator() + decimal_of(bs[i] as int),
    decreases i,
{
    let s1 = bs.take(i + 1);
    let s0 = bs.take(i);
    assert(s1.skip(1) =~= bs.skip(1).take(i));
    assert(s0.skip(1) =~= bs.skip(1).take(i - 1));
    assert(s1[0] == bs[0]);
    assert(s0[0] == bs[0]);
    if i == 1 {
        assert(bs.skip(1).take(1).len() == 1);
        assert(text_of(bs.skip(1).take(1)) == decimal_of(bs.skip(1).take(1)[0] as int));
        assert(bs.skip(1).take(1)[0] == bs[1]);
        assert(text_of(s0) == decimal_of(bs[0] as int));
        assert(text_of(s1) == decimal_of(bs[0] as int) + separator() + text_of(s1.skip(1)));
        assert(decimal_of(bs[0] as int) + separator() + decimal_of(bs[1] as int) =~= text_of(s0)
            + separator() + decimal_of(bs[1] as int));
    } else {
        lemma_text_of_step(bs.skip(1), i - 1);
        assert(bs.skip(1)[i - 1] == bs[i]);
        assert(text_of(s1) == decimal_of(bs[0] as int) + separator() + text_of(
            bs.skip(1).take(i),
        ));
        assert(text_of(s0) == decimal_of(bs[0] as int) + separator() + text_of(
            bs.skip(1).take(i - 1),
        ));
        assert(decimal_of(bs[0] as int) + separator() + (text_of(bs.skip(1).take(i - 1))
            + separator() + decimal_of(bs[i] as int)) =~= (decimal_of(bs[0] as int) + separator()
            + text_of(bs.skip(1).take(i - 1))) + separator() + decimal_of(bs[i] as int));
    }
}

/// Appends one decimal digit character to `out`.
fn append_digit(out: &mut String, d: u8)
    requires
        d < 10,
    ensures
        final(out)@ == old(out)@ + seq![digit_char(d as int)],
{
    if d == 0 {
        out.append("0");
        proof {
            reveal_strlit("0");
            assert(old(out)@ + "0"@ =~= old(out)@ + seq![digit_char(0)]);
        }
    } else if d == 1 {
        out.append("1");
        proof {
            reveal_strlit("1");
            assert(old(out)@ + "1"@ =~= old(out)@ + seq![digit_char(1)]);
        }
    } else if d == 2 {
        out.append("2");
        proof {
            reveal_strlit("2");
            assert(old(out)@ + "2"@ =~= old(out)@ + seq![digit_char(2)]);
        }
    } else if d == 3 {
        out.append("3");
        proof {
            reveal_strlit("3");
            assert(old(out)@ + "3"@ =~= old(out)@ + seq![digit_char(3)]);
        }
    } else if d == 4 {
        out.append("4");
        proof {
            reveal_strlit("4");
            assert(old(out)@ + "4"@ =~= old(out)@ + seq![digit_char(4)]);
        }
    } else if d == 5 {
        out.append("5");
        proof {
            reveal_strlit("5");
            assert(old(out)@ + "5"@ =~= old(out)@ + seq![digit_char(5)]);
        }
    } else if d == 6 {
        out.append("6");
        proof {
            reveal_strlit("6");
            assert(old(out)@ + "6"@ =~= old(out)@ + seq![digit_char(6)]);
        }
    } else if d == 7 {
        out.append("7");
        proof {
            reveal_strlit("7");
            assert(old(out)@ + "7"@ =~= old(out)@ + seq![digit_char(7)]);
        }
    } else if d == 8 {
        out.append("8");
        proof {
            reveal_strlit("8");
            assert(old(out)@ + "8"@ =~= old(out)@ + seq![digit_char(8)]);
        }
    } else {
        out.append("9");
        proof {
            reveal_strlit("9");
            assert(old(out)@ + "9"@ =~= old(out)@ + seq![digit_char(9)]);
        }
    }
}

/// Appends the decimal rendering of `v` to `out`.
fn append_decimal(out: &mut String, v: u8)
    ensures
        final(out)@ == old(out)@ + decimal_of(v as int),
{
    if v >= 100 {
        append_digit(out, v / 100);
    }
    if v >= 10 {
        append_digit(out, (v / 10) % 10);
    }
    append_digit(out, v % 10);
    proof {
        if v < 10 {
            assert(old(out)@ + seq![digit_char(v as int % 10)] =~= old(out)@ + decimal_of(
                v as int,
            ));
        } else if v < 100 {
            assert(decimal_of(v as int) == decimal_of(v as int / 10).push(
                digit_char(v as int % 10),
            ));
            assert(decimal_of(v as int / 10) == seq![digit_char(v as int / 10)]);
            assert((old(out)@ + seq![digit_char((v as int / 10) % 10)]) + seq![
                digit_char(v as int % 10),
            ] =~= old(out)@ + decimal_of(v as int));
        } else {
            assert(decimal_of(v as int) == decimal_of(v as int / 10).push(
                digit_char(v as int % 10),
            ));
            assert((v as int / 10) / 10 == v as int / 100);
            assert(decimal_of(v as int / 10) == decimal_of(v as int / 100).push(
                digit_char((v as int / 10) % 10),
            ));
            assert(decimal_of(v as int / 100) == seq![digit_char(v as int / 100)]);
            assert(((old(out)@ + seq![digit_char(v as int / 100)]) + seq![
                digit_char((v as int / 10) % 10),
            ]) + seq![digit_char(v as int % 10)] =~= old(out)@ + decimal_of(v as int));
        }
    }
}

/// The decimal rendering of a value consists of digit characters only and
/// reads back as the value itself.
pub proof fn lemma_decimal_of_digits(v: int)
    requires
        0 <= v,
    ensures
        all_digits(decimal_of(v)),
        digits_value(decimal_of(v)) == v,
        decimal_of(v).len() >= 1,
    decreases v,
{
    if v <= 9 {
        assert(decimal_of(v) == seq![digit_char(v)]);
        assert(seq![digit_char(v)].drop_last() =~= Seq::<char>::empty());
        assert(digits_value(Seq::<char>::empty()) == 0);
        assert(seq![digit_char(v)].last() == digit_char(v));
        assert(digits_value(seq![digit_char(v)]) == digit_of(digit_char(v)));
        assert(digit_of(digit_char(v)) == v);
        assert(is_digit(digit_char(v)));
    } else {
        lemma_decimal_of_digits(v / 10);
        let p = decimal_of(v / 10);
        let c = digit_char(v % 10);
        assert(decimal_of(v) == p.push(c));
        assert(p.push(c).drop_last() =~= p);
        assert(p.push(c).last() == c);
        assert(digits_value(decimal_of(v)) == digits_value(p) * 10 + digit_of(c));
        assert(digit_of(c) == v % 10);
        assert(is_digit(c));
        assert forall|i: int| 0 <= i < decimal_of(v).len() implies is_digit(
            #[trigger] decimal_of(v)[i],
        ) by {
            if i < p.len() {
                assert(decimal_of(v)[i] == p[i]);
            } else {
                assert(decimal_of(v)[i] == c);
            }
        }
    }
}

/// The rendering of a byte sequence splits back into one token per byte.
pub proof fn lemma_split_of_text(bs: Seq<u8>)
    requires
        bs.len() >= 1,
    ensures
        split_tokens(text_of(bs)) =~= Seq::new(bs.len(), |i: int| decimal_of(bs[i] as int)),
    decreases bs.len(),
{
    let s = text_of(bs);
    let d0 = decimal_of(bs[0] as int);
    lemma_decimal_of_digits(bs[0] as int);
    if bs.len() == 1 {
        assert(s == d0);
        assert forall|k: int| 0 <= k implies !sep_at(s, k) by {
            if k + 2 <= s.len() {
                assert(is_digit(s[k]));
            }
        }
        lemma_split_no_sep(s);
    } else {
        let rest = text_of(bs.skip(1));
        assert(s == d0 + separator() + rest);
        let ll = d0.len() as int;
        assert(s[ll] == ',');
        assert(s[ll + 1] == ' ');
        assert(sep_at(s, ll));
        assert forall|k: int| 0 <= k < ll implies !sep_at(s, k) by {
            assert(s[k] == d0[k]);
            assert(is_digit(d0[k]));
        }
        lemma_split_at_first_sep(s, ll);
        assert(s.take(ll) =~= d0);
        assert(s.skip(ll + 2) =~= rest);
        lemma_split_of_text(bs.skip(1));
        assert(seq![d0] + Seq::new((bs.len() - 1) as nat, |i: int| decimal_of(bs.skip(1)[i] as int))
            =~= Seq::new(bs.len(), |i: int| decimal_of(bs[i] as int)));
    }
}

/// Codec round trip: parsing the rendering of a nonempty byte sequence gives
/// exactly that sequence back.  (The empty sequence renders as the empty
/// text, which parses as one empty token and is rejected.)
pub proof fn lemma_codec_round_trip(bs: Seq<u8>)
    requires
        bs.len() >= 1,
    ensures
        parse_text(text_of(bs)) == Result::<Seq<u8>, Seq<char>>::Ok(bs),
{
    lemma_split_of_text(bs);
    let toks = split_tokens(text_of(bs));
    assert forall|i: int| 0 <= i < toks.len() implies token_is_valid(#[trigger] toks[i]) by {
        lemma_decimal_of_digits(bs[i] as int);
        assert(toks[i] == decimal_of(bs[i] as int));
    }
    assert(all_tokens_valid(toks));
    assert forall|i: int| 0 <= i < toks.len() implies token_values(toks)[i] == bs[i] by {
        lemma_decimal_of_digits(bs[i] as int);
        assert(toks[i] == decimal_of(bs[i] as int));
        assert(token_value(toks[i]) == bs[i]);
    }
    assert(token_values(toks) =~= bs);
}

/// Converts one character to its decimal digit value, if it has one.
fn char_digit(c: char) -> (r: Option<u8>)
    ensures
        r is Some <==> is_digit(c),
        r is Some ==> r->Some_0 as int == digit_of(c),
{
    if c == '0' {
        Some(0)
    } else if c == '1' {
        Some(1)
    } else if c == '2' {
        Some(2)
    } else if c == '3' {
        Some(3)
    } else if c == '4' {
        Some(4)
    } else if c == '5' {
        Some(5)
    } else if c == '6' {
        Some(6)
    } else if c == '7' {
        Some(7)
    } else if c == '8' {
        Some(8)
    } else if c == '9' {
        Some(9)
    } else {
        None
    }
}

/// Scans from `start` for the leftmost ", " separator; returns its position,
/// or the text's length when no separator follows.
fn find_token_end(data: &str, start: usize) -> (e: usize)
    requires
        start <= data@.len(),
    ensures
        start <= e <= data@.len(),
        forall|k: int| start <= k < e ==> !sep_at(data@, k),
        e < data@.len() ==> sep_at(data@, e as int),
{
    let n = data.unicode_len();
    let mut e: usize = start;
    loop
        invariant
            n == data@.len(),
            start <= e <= n,
            forall|k: int| start <= k < e ==> !sep_at(data@, k),
        ensures
            start <= e <= n,
            forall|k: int| start <= k < e ==> !sep_at(data@, k),
            e < n ==> sep_at(data@, e as int),
        decreases n - e,
    {
        if e >= n {
            break ;
        }
        if e + 1 < n {
            let c = data.get_char(e);
            if c == ',' {
                let c2 = data.get_char(e + 1);
                if c2 == ' ' {
                    break ;
                }
            }
        }
        e = e + 1;
    }
    e
}

/// Parses the token standing between `start` and `e` as a decimal byte.
fn parse_token(data: &str, start: usize, e: usize) -> (r: Option<u8>)
    requires
        start <= e <= data@.len(),
    ensures
        ({
            let t = data@.subrange(start as int, e as int);
            match r {
                Some(v) => token_is_valid(t) && v as int == digits_value(t),
                None => !token_is_valid(t),
            }
        }),
{
    let ghost t = data@.subrange(start as int, e as int);
    let mut val: u16 = 0;
    let mut ok: bool = true;
    let mut k: usize = start;
    while k < e
        invariant
            start <= k <= e <= data@.len(),
            t == data@.subrange(start as int, e as int),
            ok ==> all_digits(t.take(k - start)) && val as int == digits_value(t.take(k - start))
                && val <= 255,
            !ok ==> !token_is_valid(t),
        decreases e - k,
    {
        let ghost m = k - start;
        let c = data.get_char(k);
        proof {
            assert(t[m] == data@[k as int]);
        }
        match char_digit(c) {
            Some(d) => {
                if ok {
                    proof {
                        lemma_digits_value_step(t, m);
                    }
                    let nv: u16 = val * 10 + d as u16;
                    if nv > 255 {
                        ok = false;
                        proof {
                            lemma_digits_value_mono(t, m + 1);
                        }
                    } else {
                        val = nv;
                        proof {
                            assert forall|q: int| 0 <= q < m + 1 implies is_digit(
                                #[trigger] t.take(m + 1)[q],
                            ) by {
                                if q < m {
                                    assert(t.take(m)[q] == t.take(m + 1)[q]);
                                }
                            }
                        }
                    }
                }
            },
            None => {
                ok = false;
                proof {
                    assert(!is_digit(t[m]));
                }
            },
        }
        k = k + 1;
    }
    if ok && e > start {
        proof {
            assert(t.take(e - start) =~= t);
        }
        Some(val as u8)
    } else {
        proof {
            if ok {
                assert(t.len() == 0);
            }
        }
        None
    }
}

/// Parses a ", "-separated list of decimal byte values.  Returns the bytes in
/// order, or reports the leftmost token that is not a decimal value between 0
/// and 255.
pub fn str_to_bytes(data: &str) -> (r: Result<Vec<u8>, CipherError>)
    ensures
        parse_text(data@) is Ok ==> r is Ok && r->Ok_0@ == parse_text(data@)->Ok_0,
        parse_text(data@) is Err ==> r is Err && r->Err_0 is ParseFailure
            && r->Err_0->ParseFailure_0@ == parse_text(data@)->Err_0,
{
    let n = data.unicode_len();
    let ghost s = data@;
    let ghost toks = split_tokens(s);
    let mut out: Vec<u8> = Vec::new();
    let mut start: usize = 0;
    let ghost mut j: int = 0;
    proof {
        assert(toks.skip(0) =~= toks);
        assert(s.skip(0) =~= s);
        assert(toks.take(0) =~= Seq::<Seq<char>>::empty());
        assert(token_values(toks.take(0)) =~= Seq::<u8>::empty());
    }
    loop
        invariant
            n == s.len(),
            s == data@,
            toks == split_tokens(s),
            start <= n,
            0 <= j <= toks.len(),
            toks.skip(j) == split_tokens(s.skip(start as int)),
            forall|q: int| 0 <= q < j ==> token_is_valid(#[trigger] toks[q]),
            out@ == token_values(toks.take(j)),
        decreases n - start,
    {
        let e = find_token_end(data, start);
        let ghost t = s.subrange(start as int, e as int);
        proof {
            lemma_split_tokens_nonempty(s.skip(start as int));
            if e < n {
                assert(sep_at(s.skip(start as int), e - start)) by {
                    assert(s.skip(start as int)[e - start] == s[e as int]);
                    assert(s.skip(start as int)[e - start + 1] == s[e as int + 1]);
                }
                assert forall|k: int| 0 <= k < e - start implies !sep_at(
                    s.skip(start as int),
                    k,
                ) by {
                    assert(!sep_at(s, k + start));
                    assert(s.skip(start as int)[k] == s[k + start]);
                    if k + 2 <= s.skip(start as int).len() {
                        assert(s.skip(start as int)[k + 1] == s[k + start + 1]);
                    }
                }
                lemma_split_at_first_sep(s.skip(start as int), e - start);
                assert(s.skip(start as int).take(e - start) =~= t);
                assert(s.skip(start as int).skip(e - start + 2) =~= s.skip(e as int + 2));
            } else {
                assert forall|k: int| 0 <= k implies !sep_at(s.skip(start as int), k) by {
                    if k + 2 <= s.skip(start as int).len() {
                        assert(!sep_at(s, k + start));
                        assert(s.skip(start as int)[k] == s[k + start]);
                        assert(s.skip(start as int)[k + 1] == s[k + start + 1]);
                    }
                }
                lemma_split_no_sep(s.skip(start as int));
                assert(s.skip(start as int) =~= t);
            }
            assert(toks.skip(j).len() >= 1);
            assert(j < toks.len());
            assert(toks[j] == toks.skip(j)[0]);
            assert(toks[j] == t);
        }
        match parse_token(data, start, e) {
            Some(v) => {
                out.push(v);
                proof {
                    lemma_digits_value_nonneg(t);
                    assert(v == token_value(t));
                    assert(toks.take(j + 1) =~= toks.take(j).push(t));
                    assert(token_values(toks.take(j + 1)) =~= token_values(toks.take(j)).push(
                        token_value(t),
                    ));
                    j = j + 1;
                }
                if e < n {
                    start = e + 2;
                    proof {
                        assert(toks.skip(j) =~= toks.skip(j - 1).skip(1));
                        assert(toks.skip(j - 1).skip(1) =~= split_tokens(s.skip(start as int)));
                    }
                } else {
                    proof {
                        assert(toks.len() - j == 0);
                        assert(toks.take(j) =~= toks);
                        assert(all_tokens_valid(toks));
                    }
                    return Ok(out);
                }
            },
            None => {
                let token = data.substring_char(start, e);
                proof {
                    lemma_first_invalid(toks, j);
                }
                return Err(CipherError::ParseFailure(token.to_owned()));
            },
        }
    }
}

/// Renders a byte sequence as its decimal values joined by ", ".
pub fn bytes_to_str(bytes: &[u8]) -> (r: String)
    ensures
        r@ == text_of(bytes@),
{
    let mut out = String::new();
    let mut i: usize = 0;
    while i < bytes.len()
        invariant
            i <= bytes@.len(),
            out@ == text_of(bytes@.take(i as int)),
        decreases bytes@.len() - i,
    {
        if i > 0 {
            out.append(", ");
            proof {
                reveal_strlit(", ");
                assert(", "@ =~= separator());
            }
        }
        append_decimal(&mut out, bytes[i]);
        proof {
            if i == 0 {
                assert(bytes@.take(1).len() == 1);
                assert(text_of(bytes@.take(1)) == decimal_of(bytes@.take(1)[0] as int));
                assert(bytes@.take(0) =~= Seq::<u8>::empty());
                assert(text_of(bytes@.take(0)) == Seq::<char>::empty());
                assert(Seq::<char>::empty() + decimal_of(bytes@[0] as int) =~= decimal_of(
                    bytes@[0] as int,
                ));
            } else {
                lemma_text_of_step(bytes@, i as int);
            }
        }
        i = i + 1;
    }
    proof {
        assert(bytes@.take(bytes@.len() as int) =~= bytes@);
    }
    out
}

} // verus!


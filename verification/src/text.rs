//! Character-level text handling for commands: whitespace, words and
//! integer literals.
use vstd::prelude::*;

verus! {

/// White space as `char::is_whitespace` defines it (the Unicode `White_Space`
/// property).
pub open spec fn is_ws(c: char) -> bool {
    let v = c as u32;
    ||| v == 0x20
    ||| 0x09 <= v <= 0x0d
    ||| v == 0x85
    ||| v == 0xa0
    ||| v == 0x1680
    ||| 0x2000 <= v <= 0x200a
    ||| v == 0x2028
    ||| v == 0x2029
    ||| v == 0x202f
    ||| v == 0x205f
    ||| v == 0x3000
}

pub fn is_whitespace(c: char) -> (b: bool)
    ensures
        b == is_ws(c),
{
    let v = c as u32;
    v == 0x20 || (0x09 <= v && v <= 0x0d) || v == 0x85 || v == 0xa0 || v == 0x1680 || (0x2000 <= v
        && v <= 0x200a) || v == 0x2028 || v == 0x2029 || v == 0x202f || v == 0x205f || v == 0x3000
}

/// Length of the run of non-white-space characters at the start of `s`.
pub open spec fn word_len(s: Seq<char>) -> nat
    decreases s.len(),
{
    if s.len() == 0 || is_ws(s[0]) {
        0
    } else {
        1 + word_len(s.drop_first())
    }
}

pub proof fn lemma_word_len_bound(s: Seq<char>)
    ensures
        word_len(s) <= s.len(),
    decreases s.len(),
{
    if s.len() > 0 && !is_ws(s[0]) {
        lemma_word_len_bound(s.drop_first());
    }
}

/// The words of `s`: its maximal runs of non-white-space characters, in
/// order (what `str::split_whitespace` yields).
pub open spec fn words(s: Seq<char>) -> Seq<Seq<char>>
    decreases s.len(),
{
    if s.len() == 0 {
        seq![]
    } else if is_ws(s[0]) {
        words(s.drop_first())
    } else {
        proof {
            lemma_word_len_bound(s);
        }
        seq![s.take(word_len(s) as int)] + words(s.skip(word_len(s) as int))
    }
}

proof fn lemma_word_len_is(s: Seq<char>, n: int)
    requires
        0 <= n <= s.len(),
        forall|j: int| 0 <= j < n ==> !is_ws(s[j]),
        n < s.len() ==> is_ws(s[n]),
    ensures
        word_len(s) == n,
    decreases s.len(),
{
    if s.len() > 0 && !is_ws(s[0]) {
        lemma_word_len_is(s.drop_first(), n - 1);
    }
}

/// The characters of `s`.
pub fn str_chars(s: &str) -> (v: Vec<char>)
    ensures
        v@ == s@,
{
    let n = s.unicode_len();
    let mut v: Vec<char> = Vec::new();
    let mut i: usize = 0;
    while i < n
        invariant
            i <= n,
            n == s@.len(),
            v@ == s@.take(i as int),
        decreases n - i,
    {
        let c = s.get_char(i);
        v.push(c);
        i = i + 1;
        assert(v@ =~= s@.take(i as int));
    }
    assert(v@ =~= s@);
    v
}

/// Whether the characters `a` are the text `lit`.
pub fn chars_equal(a: &[char], lit: &str) -> (b: bool)
    ensures
        b == (a@ == lit@),
{
    let n = lit.unicode_len();
    if a.len() != n {
        return false;
    }
    let mut i: usize = 0;
    while i < n
        invariant
            i <= n,
            n == lit@.len(),
            a@.len() == n,
            forall|j: int| 0 <= j < i ==> a@[j] == lit@[j],
        decreases n - i,
    {
        if a[i] != lit.get_char(i) {
            return false;
        }
        i = i + 1;
    }
    assert(a@ =~= lit@);
    true
}

/// The spans `(start, end)` of the words of `chars`, in order.
pub fn word_spans(chars: &[char]) -> (spans: Vec<(usize, usize)>)
    ensures
        spans@.len() == words(chars@).len(),
        forall|k: int|
            0 <= k < spans@.len() ==> {
                &&& (#[trigger] spans@[k]).0 <= spans@[k].1 <= chars@.len()
                &&& chars@.subrange(spans@[k].0 as int, spans@[k].1 as int) == words(chars@)[k]
            },
{
    let n = chars.len();
    let ghost all = chars@;
    let mut spans: Vec<(usize, usize)> = Vec::new();
    let ghost mut done: Seq<Seq<char>> = seq![];
    let mut i: usize = 0;
    assert(all.skip(0) =~= all);
    while i < n
        invariant
            i <= n,
            n == all.len(),
            all == chars@,
            words(all) == done + words(all.skip(i as int)),
            spans@.len() == done.len(),
            forall|k: int|
                0 <= k < spans@.len() ==> {
                    &&& (#[trigger] spans@[k]).0 <= spans@[k].1 <= all.len()
                    &&& all.subrange(spans@[k].0 as int, spans@[k].1 as int) == done[k]
                },
        decreases n - i,
    {
        if is_whitespace(chars[i]) {
            assert(all.skip(i as int).drop_first() =~= all.skip(i + 1));
            i = i + 1;
        } else {
            let start = i;
            while i < n && !is_whitespace(chars[i])
                invariant
                    start <= i <= n,
                    n == all.len(),
                    all == chars@,
                    forall|j: int| start <= j < i ==> !is_ws(all[j]),
                decreases n - i,
            {
                i = i + 1;
            }
            let ghost rest = all.skip(start as int);
            proof {
                lemma_word_len_is(rest, i - start);
                assert(rest.take(i - start) =~= all.subrange(start as int, i as int));
                assert(rest.skip(i - start) =~= all.skip(i as int));
                assert(words(rest) == seq![rest.take(word_len(rest) as int)] + words(
                    rest.skip(word_len(rest) as int),
                ));
                done = done.push(all.subrange(start as int, i as int));
                assert(words(all) =~= done + words(all.skip(i as int)));
            }
            spans.push((start, i));
        }
    }
    assert(all.skip(n as int) =~= Seq::<char>::empty());
    assert(words(all) =~= done);
    spans
}

pub open spec fn is_digit(c: char) -> bool {
    48 <= (c as u32) <= 57
}

pub open spec fn all_digits(s: Seq<char>) -> bool {
    forall|i: int| 0 <= i < s.len() ==> is_digit(s[i])
}

/// The decimal value of a run of digits.
pub open spec fn digits_value(s: Seq<char>) -> int
    decreases s.len(),
{
    if s.len() == 0 {
        0
    } else {
        digits_value(s.drop_last()) * 10 + ((s.last() as u32) - 48)
    }
}

/// `s` starts with a sign character.
pub open spec fn has_sign(s: Seq<char>) -> bool {
    s.len() > 0 && (s[0] == '-' || s[0] == '+')
}

/// The digits part of a number: `s` without its sign character.
pub open spec fn number_body(s: Seq<char>) -> Seq<char> {
    if has_sign(s) {
        s.drop_first()
    } else {
        s
    }
}

/// What `str::parse::<i32>` gives: an optional `+` or `-` sign, then one or
/// more ASCII digits whose value fits in an `i32`.
pub open spec fn parse_i32(s: Seq<char>) -> Option<i32> {
    let neg = s.len() > 0 && s[0] == '-';
    let body = number_body(s);
    if body.len() == 0 || !all_digits(body) {
        None
    } else {
        let v = if neg {
            -digits_value(body)
        } else {
            digits_value(body)
        };
        if -2147483648 <= v <= 2147483647 {
            Some(v as i32)
        } else {
            None
        }
    }
}

proof fn lemma_digits_value_grows(s: Seq<char>, k: int)
    requires
        all_digits(s),
        0 <= k <= s.len(),
    ensures
        0 <= digits_value(s.take(k)) <= digits_value(s),
    decreases s.len(),
{
    if s.len() > 0 {
        if k == s.len() {
            assert(s.take(k) =~= s);
            lemma_digits_value_grows(s.drop_last(), k - 1);
        } else {
            assert(s.drop_last().take(k) =~= s.take(k));
            lemma_digits_value_grows(s.drop_last(), k);
        }
    } else {
        assert(s.take(k) =~= s);
    }
}

proof fn lemma_parse_i32_none(s: Seq<char>)
    requires
        number_body(s).len() == 0 || !all_digits(number_body(s)) || digits_value(number_body(s))
            > 2147483648,
    ensures
        parse_i32(s) is None,
{
}

/// Parses a decimal `i32` as `str::parse::<i32>` does.
pub fn parse_i32_chars(s: &[char]) -> (r: Option<i32>)
    ensures
        r == parse_i32(s@),
{
    let n = s.len();
    let neg = n > 0 && s[0] == '-';
    let start: usize = if n > 0 && (s[0] == '-' || s[0] == '+') {
        1
    } else {
        0
    };
    let ghost body = number_body(s@);
    assert(body =~= s@.skip(start as int));
    if start == n {
        return None;
    }
    let mut acc: i64 = 0;
    let mut i: usize = start;
    while i < n
        invariant
            start <= i <= n,
            n == s@.len(),
            body == s@.skip(start as int),
            body == number_body(s@),
            acc == digits_value(body.take(i - start)),
            0 <= acc <= 2147483648,
            all_digits(body.take(i - start)),
        decreases n - i,
    {
        let c = s[i];
        let v = c as u32;
        if v < 48 || v > 57 {
            assert(!is_digit(body[i - start]));
            assert(!all_digits(body));
            proof {
                lemma_parse_i32_none(s@);
            }
            return None;
        }
        let d = (v - 48) as i64;
        let ghost t = body.take(i - start + 1);
        assert(t.drop_last() =~= body.take(i - start));
        acc = acc * 10 + d;
        i = i + 1;
        assert(all_digits(body.take(i - start)));
        if acc > 2147483648 {
            assert(acc == digits_value(body.take(i - start)));
            proof {
                if all_digits(body) {
                    lemma_digits_value_grows(body, i - start);
                    assert(digits_value(body) > 2147483648);
                }
                lemma_parse_i32_none(s@);
            }
            return None;
        }
    }
    assert(body.take(n - start) =~= body);
    if neg {
        Some((0 - acc) as i32)
    } else if acc > 2147483647 {
        None
    } else {
        Some(acc as i32)
    }
}

/// The decimal digit character for `d` (below 10).
pub open spec fn digit_char(d: nat) -> char {
    (48 + d) as char
}

/// The decimal representation of `n`, as `Display` writes an unsigned integer.
pub open spec fn decimal(n: nat) -> Seq<char>
    decreases n,
{
    if n < 10 {
        seq![digit_char(n)]
    } else {
        decimal(n / 10) + seq![digit_char(n % 10)]
    }
}

fn digit_str(d: usize) -> (s: &'static str)
    requires
        d < 10,
    ensures
        s@ == seq![digit_char(d as nat)],
{
    proof {
        reveal_strlit("0");
        reveal_strlit("1");
        reveal_strlit("2");
        reveal_strlit("3");
        reveal_strlit("4");
        reveal_strlit("5");
        reveal_strlit("6");
        reveal_strlit("7");
        reveal_strlit("8");
        reveal_strlit("9");
    }
    match d {
        0 => "0",
        1 => "1",
        2 => "2",
        3 => "3",
        4 => "4",
        5 => "5",
        6 => "6",
        7 => "7",
        8 => "8",
        _ => "9",
    }
}

/// Appends the decimal representation of `n` to `out`.
pub fn push_decimal(out: &mut String, n: usize)
    ensures
        final(out)@ == old(out)@ + decimal(n as nat),
    decreases n,
{
    if n >= 10 {
        push_decimal(out, n / 10);
    }
    out.append(digit_str(n % 10));
}

/// The decimal representation of `x`, with a leading `-` when it is negative.
pub open spec fn signed_decimal(x: int) -> Seq<char> {
    if x < 0 {
        "-"@ + decimal((-x) as nat)
    } else {
        decimal(x as nat)
    }
}

/// Appends the decimal representation of `x` to `out`.
pub fn push_signed_decimal(out: &mut String, x: i32)
    ensures
        final(out)@ == old(out)@ + signed_decimal(x as int),
{
    if x < 0 {
        out.append("-");
        let magnitude: i64 = -(x as i64);
        push_decimal(out, magnitude as usize);
    } else {
        push_decimal(out, x as usize);
    }
}

/// `s` followed by spaces up to `width` characters, as `{:<width}` lays a
/// value out.
pub open spec fn padded(s: Seq<char>, width: nat) -> Seq<char> {
    if s.len() >= width {
        s
    } else {
        s + Seq::new((width - s.len()) as nat, |i: int| ' ')
    }
}

/// Appends `s` to `out`, followed by spaces up to `width` characters.
pub fn push_padded(out: &mut String, s: &str, width: usize)
    ensures
        final(out)@ == old(out)@ + padded(s@, width as nat),
{
    let ghost base = old(out)@ + s@;
    out.append(s);
    let n = s.unicode_len();
    let mut i: usize = n;
    proof {
        reveal_strlit(" ");
    }
    assert(out@ =~= base + Seq::new(0, |k: int| ' '));
    while i < width
        invariant
            n == s@.len(),
            n <= i,
            i <= width || i == n,
            base == old(out)@ + s@,
            out@ == base + Seq::new((i - n) as nat, |k: int| ' '),
        decreases width - i,
    {
        proof {
            reveal_strlit(" ");
        }
        out.append(" ");
        i = i + 1;
        assert(out@ =~= base + Seq::new((i - n) as nat, |k: int| ' '));
    }
    assert(out@ =~= old(out)@ + padded(s@, width as nat));
}

/// Decimal digits that write `n` as `Display` writes numbers: at least one
/// digit, no leading zero except for zero itself, and the digits' value is `n`.
pub open spec fn writes_number(s: Seq<char>, n: int) -> bool {
    &&& s.len() >= 1
    &&& all_digits(s)
    &&& digits_value(s) == n
    &&& s.len() > 1 ==> s[0] != '0'
}

/// The decimal representation of `n` is its digits with no leading zero.
pub proof fn lemma_decimal_writes_number(n: nat)
    ensures
        writes_number(decimal(n), n as int),
        n > 0 ==> decimal(n)[0] != '0',
    decreases n,
{
    if n < 10 {
        let d = decimal(n);
        assert((digit_char(n) as u32) == 48 + n);
        assert(d.drop_last() =~= Seq::<char>::empty());
        assert(digits_value(d) == digits_value(d.drop_last()) * 10 + ((d.last() as u32) - 48));
    } else {
        lemma_decimal_writes_number(n / 10);
        let d = decimal(n);
        let hi = decimal(n / 10);
        assert((digit_char(n % 10) as u32) == 48 + n % 10);
        assert(d.drop_last() =~= hi);
        assert(d[0] == hi[0]);
        assert(digits_value(d) == digits_value(hi) * 10 + (n % 10));
    }
}

/// The decimal text of a signed number starts with `-` exactly when the
/// number is negative; the rest writes its magnitude as `decimal` does (so
/// zero is written `0`).
pub proof fn lemma_signed_decimal_sign(x: int)
    ensures
        signed_decimal(x).len() >= 1,
        (signed_decimal(x)[0] == '-') == (x < 0),
        x < 0 ==> writes_number(signed_decimal(x).drop_first(), -x),
        x >= 0 ==> writes_number(signed_decimal(x), x),
{
    reveal_strlit("-");
    if x < 0 {
        lemma_decimal_writes_number((-x) as nat);
        assert(signed_decimal(x).drop_first() =~= decimal((-x) as nat));
    } else {
        lemma_decimal_writes_number(x as nat);
        let d = decimal(x as nat);
        assert(is_digit(d[0]));
    }
}

} // verus!

//! Text helpers over sequences of characters: trimming, splitting, ASCII case
//! folding and number formatting.

use vstd::prelude::*;
use vstd::slice::slice_subrange;

verus! {

/// `String::push` appends one character.
pub assume_specification[ String::push ](s: &mut String, c: char)
    ensures
        final(s)@ == old(s)@.push(c),
;

/// The characters with the Unicode `White_Space` property.
pub open spec fn is_white(c: char) -> bool {
    ||| '\u{9}' <= c <= '\u{d}'
    ||| c == ' '
    ||| c == '\u{85}'
    ||| c == '\u{a0}'
    ||| c == '\u{1680}'
    ||| '\u{2000}' <= c <= '\u{200a}'
    ||| c == '\u{2028}'
    ||| c == '\u{2029}'
    ||| c == '\u{202f}'
    ||| c == '\u{205f}'
    ||| c == '\u{3000}'
}

/// Whether `c` is an ASCII decimal digit.
pub open spec fn is_digit(c: char) -> bool {
    '0' <= c <= '9'
}

/// `c` with an ASCII upper-case letter folded to lower case.
pub open spec fn lower(c: char) -> char {
    if 'A' <= c <= 'Z' {
        ((c as u32 + 32) as u32) as char
    } else {
        c
    }
}

/// `s` with every ASCII upper-case letter folded to lower case.
pub open spec fn lower_all(s: Seq<char>) -> Seq<char> {
    s.map_values(|c: char| lower(c))
}

/// `s` without its leading white space.
pub open spec fn trimmed_start(s: Seq<char>) -> Seq<char>
    decreases s.len(),
{
    if s.len() > 0 && is_white(s[0]) {
        trimmed_start(s.skip(1))
    } else {
        s
    }
}

/// `s` without its trailing white space.
pub open spec fn trimmed_end(s: Seq<char>) -> Seq<char>
    decreases s.len(),
{
    if s.len() > 0 && is_white(s.last()) {
        trimmed_end(s.drop_last())
    } else {
        s
    }
}

/// `s` without leading and trailing white space.
pub open spec fn trimmed(s: Seq<char>) -> Seq<char> {
    trimmed_end(trimmed_start(s))
}

/// The index of the first `c` in `s`, or the length of `s` when there is none.
pub open spec fn position(s: Seq<char>, c: char) -> int
    decreases s.len(),
{
    if s.len() == 0 {
        0
    } else if s[0] == c {
        0
    } else {
        1 + position(s.skip(1), c)
    }
}

/// The pieces of `s` between the separators `c`, one more than there are
/// separators.
pub open spec fn pieces(s: Seq<char>, c: char) -> Seq<Seq<char>>
    decreases s.len(),
{
    let i = position(s, c);
    if 0 <= i < s.len() {
        seq![s.take(i)] + pieces(s.skip(i + 1), c)
    } else {
        seq![s]
    }
}

/// Whether `s` begins with `prefix`.
pub open spec fn has_prefix(s: Seq<char>, prefix: Seq<char>) -> bool {
    prefix.len() <= s.len() && s.take(prefix.len() as int) == prefix
}

/// The digit for `d`, in base sixteen with lower-case letters.
pub open spec fn digit_char(d: nat) -> char {
    if d < 10 {
        (d + 48) as char
    } else {
        (d + 87) as char
    }
}

/// `n` written in base `base`, without leading zeros.
pub open spec fn numeral(n: nat, base: nat) -> Seq<char>
    decreases n,
{
    if base < 2 || n < base {
        seq![digit_char(n)]
    } else {
        proof {
            assert(n / base < n) by (nonlinear_arith)
                requires
                    base >= 2,
                    n >= base,
            ;
        }
        numeral(n / base, base).push(digit_char(n % base))
    }
}

/// `n` in decimal.
pub open spec fn decimal(n: nat) -> Seq<char> {
    numeral(n, 10)
}

/// `n` in lower-case hexadecimal.
pub open spec fn hexadecimal(n: nat) -> Seq<char> {
    numeral(n, 16)
}

/// `s` with zeros in front, up to `width` characters.
pub open spec fn zero_padded(s: Seq<char>, width: nat) -> Seq<char>
    decreases width - s.len(),
{
    if s.len() >= width {
        s
    } else {
        zero_padded(seq!['0'] + s, width)
    }
}

/// The number that a run of decimal digits stands for.
pub open spec fn decimal_value(s: Seq<char>) -> nat
    decreases s.len(),
{
    if s.len() == 0 {
        0
    } else {
        decimal_value(s.drop_last()) * 10 + (s.last() as nat - 48) as nat
    }
}

/// Whether `s` is a non-empty run of decimal digits.
pub open spec fn all_digits(s: Seq<char>) -> bool {
    s.len() > 0 && forall|i: int| 0 <= i < s.len() ==> is_digit(#[trigger] s[i])
}

/// `position` is within bounds, and finds the first occurrence.
pub proof fn lemma_position(s: Seq<char>, c: char)
    ensures
        0 <= position(s, c) <= s.len(),
        position(s, c) < s.len() ==> s[position(s, c)] == c,
        forall|i: int| 0 <= i < position(s, c) ==> #[trigger] s[i] != c,
    decreases s.len(),
{
    if s.len() > 0 && s[0] != c {
        lemma_position(s.skip(1), c);
        assert forall|i: int| 0 <= i < position(s, c) implies #[trigger] s[i] != c by {
            if i > 0 {
                assert(s.skip(1)[i - 1] == s[i]);
            }
        }
    }
}

/// An index with `c` at it and none before is the position of `c`.
pub proof fn lemma_position_is(s: Seq<char>, c: char, k: int)
    requires
        0 <= k <= s.len(),
        k < s.len() ==> s[k] == c,
        forall|i: int| 0 <= i < k ==> #[trigger] s[i] != c,
    ensures
        position(s, c) == k,
{
    lemma_position(s, c);
    let p = position(s, c);
    if p < k {
        assert(s[p] != c);
    } else if k < p {
        assert(s[k] != c);
    }
}

pub proof fn lemma_trimmed_start(s: Seq<char>, k: int)
    requires
        0 <= k <= s.len(),
        forall|i: int| 0 <= i < k ==> is_white(#[trigger] s[i]),
        k < s.len() ==> !is_white(s[k]),
    ensures
        trimmed_start(s) == s.skip(k),
    decreases k,
{
    if k > 0 {
        assert(is_white(s[0]));
        let t = s.skip(1);
        assert forall|i: int| 0 <= i < k - 1 implies is_white(#[trigger] t[i]) by {
            assert(t[i] == s[i + 1]);
        }
        lemma_trimmed_start(t, k - 1);
        assert(t.skip(k - 1) =~= s.skip(k));
    } else {
        assert(s.skip(0) =~= s);
    }
}

/// `trimmed_end` cuts what is white space up to the end.
pub proof fn lemma_trimmed_end(s: Seq<char>, k: int)
    requires
        0 <= k <= s.len(),
        forall|i: int| k <= i < s.len() ==> is_white(#[trigger] s[i]),
        k > 0 ==> !is_white(s[k - 1]),
    ensures
        trimmed_end(s) == s.take(k),
    decreases s.len(),
{
    if k < s.len() {
        let t = s.drop_last();
        assert(is_white(s[s.len() - 1]));
        assert forall|i: int| k <= i < t.len() implies is_white(#[trigger] t[i]) by {
            assert(t[i] == s[i]);
        }
        lemma_trimmed_end(t, k);
        assert(t.take(k) =~= s.take(k));
    } else {
        assert(s.take(k) =~= s);
    }
}

/// The characters of `s`.
pub fn chars(s: &str) -> (res: Vec<char>)
    ensures
        res@ == s@,
{
    let mut out: Vec<char> = Vec::new();
    for c in it: s.chars()
        invariant
            out@ == it.seq().take(it.index() as int),
            it.seq() == s@,
    {
        out.push(c);
        assert(out@ =~= it.seq().take(it.index() as int + 1));
    }
    assert(out@ =~= s@);
    out
}

/// The string made of the characters in `cs`.
pub fn string_of(cs: &[char]) -> (res: String)
    ensures
        res@ == cs@,
{
    let mut out = String::new();
    let mut i: usize = 0;
    while i < cs.len()
        invariant
            0 <= i <= cs.len(),
            out@ == cs@.take(i as int),
        decreases cs.len() - i,
    {
        out.push(cs[i]);
        i += 1;
        assert(out@ =~= cs@.take(i as int));
    }
    assert(out@ =~= cs@);
    out
}

/// Whether two runs of characters are the same.
pub fn same(a: &[char], b: &[char]) -> (res: bool)
    ensures
        res == (a@ == b@),
{
    if a.len() != b.len() {
        return false;
    }
    let mut i: usize = 0;
    while i < a.len()
        invariant
            0 <= i <= a.len(),
            a.len() == b.len(),
            forall|j: int| 0 <= j < i ==> a@[j] == b@[j],
        decreases a.len() - i,
    {
        if a[i] != b[i] {
            return false;
        }
        i += 1;
    }
    assert(a@ =~= b@);
    true
}

/// Whether `c` is white space.
pub fn is_whitespace(c: char) -> (res: bool)
    ensures
        res == is_white(c),
{
    ('\u{9}' <= c && c <= '\u{d}') || c == ' ' || c == '\u{85}' || c == '\u{a0}' || c == '\u{1680}'
        || ('\u{2000}' <= c && c <= '\u{200a}') || c == '\u{2028}' || c == '\u{2029}' || c
        == '\u{202f}' || c == '\u{205f}' || c == '\u{3000}'
}

/// `cs` without leading and trailing white space.
pub fn trim(cs: &[char]) -> (res: &[char])
    ensures
        res@ == trimmed(cs@),
{
    let mut lo: usize = 0;
    while lo < cs.len() && is_whitespace(cs[lo])
        invariant
            0 <= lo <= cs.len(),
            forall|i: int| 0 <= i < lo ==> is_white(#[trigger] cs@[i]),
        decreases cs.len() - lo,
    {
        lo += 1;
    }
    let mut hi: usize = cs.len();
    while hi > lo && is_whitespace(cs[hi - 1])
        invariant
            lo <= hi <= cs.len(),
            forall|i: int| hi <= i < cs.len() ==> is_white(#[trigger] cs@[i]),
        decreases hi,
    {
        hi -= 1;
    }
    proof {
        lemma_trimmed_start(cs@, lo as int);
        let t = cs@.skip(lo as int);
        assert forall|i: int| hi - lo <= i < t.len() implies is_white(#[trigger] t[i]) by {
            assert(t[i] == cs@[i + lo]);
        }
        lemma_trimmed_end(t, hi - lo);
        assert(t.take(hi - lo) =~= cs@.subrange(lo as int, hi as int));
    }
    slice_subrange(cs, lo, hi)
}

/// The index of the first `c` in `cs`, or its length when there is none.
pub fn find(cs: &[char], c: char) -> (res: usize)
    ensures
        res == position(cs@, c),
        res <= cs@.len(),
{
    let mut i: usize = 0;
    while i < cs.len() && cs[i] != c
        invariant
            0 <= i <= cs.len(),
            forall|j: int| 0 <= j < i ==> #[trigger] cs@[j] != c,
        decreases cs.len() - i,
    {
        i += 1;
    }
    proof {
        lemma_position_is(cs@, c, i as int);
    }
    i
}

/// The pieces of `cs` between the separators `c`.
pub fn split<'a>(cs: &'a [char], c: char) -> (res: Vec<&'a [char]>)
    ensures
        res@.len() == pieces(cs@, c).len(),
        forall|i: int| 0 <= i < res@.len() ==> (#[trigger] res@[i])@ == pieces(cs@, c)[i],
        res@.len() > 0,
{
    let mut out: Vec<&'a [char]> = Vec::new();
    let mut rest: &'a [char] = cs;
    let mut at: usize = find(rest, c);
    while at < rest.len()
        invariant
            at == position(rest@, c),
            at <= rest@.len(),
            pieces(cs@, c).len() == out@.len() + pieces(rest@, c).len(),
            forall|i: int| 0 <= i < out@.len() ==> (#[trigger] out@[i])@ == pieces(cs@, c)[i],
            forall|i: int|
                0 <= i < pieces(rest@, c).len() ==> #[trigger] pieces(rest@, c)[i] == pieces(
                    cs@,
                    c,
                )[i + out@.len()],
        decreases rest@.len(),
    {
        let ghost before = rest@;
        let ghost done = out@;
        let head = slice_subrange(rest, 0, at);
        let tail = slice_subrange(rest, at + 1, rest.len());
        proof {
            assert(head@ =~= before.take(at as int));
            assert(tail@ =~= before.skip(at + 1));
            assert(pieces(before, c) == seq![head@] + pieces(tail@, c));
            assert(pieces(before, c)[0] == head@);
        }
        out.push(head);
        rest = tail;
        at = find(rest, c);
        proof {
            assert forall|i: int| 0 <= i < pieces(rest@, c).len() implies #[trigger] pieces(
                rest@,
                c,
            )[i] == pieces(cs@, c)[i + out@.len()] by {
                assert(pieces(before, c)[i + 1] == pieces(rest@, c)[i]);
            }
        }
    }
    proof {
        assert(pieces(rest@, c) == seq![rest@]);
        assert(pieces(rest@, c)[0] == rest@);
    }
    out.push(rest);
    out
}

/// Whether `cs` begins with `prefix`.
pub fn starts_with(cs: &[char], prefix: &[char]) -> (res: bool)
    ensures
        res == has_prefix(cs@, prefix@),
{
    if prefix.len() > cs.len() {
        return false;
    }
    let head = slice_subrange(cs, 0, prefix.len());
    assert(head@ =~= cs@.take(prefix@.len() as int));
    same(head, prefix)
}

/// `c` with an ASCII upper-case letter folded to lower case.
pub fn lower_char(c: char) -> (res: char)
    ensures
        res == lower(c),
{
    if 'A' <= c && c <= 'Z' {
        ((c as u8) + 32) as char
    } else {
        c
    }
}

/// Whether two runs of characters are the same but for ASCII case.
pub fn same_ignoring_case(a: &[char], b: &[char]) -> (res: bool)
    ensures
        res == (lower_all(a@) == lower_all(b@)),
{
    if a.len() != b.len() {
        assert(lower_all(a@).len() != lower_all(b@).len());
        return false;
    }
    let mut i: usize = 0;
    while i < a.len()
        invariant
            0 <= i <= a.len(),
            a.len() == b.len(),
            forall|j: int| 0 <= j < i ==> lower(a@[j]) == lower(b@[j]),
        decreases a.len() - i,
    {
        if lower_char(a[i]) != lower_char(b[i]) {
            assert(lower_all(a@)[i as int] != lower_all(b@)[i as int]);
            return false;
        }
        i += 1;
    }
    assert(lower_all(a@) =~= lower_all(b@));
    true
}

/// `cs` with every ASCII upper-case letter folded to lower case.
pub fn to_lower(cs: &[char]) -> (res: Vec<char>)
    ensures
        res@ == lower_all(cs@),
{
    let mut out: Vec<char> = Vec::new();
    let mut i: usize = 0;
    while i < cs.len()
        invariant
            0 <= i <= cs.len(),
            out@ == lower_all(cs@).take(i as int),
        decreases cs.len() - i,
    {
        out.push(lower_char(cs[i]));
        i += 1;
        assert(out@ =~= lower_all(cs@).take(i as int));
    }
    assert(out@ =~= lower_all(cs@));
    out
}

/// Whether `cs` is a non-empty run of decimal digits.
pub fn only_digits(cs: &[char]) -> (res: bool)
    ensures
        res == all_digits(cs@),
{
    if cs.len() == 0 {
        return false;
    }
    let mut i: usize = 0;
    while i < cs.len()
        invariant
            0 <= i <= cs.len(),
            cs.len() > 0,
            forall|j: int| 0 <= j < i ==> is_digit(#[trigger] cs@[j]),
        decreases cs.len() - i,
    {
        if cs[i] < '0' || cs[i] > '9' {
            assert(!is_digit(cs@[i as int]));
            return false;
        }
        i += 1;
    }
    true
}

proof fn lemma_decimal_value_grows(s: Seq<char>, k: int)
    requires
        0 <= k <= s.len(),
        forall|i: int| 0 <= i < s.len() ==> is_digit(#[trigger] s[i]),
    ensures
        decimal_value(s.take(k)) <= decimal_value(s),
    decreases s.len(),
{
    if k < s.len() {
        let t = s.drop_last();
        assert forall|i: int| 0 <= i < t.len() implies is_digit(#[trigger] t[i]) by {
            assert(t[i] == s[i]);
        }
        lemma_decimal_value_grows(t, k);
        assert(t.take(k) =~= s.take(k));
    } else {
        assert(s.take(k) =~= s);
    }
}

/// The number that a run of decimal digits stands for, if 64 bits hold it.
pub fn parse_decimal(cs: &[char]) -> (res: Option<u64>)
    requires
        all_digits(cs@),
    ensures
        res matches Some(v) ==> v == decimal_value(cs@),
        res is None <==> decimal_value(cs@) > u64::MAX,
{
    let mut value: u64 = 0;
    let mut i: usize = 0;
    assert(cs@.take(0) =~= Seq::<char>::empty());
    while i < cs.len()
        invariant
            0 <= i <= cs.len(),
            all_digits(cs@),
            value == decimal_value(cs@.take(i as int)),
        decreases cs.len() - i,
    {
        assert(is_digit(cs@[i as int]));
        let digit: u64 = (cs[i] as u64) - 48;
        proof {
            let next = cs@.take(i + 1);
            assert(next.drop_last() =~= cs@.take(i as int));
            assert(next.last() == cs@[i as int]);
            assert(decimal_value(next) == value * 10 + digit);
            lemma_decimal_value_grows(cs@, i + 1);
        }
        if value > (u64::MAX - digit) / 10 {
            assert(value * 10 + digit > u64::MAX);
            return None;
        }
        value = value * 10 + digit;
        i += 1;
    }
    assert(cs@.take(i as int) =~= cs@);
    Some(value)
}

/// The digit for `d`.
pub fn digit(d: u64) -> (res: char)
    requires
        d < 16,
    ensures
        res == digit_char(d as nat),
{
    if d < 10 {
        (d as u8 + 48) as char
    } else {
        (d as u8 + 87) as char
    }
}

/// `n` written in base `base`.
pub fn format_number(n: u64, base: u64) -> (res: Vec<char>)
    requires
        2 <= base <= 16,
    ensures
        res@ == numeral(n as nat, base as nat),
    decreases n,
{
    if n < base {
        let mut out: Vec<char> = Vec::new();
        out.push(digit(n));
        assert(out@ =~= seq![digit_char(n as nat)]);
        out
    } else {
        assert(n / base < n && n % base < base) by (nonlinear_arith)
            requires
                base >= 2,
                n >= base,
        ;
        let mut out = format_number(n / base, base);
        out.push(digit(n % base));
        out
    }
}

/// `n` in decimal.
pub fn format_decimal(n: u64) -> (res: String)
    ensures
        res@ == decimal(n as nat),
{
    string_of(format_number(n, 10).as_slice())
}

/// `n` in lower-case hexadecimal.
pub fn format_hexadecimal(n: u64) -> (res: String)
    ensures
        res@ == hexadecimal(n as nat),
{
    string_of(format_number(n, 16).as_slice())
}

/// A numeral in base ten or sixteen consists of digits and lower-case letters.
pub proof fn lemma_numeral_chars(n: nat, base: nat)
    requires
        2 <= base <= 16,
    ensures
        numeral(n, base).len() > 0,
        forall|i: int|
            0 <= i < numeral(n, base).len() ==> {
                let c = #[trigger] numeral(n, base)[i];
                is_digit(c) || 'a' <= c <= 'f'
            },
        base == 10 ==> all_digits(numeral(n, base)),
    decreases n,
{
    if n >= base {
        assert(n / base < n && n % base < base) by (nonlinear_arith)
            requires
                base >= 2,
                n >= base,
        ;
        lemma_numeral_chars(n / base, base);
    }
}

/// Decimal digits written by `decimal` are read back by `decimal_value`.
pub proof fn lemma_decimal_value_of_decimal(n: nat)
    ensures
        decimal_value(decimal(n)) == n,
        all_digits(decimal(n)),
    decreases n,
{
    lemma_numeral_chars(n, 10);
    let s = decimal(n);
    if n >= 10 {
        lemma_decimal_value_of_decimal(n / 10);
        assert(s.drop_last() =~= decimal(n / 10));
        assert(s.last() == digit_char(n % 10));
    } else {
        assert(s.drop_last() =~= Seq::<char>::empty());
        assert(s.last() == digit_char(n));
        assert(decimal_value(s.drop_last()) == 0);
    }
}

/// Two numbers with the same numeral are equal.
pub proof fn lemma_numeral_injective(a: nat, b: nat, base: nat)
    requires
        2 <= base <= 16,
        numeral(a, base) == numeral(b, base),
    ensures
        a == b,
    decreases a,
{
    lemma_numeral_len(a, base);
    lemma_numeral_len(b, base);
    if a >= base {
        let s = numeral(a, base);
        assert(a / base < a && a % base < base && a == (a / base) * base + a % base)
            by (nonlinear_arith)
            requires
                base >= 2,
                a >= base,
        ;
        assert(b % base < base && b == (b / base) * base + b % base) by (nonlinear_arith)
            requires
                base >= 2,
        ;
        assert(s.drop_last() =~= numeral(a / base, base));
        assert(s.drop_last() =~= numeral(b / base, base));
        lemma_numeral_injective(a / base, b / base, base);
        assert(s.last() == digit_char(a % base));
        assert(s.last() == digit_char(b % base));
    } else {
        assert(numeral(a, base)[0] == digit_char(a));
        assert(numeral(b, base)[0] == digit_char(b));
    }
}

proof fn lemma_numeral_len(n: nat, base: nat)
    requires
        2 <= base,
    ensures
        numeral(n, base).len() == 1 <==> n < base,
        numeral(n, base).len() >= 1,
    decreases n,
{
    if n >= base {
        assert(n / base < n) by (nonlinear_arith)
            requires
                base >= 2,
                n >= base,
        ;
        lemma_numeral_len(n / base, base);
    }
}

/// Text without separators is one piece.
pub proof fn lemma_pieces_without_separator(s: Seq<char>, c: char)
    requires
        !s.contains(c),
    ensures
        pieces(s, c) == seq![s],
{
    lemma_position(s, c);
    if position(s, c) < s.len() {
        assert(s.contains(s[position(s, c)]));
    }
}

/// Appending a separator and more text appends one piece.
pub proof fn lemma_pieces_append(a: Seq<char>, b: Seq<char>, c: char)
    requires
        !b.contains(c),
    ensures
        pieces(a + seq![c] + b, c) == pieces(a, c).push(b),
    decreases a.len(),
{
    let s = a + seq![c] + b;
    let i = position(a, c);
    lemma_position(a, c);
    assert forall|j: int| 0 <= j < i implies #[trigger] s[j] != c by {
        assert(s[j] == a[j]);
    }
    lemma_position_is(s, c, i);
    assert(s.take(i) =~= a.take(i));
    if i < a.len() {
        lemma_pieces_append(a.skip(i + 1), b, c);
        assert(s.skip(i + 1) =~= a.skip(i + 1) + seq![c] + b);
        assert(pieces(s, c) =~= pieces(a, c).push(b));
    } else {
        lemma_pieces_without_separator(b, c);
        assert(s.skip(i + 1) =~= b);
        assert(a.take(i) =~= a);
        assert(pieces(s, c) =~= pieces(a, c).push(b));
    }
}

/// `n` in lower-case hexadecimal with zeros in front, up to `width` characters.
pub fn format_hexadecimal_padded(n: u64, width: usize) -> (res: String)
    ensures
        res@ == zero_padded(hexadecimal(n as nat), width as nat),
{
    let digits = format_number(n, 16);
    let mut out: Vec<char> = Vec::new();
    let mut have: usize = digits.len();
    let ghost whole = digits@;
    assert(out@ + digits@ =~= digits@);
    while have < width
        invariant
            digits@.len() <= have,
            have == out@.len() + digits@.len(),
            forall|i: int| 0 <= i < out@.len() ==> #[trigger] out@[i] == '0',
            zero_padded(out@ + digits@, width as nat) == zero_padded(digits@, width as nat),
        decreases width - have,
    {
        let ghost before = out@;
        out.push('0');
        assert(seq!['0'] + (before + digits@) =~= out@ + digits@);
        have += 1;
    }
    let mut text = string_of(out.as_slice());
    text.append(string_of(digits.as_slice()).as_str());
    text
}

/// White space is what the Unicode `White_Space` property holds of.
pub proof fn law_white_space_is_unicode_white_space(c: char)
    ensures
        is_white(c) <==> seq![
            0x9,
            0xa,
            0xb,
            0xc,
            0xd,
            0x20,
            0x85,
            0xa0,
            0x1680,
            0x2000,
            0x2001,
            0x2002,
            0x2003,
            0x2004,
            0x2005,
            0x2006,
            0x2007,
            0x2008,
            0x2009,
            0x200a,
            0x2028,
            0x2029,
            0x202f,
            0x205f,
            0x3000,
        ].contains(c as u32 as int),
{
    let all: Seq<int> = seq![
        0x9, 0xa, 0xb, 0xc, 0xd, 0x20, 0x85, 0xa0, 0x1680, 0x2000, 0x2001, 0x2002, 0x2003, 0x2004,
        0x2005, 0x2006, 0x2007, 0x2008, 0x2009, 0x200a, 0x2028, 0x2029, 0x202f, 0x205f, 0x3000,
    ];
    let n = c as u32 as int;
    if is_white(c) {
        let i: int = if n <= 0xd {
            n - 9
        } else if n == 0x20 {
            5
        } else if n == 0x85 {
            6
        } else if n == 0xa0 {
            7
        } else if n == 0x1680 {
            8
        } else if n <= 0x200a {
            n - 0x2000 + 9
        } else if n == 0x2028 {
            20
        } else if n == 0x2029 {
            21
        } else if n == 0x202f {
            22
        } else if n == 0x205f {
            23
        } else {
            24
        };
        assert(all[i] == n);
    }
}

proof fn lemma_trimmed_start_cut(s: Seq<char>) -> (k: int)
    ensures
        0 <= k <= s.len(),
        trimmed_start(s) == s.skip(k),
        forall|i: int| 0 <= i < k ==> is_white(#[trigger] s[i]),
        k < s.len() ==> !is_white(s[k]),
    decreases s.len(),
{
    if s.len() > 0 && is_white(s[0]) {
        let k = lemma_trimmed_start_cut(s.skip(1)) + 1;
        assert(s.skip(1).skip(k - 1) =~= s.skip(k));
        assert forall|i: int| 0 <= i < k implies is_white(#[trigger] s[i]) by {
            if i > 0 {
                assert(s[i] == s.skip(1)[i - 1]);
            }
        }
        k
    } else {
        assert(s.skip(0) =~= s);
        0
    }
}

proof fn lemma_trimmed_end_cut(s: Seq<char>) -> (k: int)
    ensures
        0 <= k <= s.len(),
        trimmed_end(s) == s.take(k),
        forall|i: int| k <= i < s.len() ==> is_white(#[trigger] s[i]),
        k > 0 ==> !is_white(s[k - 1]),
    decreases s.len(),
{
    if s.len() > 0 && is_white(s.last()) {
        let k = lemma_trimmed_end_cut(s.drop_last());
        assert(s.drop_last().take(k) =~= s.take(k));
        assert forall|i: int| k <= i < s.len() implies is_white(#[trigger] s[i]) by {
            if i < s.len() - 1 {
                assert(s[i] == s.drop_last()[i]);
            }
        }
        k
    } else {
        assert(s.take(s.len() as int) =~= s);
        s.len() as int
    }
}

/// Trimming takes white space off both ends and nothing else: what it leaves is
/// empty, or begins and ends with something other than white space.
pub proof fn law_trimming_takes_white_space_off_both_ends(s: Seq<char>)
    ensures
        exists|i: int, j: int|
            #![trigger s.subrange(i, j)]
            0 <= i <= j <= s.len() && trimmed(s) == s.subrange(i, j) && (forall|k: int|
                0 <= k < i || j <= k < s.len() ==> is_white(#[trigger] s[k])),
        trimmed(s).len() > 0 ==> !is_white(trimmed(s)[0]) && !is_white(trimmed(s).last()),
{
    let i = lemma_trimmed_start_cut(s);
    let t = s.skip(i);
    let k = lemma_trimmed_end_cut(t);
    assert(t.take(k) =~= s.subrange(i, i + k));
    assert forall|n: int| 0 <= n < i || i + k <= n < s.len() implies is_white(
        #[trigger] s[n],
    ) by {
        if n >= i + k {
            assert(s[n] == t[n - i]);
        }
    }
}

/// White space around a text makes no difference to what trimming leaves of it.
pub proof fn law_trimming_ignores_surrounding_white_space(a: Seq<char>, s: Seq<char>, b: Seq<char>)
    requires
        forall|i: int| 0 <= i < a.len() ==> is_white(#[trigger] a[i]),
        forall|i: int| 0 <= i < b.len() ==> is_white(#[trigger] b[i]),
        s.len() > 0,
        !is_white(s[0]),
        !is_white(s.last()),
    ensures
        trimmed(a + s + b) == s,
{
    let all = a + s + b;
    let n = a.len() as int;
    assert forall|i: int| 0 <= i < n implies is_white(#[trigger] all[i]) by {
        assert(all[i] == a[i]);
    }
    assert(all[n] == s[0]);
    lemma_trimmed_start(all, n);
    let t = all.skip(n);
    assert(t =~= s + b);
    let k = s.len() as int;
    assert forall|i: int| k <= i < t.len() implies is_white(#[trigger] t[i]) by {
        assert(t[i] == b[i - k]);
    }
    assert(t[k - 1] == s.last());
    lemma_trimmed_end(t, k);
    assert(t.take(k) =~= s);
}

/// Folding maps the letters `A` to `Z` to `a` to `z`, in order, and leaves every
/// other character as it is.
pub proof fn law_folding_maps_the_alphabet(c: char, k: int)
    ensures
        0 <= k < 26 ==> lower("ABCDEFGHIJKLMNOPQRSTUVWXYZ"@[k]) == "abcdefghijklmnopqrstuvwxyz"@[k],
        !"ABCDEFGHIJKLMNOPQRSTUVWXYZ"@.contains(c) ==> lower(c) == c,
        forall|s: Seq<char>, i: int|
            0 <= i < s.len() ==> #[trigger] lower_all(s)[i] == lower(s[i]),
        forall|s: Seq<char>| (#[trigger] lower_all(s)).len() == s.len(),
{
    reveal_strlit("ABCDEFGHIJKLMNOPQRSTUVWXYZ");
    reveal_strlit("abcdefghijklmnopqrstuvwxyz");
    let upper = "ABCDEFGHIJKLMNOPQRSTUVWXYZ"@;
    if 'A' <= c <= 'Z' {
        assert(upper[c as u32 - 65] == c);
    }
}

/// Splitting takes a text apart at every separator and keeps all the rest: a
/// text without separators is one piece, a separator and another such text
/// behind it add that text as a piece, and no piece holds a separator.
pub proof fn law_splitting_cuts_at_every_separator(s: Seq<char>, last: Seq<char>, c: char)
    requires
        !last.contains(c),
    ensures
        pieces(last, c) == seq![last],
        pieces(s + seq![c] + last, c) == pieces(s, c).push(last),
        forall|i: int| 0 <= i < pieces(s, c).len() ==> !(#[trigger] pieces(s, c)[i]).contains(c),
        pieces(s, c).len() > 0,
    decreases s.len(),
{
    lemma_pieces_without_separator(last, c);
    lemma_pieces_append(s, last, c);
    lemma_position(s, c);
    let i = position(s, c);
    if i < s.len() {
        let rest = s.skip(i + 1);
        law_splitting_cuts_at_every_separator(rest, last, c);
        assert forall|k: int| 0 <= k < pieces(s, c).len() implies !(
        #[trigger] pieces(s, c)[k]).contains(c) by {
            if k > 0 {
                assert(pieces(s, c)[k] == pieces(rest, c)[k - 1]);
            } else {
                assert(pieces(s, c)[0] == s.take(i));
                assert forall|n: int| 0 <= n < i implies s.take(i)[n] != c by {
                    assert(s[n] != c);
                }
            }
        }
    } else {
        assert forall|n: int| 0 <= n < s.len() implies s[n] != c by {
            assert(s[n] != c);
        }
        assert(!s.contains(c));
    }
}

/// A numeral is made of the digits of its base, each in its place, and the
/// first of several is not zero.
pub proof fn law_numerals_have_a_digit_for_every_place(n: nat, d: nat, base: nat)
    requires
        base == 10 || base == 16,
        d < base,
    ensures
        numeral(d, base) == seq!["0123456789abcdef"@[d as int]],
        n > 0 ==> numeral(n * base + d, base) == numeral(n, base) + numeral(d, base),
        n > 0 ==> numeral(n, base)[0] != '0',
    decreases n,
{
    reveal_strlit("0123456789abcdef");
    if n > 0 {
        assert((n * base + d) / base == n && (n * base + d) % base == d && n * base
            + d >= base) by (nonlinear_arith)
            requires
                n > 0,
                d < base,
                base >= 2,
        ;
        assert(numeral(n * base + d, base) =~= numeral(n, base) + numeral(d, base));
        if n >= base {
            assert(0 < n / base < n) by (nonlinear_arith)
                requires
                    n >= base,
                    base >= 2,
            ;
            law_numerals_have_a_digit_for_every_place(n / base, d, base);
        }
    }
}

/// A run of digits is read place by place, and reading a number that was
/// written in decimal gives it back.
pub proof fn law_decimal_numbers_are_read_back(n: nat, s: Seq<char>, d: nat)
    requires
        d < 10,
    ensures
        decimal_value(decimal(n)) == n,
        all_digits(decimal(n)),
        decimal_value(Seq::<char>::empty()) == 0,
        decimal_value(s.push("0123456789"@[d as int])) == decimal_value(s) * 10 + d,
{
    lemma_decimal_value_of_decimal(n);
    reveal_strlit("0123456789");
    assert(s.push("0123456789"@[d as int]).drop_last() =~= s);
}

/// Padding puts zeros in front of a text until it has the width.
pub proof fn law_padding_puts_zeros_in_front(s: Seq<char>, width: nat)
    ensures
        ({
            let out = zero_padded(s, width);
            &&& out.len() == if s.len() < width {
                width
            } else {
                s.len()
            }
            &&& out.skip(out.len() - s.len()) == s
            &&& forall|i: int| 0 <= i < out.len() - s.len() ==> #[trigger] out[i] == '0'
        }),
    decreases width - s.len(),
{
    let out = zero_padded(s, width);
    if s.len() < width {
        let next = seq!['0'] + s;
        law_padding_puts_zeros_in_front(next, width);
        let k = out.len() - s.len();
        assert(out[k - 1] == out.skip(k - 1)[0]);
        assert(out.skip(k) =~= next.skip(1)) by {
            assert(out.skip(k) =~= out.skip(k - 1).skip(1));
        }
        assert(next.skip(1) =~= s);
    } else {
        assert(out.skip(0) =~= s);
    }
}

/// A text begins with every beginning of it and with nothing else.
pub proof fn law_prefixes_are_beginnings(s: Seq<char>, prefix: Seq<char>, rest: Seq<char>)
    ensures
        has_prefix(prefix + rest, prefix),
        has_prefix(s, prefix) ==> s == prefix + s.skip(prefix.len() as int),
{
    assert((prefix + rest).take(prefix.len() as int) =~= prefix);
    if has_prefix(s, prefix) {
        assert(s =~= s.take(prefix.len() as int) + s.skip(prefix.len() as int));
    }
}

/// A run of digits is made of the ten digits, and has at least one.
pub proof fn law_digits_are_the_ten_digits(s: Seq<char>, c: char)
    ensures
        is_digit(c) <==> "0123456789"@.contains(c),
        !all_digits(Seq::<char>::empty()),
        all_digits(s.push(c)) <==> (s.len() == 0 || all_digits(s)) && is_digit(c),
{
    reveal_strlit("0123456789");
    let ten = "0123456789"@;
    if is_digit(c) {
        assert(ten[c as u32 - 48] == c);
    }
    let t = s.push(c);
    assert(t[s.len() as int] == c);
    if all_digits(t) {
        assert forall|i: int| 0 <= i < s.len() implies is_digit(#[trigger] s[i]) by {
            assert(t[i] == s[i]);
        }
        assert(is_digit(t[s.len() as int]));
    }
}

} // verus!

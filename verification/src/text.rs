//! Text handling: characters, their order, and numbers written out.

use vstd::prelude::*;

verus! {

/// The contents of a list of strings.
pub open spec fn texts(strings: Seq<String>) -> Seq<Seq<char>> {
    strings.map_values(|s: String| s@)
}

/// The contents of a list of string slices.
pub open spec fn str_texts(strings: Seq<&str>) -> Seq<Seq<char>> {
    strings.map_values(|s: &str| s@)
}

/// The characters of `text`.
pub fn chars_of(text: &str) -> (chars: Vec<char>)
    ensures
        chars@ == text@,
{
    let mut chars: Vec<char> = Vec::new();
    for c in it: text.chars()
        invariant
            it.seq() == text@,
            chars@ == text@.take(it.index() as int),
    {
        chars.push(c);
        assert(chars@ =~= text@.take(it.index() + 1));
    }
    assert(text@.take(text@.len() as int) =~= text@);
    chars
}

/// Whether two texts are the same.
pub fn same_text(a: &str, b: &str) -> (same: bool)
    ensures
        same == (a@ == b@),
{
    let left: Vec<char> = chars_of(a);
    let right: Vec<char> = chars_of(b);
    if left.len() != right.len() {
        return false;
    }
    let mut i: usize = 0;
    while i < left.len()
        invariant
            i <= left@.len(),
            left@ == a@,
            right@ == b@,
            left@.len() == right@.len(),
            forall|j: int| 0 <= j < i ==> left@[j] == right@[j],
        decreases left@.len() - i,
    {
        if left[i] != right[i] {
            return false;
        }
        i += 1;
    }
    assert(a@ =~= b@);
    true
}

/// The contents of a string that may be missing.
pub open spec fn opt_text(value: Option<String>) -> Option<Seq<char>> {
    match value {
        Some(text) => Some(text@),
        None => None,
    }
}

/// Whether `text` begins with `prefix`.
pub fn starts_with(text: &str, prefix: &str) -> (starts: bool)
    ensures
        starts == prefix@.is_prefix_of(text@),
{
    let whole: Vec<char> = chars_of(text);
    let head: Vec<char> = chars_of(prefix);
    if whole.len() < head.len() {
        return false;
    }
    let mut i: usize = 0;
    while i < head.len()
        invariant
            i <= head@.len() <= whole@.len(),
            whole@ == text@,
            head@ == prefix@,
            forall|j: int| 0 <= j < i ==> whole@[j] == head@[j],
        decreases head@.len() - i,
    {
        if whole[i] != head[i] {
            assert(text@.subrange(0, prefix@.len() as int)[i as int] != prefix@[i as int]);
            return false;
        }
        i += 1;
    }
    assert(text@.subrange(0, prefix@.len() as int) =~= prefix@);
    true
}

// ---------------- Order ----------------

/// `a` stands before `b`: at the first difference it has the smaller character,
/// or it ends there.
pub open spec fn text_before(a: Seq<char>, b: Seq<char>) -> bool
    decreases a.len(),
{
    if b.len() == 0 {
        false
    } else if a.len() == 0 {
        true
    } else {
        (a[0] as int) < (b[0] as int) || (a[0] == b[0] && text_before(
            a.drop_first(),
            b.drop_first(),
        ))
    }
}

fn code_of(c: char) -> (code: u32)
    ensures
        code == c as int,
{
    c as u32
}

/// Whether `a` stands before `b`.
pub fn is_before(a: &str, b: &str) -> (before: bool)
    ensures
        before == text_before(a@, b@),
{
    let left: Vec<char> = chars_of(a);
    let right: Vec<char> = chars_of(b);
    let mut i: usize = 0;
    assert(a@.skip(0) =~= a@);
    assert(b@.skip(0) =~= b@);
    loop
        invariant
            left@ == a@,
            right@ == b@,
            i <= left@.len(),
            i <= right@.len(),
            text_before(a@, b@) == text_before(a@.skip(i as int), b@.skip(i as int)),
        decreases left@.len() - i,
    {
        if i == right.len() {
            return false;
        }
        if i == left.len() {
            return true;
        }
        let l: char = left[i];
        let r: char = right[i];
        if l != r {
            return code_of(l) < code_of(r);
        }
        assert(a@.skip(i as int).drop_first() =~= a@.skip(i + 1));
        assert(b@.skip(i as int).drop_first() =~= b@.skip(i + 1));
        i += 1;
    }
}

/// The order is total and strict: of two texts exactly one stands before the
/// other, unless they are the same.
pub proof fn lemma_text_order_is_total(a: Seq<char>, b: Seq<char>)
    ensures
        !(text_before(a, b) && text_before(b, a)),
        text_before(a, b) ==> a != b,
        a != b ==> text_before(a, b) || text_before(b, a),
    decreases a.len(),
{
    if a.len() > 0 && b.len() > 0 {
        lemma_text_order_is_total(a.drop_first(), b.drop_first());
        if a[0] == b[0] && a.drop_first() == b.drop_first() {
            assert(a =~= seq![a[0]] + a.drop_first());
            assert(b =~= seq![b[0]] + b.drop_first());
        }
    } else if a.len() == 0 && b.len() == 0 {
        assert(a =~= b);
    }
}

pub proof fn lemma_text_order_is_transitive(a: Seq<char>, b: Seq<char>, c: Seq<char>)
    requires
        text_before(a, b),
        text_before(b, c),
    ensures
        text_before(a, c),
    decreases a.len(),
{
    if a.len() > 0 && a[0] == b[0] && b[0] == c[0] {
        lemma_text_order_is_transitive(a.drop_first(), b.drop_first(), c.drop_first());
    }
}

// ---------------- Numbers ----------------

/// The character for a digit of a number system up to base sixteen, in lower case.
pub open spec fn digit(d: nat) -> char {
    if d < 10 {
        (48 + d) as char
    } else {
        (87 + d) as char
    }
}

/// `n` written in base `base`, without leading zeros.
pub open spec fn numeral(n: nat, base: nat) -> Seq<char>
    decreases n,
{
    if n < base || base < 2 {
        seq![digit(n)]
    } else {
        proof {
            assert(n / base < n) by (nonlinear_arith)
                requires
                    n >= base,
                    base >= 2,
            ;
        }
        numeral(n / base, base).push(digit(n % base))
    }
}

/// `c` is a decimal digit.
pub open spec fn is_decimal_digit(c: char) -> bool {
    48 <= c as int <= 57
}

/// The number that a row of decimal digits writes.
pub open spec fn digits_value(digits: Seq<char>) -> nat
    decreases digits.len(),
{
    if digits.len() == 0 {
        0
    } else {
        (digits_value(digits.drop_last()) * 10 + (digits.last() as int - 48)) as nat
    }
}

/// A text without the `+` at its start, where there is one.
pub open spec fn unsigned_part(text: Seq<char>) -> Seq<char> {
    if text.len() > 0 && text[0] == '+' {
        text.drop_first()
    } else {
        text
    }
}

/// The number that a text writes: an optional `+`, then at least one decimal digit, and
/// nothing else.
pub open spec fn decimal_value(text: Seq<char>) -> Option<nat> {
    let digits = unsigned_part(text);
    if digits.len() > 0 && forall|i: int|
        0 <= i < digits.len() ==> is_decimal_digit(#[trigger] digits[i]) {
        Some(digits_value(digits))
    } else {
        None
    }
}

/// The number that a text writes, where it is at most `max`.
pub open spec fn decimal_up_to(text: Seq<char>, max: nat) -> Option<nat> {
    match decimal_value(text) {
        Some(value) if value <= max => Some(value),
        _ => None,
    }
}

/// More digits never make a number smaller.
proof fn lemma_digits_value_grows(digits: Seq<char>, k: int)
    requires
        0 <= k <= digits.len(),
        forall|i: int| 0 <= i < digits.len() ==> is_decimal_digit(#[trigger] digits[i]),
    ensures
        digits_value(digits.take(k)) <= digits_value(digits),
    decreases digits.len(),
{
    if k == digits.len() {
        assert(digits.take(k) =~= digits);
    } else {
        let front = digits.drop_last();
        assert(is_decimal_digit(digits[digits.len() - 1]));
        assert forall|i: int| 0 <= i < front.len() implies is_decimal_digit(
            #[trigger] front[i],
        ) by {
            assert(is_decimal_digit(digits[i]));
        }
        lemma_digits_value_grows(front, k);
        assert(front.take(k) =~= digits.take(k));
    }
}

/// Reads the number that a text writes; `None` where it writes none, or one beyond
/// `max`.
pub fn read_decimal(text: &str, max: u64) -> (number: Option<u64>)
    ensures
        match number {
            Some(value) => decimal_up_to(text@, max as nat) == Some(value as nat),
            None => decimal_up_to(text@, max as nat) is None,
        },
{
    let chars: Vec<char> = chars_of(text);
    let start: usize = if chars.len() > 0 && chars[0] == '+' {
        1
    } else {
        0
    };
    let ghost digits = unsigned_part(text@);
    assert(digits =~= chars@.skip(start as int));
    if chars.len() == start {
        return None;
    }
    let mut value: u64 = 0;
    let mut k: usize = start;
    while k < chars.len()
        invariant
            start <= k <= chars@.len(),
            start < chars@.len(),
            chars@ == text@,
            digits == unsigned_part(text@),
            digits == chars@.skip(start as int),
            value <= max,
            value == digits_value(digits.take(k - start)),
            forall|i: int| 0 <= i < k - start ==> is_decimal_digit(#[trigger] digits[i]),
        decreases chars@.len() - k,
    {
        let code: u32 = code_of(chars[k]);
        let ghost at = k - start;
        assert(digits[at] == chars@[k as int]);
        if code < 48 || code > 57 {
            assert(!is_decimal_digit(digits[at]));
            return None;
        }
        let grown: u128 = value as u128 * 10 + (code - 48) as u128;
        assert(digits.take(at + 1).drop_last() =~= digits.take(at));
        assert(digits.take(at + 1).last() == digits[at]);
        if grown > max as u128 {
            proof {
                if decimal_value(text@) is Some {
                    lemma_digits_value_grows(digits, at + 1);
                }
            }
            return None;
        }
        value = grown as u64;
        k += 1;
    }
    assert(digits.take(k - start) =~= digits);
    Some(value)
}

fn digit_text(d: u64) -> (text: &'static str)
    requires
        d < 16,
    ensures
        text@ == seq![digit(d as nat)],
{
    let text: &'static str = match d {
        0 => "0",
        1 => "1",
        2 => "2",
        3 => "3",
        4 => "4",
        5 => "5",
        6 => "6",
        7 => "7",
        8 => "8",
        9 => "9",
        10 => "a",
        11 => "b",
        12 => "c",
        13 => "d",
        14 => "e",
        _ => "f",
    };
    proof {
        reveal_strlit("0");
        reveal_strlit("1");
        reveal_strlit("2");
        reveal_strlit("3");
        reveal_strlit("4");
        reveal_strlit("5");
        reveal_strlit("6");
        reveal_strlit("7");
        reveal_strlit("8");
        reveal_strlit("9");
        reveal_strlit("a");
        reveal_strlit("b");
        reveal_strlit("c");
        reveal_strlit("d");
        reveal_strlit("e");
        reveal_strlit("f");
        assert(text@ =~= seq![digit(d as nat)]);
    }
    text
}

/// Appends `n`, written in base `base`, to `out`.
pub fn push_numeral(out: &mut String, n: u64, base: u64)
    requires
        2 <= base <= 16,
    ensures
        final(out)@ == old(out)@ + numeral(n as nat, base as nat),
    decreases n,
{
    if n >= base {
        assert(n / base < n) by (nonlinear_arith)
            requires
                n >= base,
                base >= 2,
        ;
        push_numeral(out, n / base, base);
    }
    assert(n % base < base) by (nonlinear_arith)
        requires
            base >= 2,
    ;
    if n < base {
        out.append(digit_text(n));
    } else {
        out.append(digit_text(n % base));
    }
    assert(out@ =~= old(out)@ + numeral(n as nat, base as nat));
}

// ---------------- What the operations mean ----------------

/// Texts are ordered by their first difference: behind any common start, the smaller
/// character comes first, and a text comes before its own continuations.
pub proof fn law_text_order_goes_by_the_first_difference(
    start: Seq<char>,
    x: char,
    y: char,
    a: Seq<char>,
    b: Seq<char>,
)
    ensures
        (x as int) < (y as int) ==> text_before(start.push(x) + a, start.push(y) + b),
        text_before(start, start.push(x) + a),
        !text_before(start, start),
        !text_before(start.push(x) + a, start),
    decreases start.len(),
{
    let left = start.push(x) + a;
    let right = start.push(y) + b;
    if start.len() > 0 {
        let rest = start.drop_first();
        law_text_order_goes_by_the_first_difference(rest, x, y, a, b);
        assert(left.drop_first() =~= rest.push(x) + a);
        assert(right.drop_first() =~= rest.push(y) + b);
        assert(left[0] == start[0] && right[0] == start[0]);
    } else {
        assert(left[0] == x && right[0] == y);
    }
}

/// A number is written without leading zeros, in decimal digits, and reading them gives
/// the number back; in base sixteen the digits behind nine are the letters from `a` on.
pub proof fn law_numerals_read_back(n: nat)
    ensures
        decimal_value(numeral(n, 10)) == Some(n),
        n > 0 ==> numeral(n, 10)[0] != '0',
        n < 10 ==> numeral(n, 16).len() == 1 && numeral(n, 16)[0] as int == '0' as int + n,
        10 <= n < 16 ==> numeral(n, 16).len() == 1 && numeral(n, 16)[0] as int == 'a' as int + n
            - 10,
        n >= 16 ==> numeral(n, 16) == numeral(n / 16, 16) + numeral(n % 16, 16),
    decreases n,
{
    lemma_numeral_digits(n);
    assert(unsigned_part(numeral(n, 10)) =~= numeral(n, 10)) by {
        assert(is_decimal_digit(numeral(n, 10)[0]));
    }
    if n >= 16 {
        assert(numeral(n, 16) =~= numeral(n / 16, 16) + numeral(n % 16, 16));
    }
}

proof fn lemma_numeral_digits(n: nat)
    ensures
        numeral(n, 10).len() > 0,
        digits_value(numeral(n, 10)) == n,
        forall|i: int|
            0 <= i < numeral(n, 10).len() ==> is_decimal_digit(#[trigger] numeral(n, 10)[i]),
        n > 0 ==> numeral(n, 10)[0] != '0',
    decreases n,
{
    let written = numeral(n, 10);
    if n < 10 {
        assert(written.drop_last() =~= Seq::empty());
        assert(digits_value(Seq::<char>::empty()) == 0);
    } else {
        lemma_numeral_digits(n / 10);
        assert(written.drop_last() =~= numeral(n / 10, 10));
        assert forall|i: int| 0 <= i < written.len() implies is_decimal_digit(
            #[trigger] written[i],
        ) by {
            if i < written.len() - 1 {
                assert(written[i] == numeral(n / 10, 10)[i]);
            }
        }
    }
}

/// Decimal numbers are read digit by digit: one digit writes itself, one more digit
/// makes ten times the number plus the digit, a `+` in front changes nothing, and
/// anything else writes no number.
pub proof fn law_decimals_are_read_digit_by_digit(text: Seq<char>, c: char, at: int)
    ensures
        '0' as int <= c as int <= '9' as int ==> decimal_value(seq![c]) == Some(
            (c as int - '0' as int) as nat,
        ),
        '0' as int <= c as int <= '9' as int && decimal_value(text) is Some ==> decimal_value(
            text.push(c),
        ) == Some((decimal_value(text)->0 * 10 + (c as int - '0' as int)) as nat),
        decimal_value(Seq::empty()) is None,
        decimal_value(seq!['+']) is None,
        text.len() > 0 && text[0] != '+' ==> decimal_value(seq!['+'] + text) == decimal_value(text),
        text.len() > 0 && text[0] == '+' ==> decimal_value(seq!['+'] + text) is None,
        0 <= at < text.len() && !('0' as int <= text[at] as int <= '9' as int) && !(at == 0
            && text[0] == '+') ==> decimal_value(text) is None,
{
    assert(seq![c].drop_last() =~= Seq::empty());
    assert(digits_value(Seq::<char>::empty()) == 0);
    let digits = unsigned_part(text);
    let plus = seq!['+'] + text;
    assert(plus.drop_first() =~= text);
    assert(seq!['+'].drop_first() =~= Seq::<char>::empty());
    if '0' as int <= c as int <= '9' as int {
        assert(unsigned_part(seq![c]) =~= seq![c]);
        assert(digits_value(seq![c]) == (c as int - 48) as nat);
        assert(is_decimal_digit(c));
        if decimal_value(text) is Some {
            let more = text.push(c);
            assert(unsigned_part(more) =~= digits.push(c));
            assert(digits.push(c).drop_last() =~= digits);
            assert forall|i: int| 0 <= i < digits.push(c).len() implies is_decimal_digit(
                #[trigger] digits.push(c)[i],
            ) by {
                if i < digits.len() {
                    assert(is_decimal_digit(digits[i]));
                }
            }
        }
    }
    if text.len() > 0 && text[0] != '+' {
        assert(unsigned_part(plus) =~= text);
        assert(unsigned_part(text) =~= text);
    }
    if text.len() > 0 && text[0] == '+' {
        assert(unsigned_part(plus) =~= text);
        assert(!is_decimal_digit(text[0]));
    }
    if 0 <= at < text.len() && !('0' as int <= text[at] as int <= '9' as int) && !(at == 0
        && text[0] == '+') {
        if text[0] == '+' {
            assert(digits[at - 1] == text[at]);
            assert(!is_decimal_digit(digits[at - 1]));
        } else {
            assert(!is_decimal_digit(digits[at]));
        }
    }
}

/// A limit refuses exactly the numbers beyond it.
pub proof fn law_limits_refuse_larger_numbers(text: Seq<char>, max: nat)
    ensures
        decimal_up_to(text, max) is Some <==> (decimal_value(text) matches Some(value) && value
            <= max),
        decimal_up_to(text, max) is Some ==> decimal_up_to(text, max) == decimal_value(text),
{
}

/// The contents of strings are theirs, one for one.
pub proof fn law_contents_are_those_of_the_strings(strings: Seq<String>, slices: Seq<&str>, k: int)
    ensures
        texts(strings).len() == strings.len(),
        0 <= k < strings.len() ==> texts(strings)[k] == strings[k]@ && opt_text(Some(strings[k]))
            == Some(strings[k]@),
        opt_text(None) is None,
        str_texts(slices).len() == slices.len(),
        0 <= k < slices.len() ==> str_texts(slices)[k] == slices[k]@,
{
}

} // verus!

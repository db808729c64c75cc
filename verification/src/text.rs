//! Text as sequences of Unicode scalar values: order, search, splitting and
//! the numerals that the op log and the fingerprints are written with.

use vstd::prelude::*;
use vstd::string::StrSliceExecFns;
use vstd::string::StringExecFns;

verus! {

/// `a` comes strictly before `b` in the order of strings: the first scalar
/// value in which they differ decides, and a proper prefix comes first.
pub open spec fn lex_lt(a: Seq<char>, b: Seq<char>) -> bool
    decreases b.len(),
{
    if b.len() == 0 {
        false
    } else if a.len() == 0 {
        true
    } else if a[0] != b[0] {
        (a[0] as int) < (b[0] as int)
    } else {
        lex_lt(a.drop_first(), b.drop_first())
    }
}

proof fn lemma_char_value(c: char)
    ensures
        (c as u32) as int == c as int,
{
}

/// No string comes before itself.
pub proof fn lemma_lex_irreflexive(a: Seq<char>)
    ensures
        !lex_lt(a, a),
    decreases a.len(),
{
    if a.len() > 0 {
        lemma_lex_irreflexive(a.drop_first());
    }
}

/// Of two different strings, one comes before the other.
pub proof fn lemma_lex_total(a: Seq<char>, b: Seq<char>)
    ensures
        a != b ==> lex_lt(a, b) || lex_lt(b, a),
    decreases a.len(),
{
    if a.len() > 0 && b.len() > 0 && a[0] == b[0] {
        lemma_lex_total(a.drop_first(), b.drop_first());
        if a.drop_first() == b.drop_first() {
            assert(a =~= seq![a[0]] + a.drop_first());
            assert(b =~= seq![b[0]] + b.drop_first());
        }
    } else if a.len() > 0 && b.len() > 0 {
        assert(a[0] as int != b[0] as int);
    } else if a.len() == 0 && b.len() == 0 {
        assert(a =~= b);
    }
}

/// The order of strings is transitive.
pub proof fn lemma_lex_transitive(a: Seq<char>, b: Seq<char>, c: Seq<char>)
    requires
        lex_lt(a, b),
        lex_lt(b, c),
    ensures
        lex_lt(a, c),
    decreases a.len(),
{
    if a.len() > 0 && a[0] == b[0] && b[0] == c[0] {
        lemma_lex_transitive(a.drop_first(), b.drop_first(), c.drop_first());
    }
}

/// Of two strings at most one comes before the other.
pub proof fn lemma_lex_asymmetric(a: Seq<char>, b: Seq<char>)
    requires
        lex_lt(a, b),
    ensures
        !lex_lt(b, a),
        a != b,
{
    lemma_lex_irreflexive(a);
    if lex_lt(b, a) {
        lemma_lex_transitive(a, b, a);
    }
}

/// The characters of `s`, in order.
pub fn chars_of(s: &str) -> (chars: Vec<char>)
    ensures
        chars@ == s@,
{
    let mut chars: Vec<char> = Vec::new();
    for c in it: s.chars()
        invariant
            it.seq() == s@,
            chars@ == s@.take(it.index() as int),
    {
        chars.push(c);
    }
    assert(s@.take(s@.len() as int) =~= s@);
    chars
}

/// Whether `a` and `b` hold the same characters.
pub fn same_text(a: &str, b: &str) -> (same: bool)
    ensures
        same == (a@ == b@),
{
    let mut left = a.chars();
    let mut right = b.chars();
    let ghost mut n: int = 0;
    loop
        invariant
            0 <= n <= a@.len(),
            n <= b@.len(),
            vstd::std_specs::iter::IteratorSpec::remaining(&left) == a@.skip(n),
            vstd::std_specs::iter::IteratorSpec::remaining(&right) == b@.skip(n),
            a@.take(n) == b@.take(n),
        decreases a@.len() - n,
    {
        let x = left.next();
        let y = right.next();
        match (x, y) {
            (Some(c), Some(d)) => {
                if c != d {
                    return false;
                }
                proof {
                    n = n + 1;
                }
            },
            (None, None) => {
                assert(a@ =~= a@.take(n));
                assert(b@ =~= b@.take(n));
                return true;
            },
            _ => {
                return false;
            },
        }
    }
}

/// Whether `a` comes strictly before `b`.
pub fn text_lt(a: &str, b: &str) -> (less: bool)
    ensures
        less == lex_lt(a@, b@),
{
    let mut left = a.chars();
    let mut right = b.chars();
    let ghost mut n: int = 0;
    assert(a@.skip(0) =~= a@);
    assert(b@.skip(0) =~= b@);
    loop
        invariant
            0 <= n <= a@.len(),
            n <= b@.len(),
            vstd::std_specs::iter::IteratorSpec::remaining(&left) == a@.skip(n),
            vstd::std_specs::iter::IteratorSpec::remaining(&right) == b@.skip(n),
            lex_lt(a@, b@) == lex_lt(a@.skip(n), b@.skip(n)),
        decreases a@.len() - n,
    {
        let x = left.next();
        let y = right.next();
        match (x, y) {
            (Some(c), Some(d)) => {
                if c != d {
                    proof {
                        lemma_char_value(c);
                        lemma_char_value(d);
                    }
                    return (c as u32) < (d as u32);
                }
                proof {
                    assert(a@.skip(n).drop_first() =~= a@.skip(n + 1));
                    assert(b@.skip(n).drop_first() =~= b@.skip(n + 1));
                    n = n + 1;
                }
            },
            (None, Some(_)) => {
                return true;
            },
            _ => {
                return false;
            },
        }
    }
}

/// Whether `s` begins with `prefix`.
pub fn starts_with(s: &str, prefix: &str) -> (yes: bool)
    ensures
        yes == prefix@.is_prefix_of(s@),
{
    let mut left = s.chars();
    let mut right = prefix.chars();
    let ghost mut n: int = 0;
    loop
        invariant
            0 <= n <= s@.len(),
            n <= prefix@.len(),
            vstd::std_specs::iter::IteratorSpec::remaining(&left) == s@.skip(n),
            vstd::std_specs::iter::IteratorSpec::remaining(&right) == prefix@.skip(n),
            s@.take(n) == prefix@.take(n),
        decreases prefix@.len() - n,
    {
        let y = right.next();
        match y {
            None => {
                assert(prefix@ =~= prefix@.take(n));
                return true;
            },
            Some(d) => {
                assert(prefix@[n] == d);
                match left.next() {
                    None => {
                        return false;
                    },
                    Some(c) => {
                        assert(s@[n] == c);
                        if c != d {
                            proof {
                                if prefix@.len() <= s@.len() {
                                    assert(s@.subrange(0, prefix@.len() as int)[n] == s@[n]);
                                }
                            }
                            return false;
                        }
                        proof {
                            n = n + 1;
                        }
                    },
                }
            },
        }
    }
}

/// What follows `prefix` in `s`, where `s` begins with it.
pub fn strip_prefix(s: &str, prefix: &str) -> (rest: Option<String>)
    ensures
        rest is Some <==> prefix@.is_prefix_of(s@),
        rest matches Some(r) ==> r@ == s@.skip(prefix@.len() as int),
{
    if starts_with(s, prefix) {
        Some(s.substring_char(prefix.unicode_len(), s.unicode_len()).to_owned())
    } else {
        None
    }
}

/// `i` is the first place at which `c` stands in `s`.
pub open spec fn is_first_char(s: Seq<char>, c: char, i: int) -> bool {
    &&& 0 <= i < s.len()
    &&& s[i] == c
    &&& forall|j: int| 0 <= j < i ==> s[j] != c
}

/// `s` cut at the first `c`: what stands before it and what stands after.
pub open spec fn cut(s: Seq<char>, c: char) -> Option<(Seq<char>, Seq<char>)> {
    if exists|i: int| is_first_char(s, c, i) {
        let i = choose|i: int| is_first_char(s, c, i);
        Some((s.take(i), s.skip(i + 1)))
    } else {
        None
    }
}

pub proof fn lemma_cut_at(s: Seq<char>, c: char, i: int)
    requires
        is_first_char(s, c, i),
    ensures
        cut(s, c) == Some((s.take(i), s.skip(i + 1))),
{
    let k = choose|k: int| is_first_char(s, c, k);
    assert(is_first_char(s, c, k));
    assert(k == i);
}

pub proof fn lemma_no_cut(s: Seq<char>, c: char)
    requires
        !s.contains(c),
    ensures
        cut(s, c) is None,
{
    if exists|i: int| is_first_char(s, c, i) {
        let i = choose|i: int| is_first_char(s, c, i);
        assert(s[i] == c);
    }
}

/// The place of the first `c` in `s`, counted in characters.
fn find_char(s: &str, c: char) -> (place: Option<usize>)
    ensures
        match place {
            Some(i) => is_first_char(s@, c, i as int),
            None => !s@.contains(c),
        },
{
    let chars = chars_of(s);
    let mut i: usize = 0;
    while i < chars.len()
        invariant
            chars@ == s@,
            i <= chars.len(),
            forall|j: int| 0 <= j < i ==> s@[j] != c,
        decreases chars.len() - i,
    {
        if chars[i] == c {
            return Some(i);
        }
        i += 1;
    }
    None
}

/// Whether `c` stands anywhere in `s`.
pub fn contains_char(s: &str, c: char) -> (yes: bool)
    ensures
        yes == s@.contains(c),
{
    match find_char(s, c) {
        Some(_) => true,
        None => false,
    }
}

/// Cuts `s` at the first `c`.
pub fn split_once(s: &str, c: char) -> (halves: Option<(String, String)>)
    ensures
        match halves {
            Some((head, tail)) => cut(s@, c) == Some((head@, tail@)),
            None => cut(s@, c) is None,
        },
{
    match find_char(s, c) {
        Some(i) => {
            proof {
                lemma_cut_at(s@, c, i as int);
            }
            let n = s.unicode_len();
            Some((s.substring_char(0, i).to_owned(), s.substring_char(i + 1, n).to_owned()))
        },
        None => {
            proof {
                lemma_no_cut(s@, c);
            }
            None
        },
    }
}

/// `s` cut at every `c`: one piece more than there are `c` in `s`.
pub open spec fn pieces(s: Seq<char>, c: char) -> Seq<Seq<char>>
    decreases s.len(),
{
    match cut(s, c) {
        Some((head, tail)) => if tail.len() < s.len() {
            seq![head] + pieces(tail, c)
        } else {
            seq![s]
        },
        None => seq![s],
    }
}

/// The views of strings.
pub open spec fn texts(s: Seq<String>) -> Seq<Seq<char>> {
    s.map_values(|t: String| t@)
}

/// Cuts `s` at every `c`.
pub fn split_all(s: &str, c: char) -> (parts: Vec<String>)
    ensures
        texts(parts@) == pieces(s@, c),
{
    let mut parts: Vec<String> = Vec::new();
    let mut rest: String = s.to_owned();
    loop
        invariant
            pieces(s@, c) == texts(parts@) + pieces(rest@, c),
        decreases rest@.len(),
    {
        let ghost before = parts@;
        match split_once(rest.as_str(), c) {
            Some((head, tail)) => {
                parts.push(head);
                assert(texts(parts@) =~= texts(before).push(head@));
                assert(pieces(s@, c) =~= texts(parts@) + pieces(tail@, c));
                rest = tail;
            },
            None => {
                let ghost last = rest@;
                parts.push(rest);
                assert(texts(parts@) =~= texts(before).push(last));
                assert(texts(parts@) =~= pieces(s@, c));
                return parts;
            },
        }
    }
}

/// Strings put end to end with `sep` between neighbours.
pub open spec fn joined(parts: Seq<Seq<char>>, sep: Seq<char>) -> Seq<char>
    decreases parts.len(),
{
    if parts.len() == 0 {
        Seq::empty()
    } else if parts.len() == 1 {
        parts[0]
    } else {
        joined(parts.drop_last(), sep) + sep + parts.last()
    }
}

/// Puts strings end to end with `sep` between neighbours.
pub fn join(parts: &Vec<String>, sep: &str) -> (text: String)
    ensures
        text@ == joined(texts(parts@), sep@),
{
    let mut text = String::new();
    let mut i: usize = 0;
    let ghost all = texts(parts@);
    while i < parts.len()
        invariant
            i <= parts.len(),
            all == texts(parts@),
            text@ == joined(all.take(i as int), sep@),
        decreases parts.len() - i,
    {
        proof {
            assert(all.take(i + 1).drop_last() =~= all.take(i as int));
            assert(all.take(i + 1).last() == parts@[i as int]@);
        }
        if i > 0 {
            text.append(sep);
        }
        text.append(parts[i].as_str());
        assert(text@ =~= joined(all.take(i + 1), sep@));
        i += 1;
    }
    assert(all.take(all.len() as int) =~= all);
    text
}

/// The digit for a value below sixteen: `0` to `9`, then `a` to `f`.
pub open spec fn digit(d: nat) -> char {
    if d < 10 {
        (48 + d) as char
    } else {
        (87 + d) as char
    }
}

/// `n` written in `radix`, without leading zeros.
pub open spec fn numeral(n: nat, radix: nat) -> Seq<char>
    decreases n,
{
    if radix < 2 || n < radix {
        seq![digit(n)]
    } else {
        proof {
            assert(n / radix < n) by (nonlinear_arith)
                requires
                    2 <= radix <= n,
            ;
        }
        numeral(n / radix, radix).push(digit(n % radix))
    }
}

/// The text of one digit.
fn digit_text(d: u128) -> (s: &'static str)
    requires
        d < 16,
    ensures
        s@ == seq![digit(d as nat)],
{
    proof {
        reveal_strlit("0");
        reveal_strlit("1");
        reveal_strlit("2");
        reveal_strlit("3");
        reveal_strlit("4");
        reveal_strlit("5");
        reveal_strlit("6");
        reveal_strlit("7");
        reveal_strlit("8");
        reveal_strlit("9");
        reveal_strlit("a");
        reveal_strlit("b");
        reveal_strlit("c");
        reveal_strlit("d");
        reveal_strlit("e");
        reveal_strlit("f");
    }
    let s = match d {
        0 => "0",
        1 => "1",
        2 => "2",
        3 => "3",
        4 => "4",
        5 => "5",
        6 => "6",
        7 => "7",
        8 => "8",
        9 => "9",
        10 => "a",
        11 => "b",
        12 => "c",
        13 => "d",
        14 => "e",
        _ => "f",
    };
    assert(s@ =~= seq![digit(d as nat)]);
    s
}

/// Writes `n` in `radix`.
fn write_numeral(n: u128, radix: u128) -> (text: String)
    requires
        2 <= radix <= 16,
    ensures
        text@ == numeral(n as nat, radix as nat),
    decreases n,
{
    if n < radix {
        digit_text(n).to_owned()
    } else {
        assert(n / radix < n) by (nonlinear_arith)
            requires
                2 <= radix <= n,
        ;
        assert(n % radix < radix) by (nonlinear_arith)
            requires
                2 <= radix,
        ;
        let mut text = write_numeral(n / radix, radix);
        text.append(digit_text(n % radix));
        assert(text@ =~= numeral(n as nat, radix as nat));
        text
    }
}

/// `n` in decimal.
pub fn decimal(n: u64) -> (text: String)
    ensures
        text@ == numeral(n as nat, 10),
{
    write_numeral(n as u128, 10)
}

/// `n` in lower-case hexadecimal.
pub fn hexadecimal(n: u128) -> (text: String)
    ensures
        text@ == numeral(n as nat, 16),
{
    write_numeral(n, 16)
}

pub open spec fn is_decimal_digit(c: char) -> bool {
    48 <= c as u32 <= 57
}

/// The value of a run of decimal digits.
pub open spec fn decimal_value(s: Seq<char>) -> nat
    decreases s.len(),
{
    if s.len() == 0 {
        0
    } else {
        (decimal_value(s.drop_last()) * 10 + (s.last() as u32 - 48)) as nat
    }
}

/// The digits of a numeral that may carry a plus sign.
pub open spec fn without_plus(s: Seq<char>) -> Seq<char> {
    if s.len() > 0 && s[0] == '+' {
        s.drop_first()
    } else {
        s
    }
}

/// The number that `s` reads as: decimal digits, at least one, after an
/// optional plus sign, and no more than `max`.
pub open spec fn number(s: Seq<char>, max: nat) -> Option<nat> {
    let digits = without_plus(s);
    if digits.len() > 0 && (forall|i: int| 0 <= i < digits.len() ==> is_decimal_digit(digits[i]))
        && decimal_value(digits) <= max {
        Some(decimal_value(digits))
    } else {
        None
    }
}

proof fn lemma_decimal_value_grows(s: Seq<char>, i: int)
    requires
        0 <= i <= s.len(),
        forall|j: int| 0 <= j < s.len() ==> is_decimal_digit(s[j]),
    ensures
        decimal_value(s.take(i)) <= decimal_value(s),
    decreases s.len() - i,
{
    if i < s.len() {
        assert(s.take(i + 1).drop_last() =~= s.take(i));
        assert(s.take(i + 1).last() == s[i]);
        lemma_decimal_value_grows(s, i + 1);
    } else {
        assert(s.take(i) =~= s);
    }
}

/// Reads a decimal number that is at most `max`.
pub fn parse_number(s: &str, max: u64) -> (n: Option<u64>)
    ensures
        match n {
            Some(v) => number(s@, max as nat) == Some(v as nat),
            None => number(s@, max as nat) is None,
        },
{
    let chars = chars_of(s);
    let start: usize = if chars.len() > 0 && chars[0] == '+' { 1 } else { 0 };
    let ghost digits = without_plus(s@);
    assert(digits =~= s@.skip(start as int));
    if start == chars.len() {
        return None;
    }
    let mut value: u64 = 0;
    let mut i: usize = start;
    while i < chars.len()
        invariant
            chars@ == s@,
            start <= i <= chars.len(),
            start < chars.len(),
            digits == without_plus(s@),
            digits == s@.skip(start as int),
            forall|j: int| 0 <= j < i - start ==> is_decimal_digit(#[trigger] digits[j]),
            value == decimal_value(digits.take(i - start)),
            value <= max,
        decreases chars.len() - i,
    {
        let c: u32 = chars[i] as u32;
        assert(digits[i - start] == chars[i as int]);
        if c < 48 || c > 57 {
            assert(!is_decimal_digit(digits[i - start]));
            return None;
        }
        let ghost k = i - start;
        proof {
            assert(digits.take(k + 1).drop_last() =~= digits.take(k));
            assert(digits.take(k + 1).last() == digits[k]);
        }
        let next: u128 = value as u128 * 10 + (c - 48) as u128;
        assert(next == decimal_value(digits.take(k + 1)));
        if next > max as u128 {
            proof {
                if forall|j: int| 0 <= j < digits.len() ==> is_decimal_digit(digits[j]) {
                    lemma_decimal_value_grows(digits, k + 1);
                }
            }
            return None;
        }
        value = next as u64;
        i += 1;
    }
    assert(digits.take(digits.len() as int) =~= digits);
    Some(value)
}

/// A decimal numeral reads as the number it was written for.
pub proof fn lemma_numeral_reads_back(n: nat, max: nat)
    requires
        n <= max,
    ensures
        number(numeral(n, 10), max) == Some(n),
        forall|i: int|
            0 <= i < numeral(n, 10).len() ==> is_decimal_digit(#[trigger] numeral(n, 10)[i]),
{
    lemma_numeral_digits(n);
    assert(!(numeral(n, 10)[0] == '+')) by {
        assert(is_decimal_digit(numeral(n, 10)[0]));
    }
}

proof fn lemma_numeral_digits(n: nat)
    ensures
        numeral(n, 10).len() > 0,
        forall|i: int|
            0 <= i < numeral(n, 10).len() ==> is_decimal_digit(#[trigger] numeral(n, 10)[i]),
        decimal_value(numeral(n, 10)) == n,
    decreases n,
{
    let s = numeral(n, 10);
    if n < 10 {
        assert(s.drop_last() =~= Seq::<char>::empty());
        assert(decimal_value(s.drop_last()) == 0);
    } else {
        lemma_numeral_digits(n / 10);
        assert(s.drop_last() =~= numeral(n / 10, 10));
    }
}

/// The value of a digit, `0` to `9` and then `a` to `f`.
spec fn digit_value(c: char) -> nat {
    if c as u32 <= 57 {
        (c as u32 - 48) as nat
    } else {
        (c as u32 - 87) as nat
    }
}

/// The value of a numeral.
spec fn numeral_value(s: Seq<char>, radix: nat) -> nat
    decreases s.len(),
{
    if s.len() == 0 {
        0
    } else {
        numeral_value(s.drop_last(), radix) * radix + digit_value(s.last())
    }
}

proof fn lemma_numeral_value(n: nat, radix: nat)
    requires
        2 <= radix <= 16,
    ensures
        numeral_value(numeral(n, radix), radix) == n,
        forall|i: int|
            0 <= i < numeral(n, radix).len() ==> #[trigger] numeral(n, radix)[i] != '-',
    decreases n,
{
    let s = numeral(n, radix);
    if n < radix {
        assert(s.drop_last() =~= Seq::<char>::empty());
        assert(numeral_value(s.drop_last(), radix) == 0);
        assert(0 * radix == 0) by (nonlinear_arith);
        assert(digit_value(digit(n)) == n);
    } else {
        assert(n / radix < n && n % radix < radix && (n / radix) * radix + n % radix == n)
            by (nonlinear_arith)
            requires
                2 <= radix <= n,
        ;
        lemma_numeral_value(n / radix, radix);
        assert(s.drop_last() =~= numeral(n / radix, radix));
        assert(digit_value(digit(n % radix)) == n % radix);
    }
}

/// Different numbers have different numerals, and no numeral has a hyphen.
pub proof fn lemma_numerals_differ(a: nat, b: nat, radix: nat)
    requires
        2 <= radix <= 16,
    ensures
        numeral(a, radix) == numeral(b, radix) ==> a == b,
        forall|i: int|
            0 <= i < numeral(a, radix).len() ==> #[trigger] numeral(a, radix)[i] != '-',
{
    lemma_numeral_value(a, radix);
    lemma_numeral_value(b, radix);
}

/// The character is white space in the sense of Unicode.
pub open spec fn is_space(c: char) -> bool {
    let n = c as u32;
    ||| 0x9 <= n <= 0xd
    ||| n == 0x20 || n == 0x85 || n == 0xa0 || n == 0x1680
    ||| 0x2000 <= n <= 0x200a
    ||| n == 0x2028 || n == 0x2029 || n == 0x202f || n == 0x205f || n == 0x3000
}

/// `s` without the white space at its start.
pub open spec fn trimmed_start(s: Seq<char>) -> Seq<char>
    decreases s.len(),
{
    if s.len() > 0 && is_space(s[0]) {
        trimmed_start(s.skip(1))
    } else {
        s
    }
}

/// `s` without the white space at its end.
pub open spec fn trimmed_end(s: Seq<char>) -> Seq<char>
    decreases s.len(),
{
    if s.len() > 0 && is_space(s.last()) {
        trimmed_end(s.drop_last())
    } else {
        s
    }
}

/// `s` without the white space around it.
pub open spec fn trimmed(s: Seq<char>) -> Seq<char> {
    trimmed_end(trimmed_start(s))
}

fn is_space_char(c: char) -> (yes: bool)
    ensures
        yes == is_space(c),
{
    let n: u32 = c as u32;
    (0x9 <= n && n <= 0xd) || n == 0x20 || n == 0x85 || n == 0xa0 || n == 0x1680 || (0x2000 <= n
        && n <= 0x200a) || n == 0x2028 || n == 0x2029 || n == 0x202f || n == 0x205f || n == 0x3000
}

/// Cuts the white space off both ends of `s`.
pub fn trim(s: &str) -> (rest: String)
    ensures
        rest@ == trimmed(s@),
{
    let chars = chars_of(s);
    let n = s.unicode_len();
    let mut start: usize = 0;
    assert(s@.skip(0) =~= s@);
    while start < n && is_space_char(chars[start])
        invariant
            chars@ == s@,
            n == s@.len(),
            start <= n,
            trimmed_start(s@) == trimmed_start(s@.skip(start as int)),
        decreases n - start,
    {
        assert(s@.skip(start as int).skip(1) =~= s@.skip(start + 1));
        start += 1;
    }
    let mut end: usize = n;
    assert(s@.subrange(start as int, n as int) =~= s@.skip(start as int));
    while start < end && is_space_char(chars[end - 1])
        invariant
            chars@ == s@,
            n == s@.len(),
            start <= end <= n,
            trimmed(s@) == trimmed_end(s@.subrange(start as int, end as int)),
        decreases end,
    {
        assert(s@.subrange(start as int, end as int).drop_last() =~= s@.subrange(
            start as int,
            end - 1,
        ));
        end -= 1;
    }
    s.substring_char(start, end).to_owned()
}

/// The first place in which two strings differ decides their order, and a
/// proper beginning comes first.
pub proof fn law_first_difference_decides(a: Seq<char>, b: Seq<char>, i: int)
    requires
        0 <= i <= a.len(),
        i <= b.len(),
        a.take(i) == b.take(i),
    ensures
        i < a.len() && i < b.len() && a[i] != b[i] ==> (lex_lt(a, b) <==> (a[i] as int) < (
        b[i] as int)),
        i == a.len() && i < b.len() ==> lex_lt(a, b),
        i == b.len() ==> !lex_lt(a, b),
    decreases i,
{
    if i > 0 {
        assert(a.take(i)[0] == a[0] && b.take(i)[0] == b[0]);
        assert(a.drop_first().take(i - 1) =~= a.take(i).drop_first());
        assert(b.drop_first().take(i - 1) =~= b.take(i).drop_first());
        law_first_difference_decides(a.drop_first(), b.drop_first(), i - 1);
    }
}

/// The digits are `0` to `9` and then `a` to `f`.
pub proof fn law_digits_are_the_usual_ones(d: nat)
    requires
        d < 16,
    ensures
        digit(d) == "0123456789abcdef"@[d as int],
{
    reveal_strlit("0123456789abcdef");
}

/// A numeral grows by one digit at its end: that of the rest, after the
/// numeral of what the rest is left of. Below the radix it is one digit.
pub proof fn law_numerals_grow_at_the_end(n: nat, d: nat, radix: nat)
    requires
        2 <= radix,
        d < radix,
    ensures
        numeral(d, radix) == seq![digit(d)],
        n > 0 ==> numeral(n * radix + d, radix) == numeral(n, radix) + seq![digit(d)],
{
    if n > 0 {
        let m = n * radix + d;
        assert(m >= radix && m / radix == n && m % radix == d) by (nonlinear_arith)
            requires
                m == n * radix + d,
                n > 0,
                2 <= radix,
                d < radix,
        ;
        assert(numeral(m, radix) =~= numeral(n, radix) + seq![digit(d)]);
    }
}

/// One more digit makes ten times as much and the digit.
pub proof fn law_decimal_digits_add_up(s: Seq<char>, d: nat)
    requires
        d < 10,
    ensures
        decimal_value(Seq::empty()) == 0,
        decimal_value(s.push("0123456789"@[d as int])) == decimal_value(s) * 10 + d,
{
    reveal_strlit("0123456789");
    let c = "0123456789"@[d as int];
    assert(s.push(c).drop_last() =~= s);
    assert(s.push(c).last() == c);
}

/// Text reads as a number exactly if it is one or more decimal digits, with
/// or without a plus sign in front, of a value that is not too great.
pub proof fn law_what_reads_as_a_number(digits: Seq<char>, max: nat)
    requires
        digits.len() == 0 || digits[0] != '+',
    ensures
        number(digits, max) == number(seq!['+'] + digits, max),
        number(digits, max) matches Some(n) ==> n == decimal_value(digits) && n <= max
            && digits.len() > 0,
        number(digits, max) is Some <==> digits.len() > 0 && decimal_value(digits) <= max
            && forall|i: int|
            0 <= i < digits.len() ==> 48 <= (#[trigger] digits[i]) as u32 <= 57,
{
    let signed = seq!['+'] + digits;
    assert(signed.drop_first() =~= digits);
    assert(signed[0] == '+');
    if forall|i: int| 0 <= i < digits.len() ==> 48 <= (#[trigger] digits[i]) as u32 <= 57 {
        assert forall|i: int| 0 <= i < digits.len() implies is_decimal_digit(digits[i]) by {
            assert(48 <= digits[i] as u32 <= 57);
        }
    }
    if forall|i: int| 0 <= i < digits.len() ==> is_decimal_digit(digits[i]) {
        assert forall|i: int| 0 <= i < digits.len() implies 48 <= (
        #[trigger] digits[i]) as u32 <= 57 by {
            assert(is_decimal_digit(digits[i]));
        }
    }
}

/// Text with a mark in it is cut at the first one: before it stands what
/// holds no mark, after it all the rest. Text without the mark is not cut.
pub proof fn law_cuts_are_at_the_first_mark(head: Seq<char>, c: char, tail: Seq<char>)
    requires
        !head.contains(c),
    ensures
        cut(head + seq![c] + tail, c) == Some((head, tail)),
        cut(head, c) is None,
{
    let s = head + seq![c] + tail;
    let n = head.len() as int;
    assert(s[n] == c);
    assert forall|j: int| 0 <= j < n implies s[j] != c by {
        assert(s[j] == head[j]);
        assert(head.contains(head[j]));
    }
    lemma_cut_at(s, c, n);
    assert(s.take(n) =~= head);
    assert(s.skip(n + 1) =~= tail);
    lemma_no_cut(head, c);
}

/// The pieces of a text are those between the marks: a text without a mark
/// is one piece, and what stands before the first mark is the first piece,
/// followed by those of the rest.
pub proof fn law_pieces_stand_between_the_marks(head: Seq<char>, c: char, tail: Seq<char>)
    requires
        !head.contains(c),
    ensures
        pieces(head, c) == seq![head],
        pieces(head + seq![c] + tail, c) == seq![head] + pieces(tail, c),
{
    law_cuts_are_at_the_first_mark(head, c, tail);
}

/// Joined lists joined are the joined list: nothing is lost, doubled or
/// moved, and the separator stands between neighbours only.
pub proof fn law_joining_is_end_to_end(a: Seq<Seq<char>>, b: Seq<Seq<char>>, sep: Seq<char>)
    ensures
        joined(Seq::<Seq<char>>::empty(), sep) == Seq::<char>::empty(),
        a.len() == 1 ==> joined(a, sep) == a[0],
        a.len() > 0 && b.len() > 0 ==> joined(a + b, sep) == joined(a, sep) + sep + joined(b, sep),
    decreases b.len(),
{
    if a.len() > 0 && b.len() > 0 {
        let init = b.drop_last();
        assert((a + b).drop_last() =~= a + init);
        assert((a + b).last() == b.last());
        if b.len() == 1 {
            assert(a + init =~= a);
            assert(joined(a + b, sep) =~= joined(a, sep) + sep + joined(b, sep));
        } else {
            law_joining_is_end_to_end(a, init, sep);
            assert(joined(a + b, sep) =~= joined(a, sep) + sep + joined(b, sep));
        }
    }
}

/// Trimming takes white space away at both ends, all of it and nothing else.
pub proof fn law_trimming_takes_only_white_space(s: Seq<char>) -> (ends: (int, int))
    ensures
        0 <= ends.0 <= ends.1 <= s.len(),
        trimmed(s) == s.subrange(ends.0, ends.1),
        forall|i: int| 0 <= i < ends.0 ==> is_space(#[trigger] s[i]),
        forall|i: int| ends.1 <= i < s.len() ==> is_space(#[trigger] s[i]),
        trimmed(s).len() > 0 ==> !is_space(trimmed(s)[0]) && !is_space(trimmed(s).last()),
{
    let start = lemma_trimmed_start(s);
    let rest = s.skip(start);
    let end = lemma_trimmed_end(rest);
    assert(trimmed(s) =~= s.subrange(start, start + end));
    assert forall|i: int| start + end <= i < s.len() implies is_space(#[trigger] s[i]) by {
        assert(rest[i - start] == s[i]);
    }
    if end > 0 {
        assert(rest[0] == s[start]);
    }
    (start, start + end)
}

proof fn lemma_trimmed_start(s: Seq<char>) -> (start: int)
    ensures
        0 <= start <= s.len(),
        trimmed_start(s) == s.skip(start),
        forall|i: int| 0 <= i < start ==> is_space(#[trigger] s[i]),
        start < s.len() ==> !is_space(s[start]),
    decreases s.len(),
{
    if s.len() > 0 && is_space(s[0]) {
        let rest = s.skip(1);
        let k = lemma_trimmed_start(rest);
        assert(rest.skip(k) =~= s.skip(k + 1));
        assert forall|i: int| 0 <= i < k + 1 implies is_space(#[trigger] s[i]) by {
            if i > 0 {
                assert(rest[i - 1] == s[i]);
            }
        }
        if k < rest.len() {
            assert(rest[k] == s[k + 1]);
        }
        k + 1
    } else {
        assert(s.skip(0) =~= s);
        0
    }
}

proof fn lemma_trimmed_end(s: Seq<char>) -> (end: int)
    ensures
        0 <= end <= s.len(),
        trimmed_end(s) == s.take(end),
        forall|i: int| end <= i < s.len() ==> is_space(#[trigger] s[i]),
        end > 0 ==> !is_space(s[end - 1]),
    decreases s.len(),
{
    if s.len() > 0 && is_space(s.last()) {
        let init = s.drop_last();
        let k = lemma_trimmed_end(init);
        assert(init.take(k) =~= s.take(k));
        assert forall|i: int| k <= i < s.len() implies is_space(#[trigger] s[i]) by {
            if i < init.len() {
                assert(init[i] == s[i]);
            }
        }
        k
    } else {
        assert(s.take(s.len() as int) =~= s);
        s.len() as int
    }
}

/// White space is what Unicode lists as such: the controls from tab to
/// carriage return, the space, the next line, and the spaces and separators
/// of other scripts. Nothing that can be seen is white space.
pub proof fn law_white_space_is_as_listed(c: char)
    ensures
        is_space(c) <==> set![
            0x9u32, 0xa, 0xb, 0xc, 0xd, 0x20, 0x85, 0xa0, 0x1680, 0x2000, 0x2001, 0x2002, 0x2003,
            0x2004, 0x2005, 0x2006, 0x2007, 0x2008, 0x2009, 0x200a, 0x2028, 0x2029, 0x202f, 0x205f,
            0x3000,
        ].contains(c as u32),
{
}

/// The views of strings are the texts of the strings, one for one.
pub proof fn law_texts_one_for_one(s: Seq<String>)
    ensures
        texts(s).len() == s.len(),
        forall|i: int| 0 <= i < s.len() ==> #[trigger] texts(s)[i] == s[i]@,
{
}

/// One plus sign is all that may stand before the digits.
pub proof fn law_a_second_plus_sign_does_not_read(s: Seq<char>, max: nat)
    requires
        s.len() >= 2,
        s[0] == '+',
        s[1] == '+',
    ensures
        number(s, max) is None,
{
    let digits = s.drop_first();
    assert(digits[0] == '+');
    assert(!is_decimal_digit(digits[0]));
}

} // verus!

//! Decimal text: turning numbers into digit strings and back.

use vstd::prelude::*;
use vstd::string::StringExecFns;
use vstd::string::StrSliceExecFns;

verus! {

/// The character for one decimal digit.
pub open spec fn digit_char(d: int) -> char {
    if d == 0 {
        '0'
    } else if d == 1 {
        '1'
    } else if d == 2 {
        '2'
    } else if d == 3 {
        '3'
    } else if d == 4 {
        '4'
    } else if d == 5 {
        '5'
    } else if d == 6 {
        '6'
    } else if d == 7 {
        '7'
    } else if d == 8 {
        '8'
    } else {
        '9'
    }
}

pub open spec fn is_digit_char(c: char) -> bool {
    c == '0' || c == '1' || c == '2' || c == '3' || c == '4' || c == '5' || c == '6' || c == '7'
        || c == '8' || c == '9'
}

/// The value of one decimal digit character.
pub open spec fn digit_val(c: char) -> int {
    if c == '0' {
        0
    } else if c == '1' {
        1
    } else if c == '2' {
        2
    } else if c == '3' {
        3
    } else if c == '4' {
        4
    } else if c == '5' {
        5
    } else if c == '6' {
        6
    } else if c == '7' {
        7
    } else if c == '8' {
        8
    } else {
        9
    }
}

/// The usual decimal rendering of a non-negative number, most significant
/// digit first, with no leading zeroes (except for the number 0 itself).
pub open spec fn dec_digits(n: int) -> Seq<char>
    decreases n,
{
    if n < 10 {
        seq![digit_char(n)]
    } else {
        dec_digits(n / 10) + seq![digit_char(n % 10)]
    }
}

pub open spec fn all_digits(s: Seq<char>) -> bool {
    forall|i: int| 0 <= i < s.len() ==> is_digit_char(s[i])
}

/// The number a sequence of decimal digit characters denotes.
pub open spec fn digits_val(s: Seq<char>) -> int
    decreases s.len(),
{
    if s.len() == 0 {
        0
    } else {
        digits_val(s.drop_last()) * 10 + digit_val(s.last())
    }
}

pub open spec fn pow10(n: nat) -> int
    decreases n,
{
    if n == 0 {
        1
    } else {
        10 * pow10((n - 1) as nat)
    }
}

pub proof fn lemma_pow10_pos(n: nat)
    ensures
        pow10(n) >= 1,
    decreases n,
{
    if n > 0 {
        lemma_pow10_pos((n - 1) as nat);
    }
}

pub proof fn lemma_pow10_mono(a: nat, b: nat)
    requires
        a <= b,
    ensures
        pow10(a) <= pow10(b),
    decreases b,
{
    lemma_pow10_pos(a);
    if a < b {
        lemma_pow10_mono(a, (b - 1) as nat);
        lemma_pow10_pos((b - 1) as nat);
    }
}

pub proof fn lemma_pow10_16()
    ensures
        pow10(15) == 1000000000000000,
        pow10(16) == 10000000000000000,
{
    reveal_with_fuel(pow10, 17);
}

/// A digit string of length `n` denotes a value below `10^n`.
pub proof fn lemma_digits_val_bound(s: Seq<char>)
    ensures
        0 <= digits_val(s) < pow10(s.len()),
    decreases s.len(),
{
    if s.len() > 0 {
        lemma_digits_val_bound(s.drop_last());
    }
}

/// Decimal renderings consist of digit characters only, and never of
/// nothing.
pub proof fn lemma_dec_digits_are_digits(n: int)
    ensures
        all_digits(dec_digits(n)),
        dec_digits(n).len() >= 1,
    decreases n,
{
    if n < 10 {
        assert(is_digit_char(dec_digits(n)[0]));
    } else {
        lemma_dec_digits_are_digits(n / 10);
        let d = dec_digits(n / 10);
        let s = dec_digits(n);
        assert forall|i: int| 0 <= i < s.len() implies is_digit_char(s[i]) by {
            if i < d.len() {
                assert(s[i] == d[i]);
            } else {
                assert(s[i] == digit_char(n % 10));
            }
        }
    }
}

/// A decimal rendering denotes the number it was rendered from.
pub proof fn lemma_dec_digits_val(n: int)
    requires
        n >= 0,
    ensures
        digits_val(dec_digits(n)) == n,
    decreases n,
{
    if n < 10 {
        let s = dec_digits(n);
        assert(s.drop_last() =~= Seq::<char>::empty());
        assert(digits_val(Seq::<char>::empty()) == 0);
        assert(s.last() == digit_char(n));
        assert(digit_val(digit_char(n)) == n);
    } else {
        lemma_dec_digits_val(n / 10);
        let s = dec_digits(n);
        assert(s.drop_last() =~= dec_digits(n / 10));
        assert(s.last() == digit_char(n % 10));
        vstd::arithmetic::div_mod::lemma_fundamental_div_mod(n, 10);
    }
}

/// A number below `10^k` renders in at most `k` digits.
pub proof fn lemma_dec_digits_len(n: int, k: nat)
    requires
        0 <= n < pow10(k),
        k >= 1,
    ensures
        dec_digits(n).len() <= k,
    decreases k,
{
    if n >= 10 {
        assert(pow10(k) == 10 * pow10((k - 1) as nat));
        if k == 1 {
            assert(pow10(1) == 10) by {
                reveal_with_fuel(pow10, 2);
            }
        }
        assert(n / 10 < pow10((k - 1) as nat)) by {
            vstd::arithmetic::div_mod::lemma_fundamental_div_mod(n, 10);
        }
        lemma_dec_digits_len(n / 10, (k - 1) as nat);
    }
}

/// One decimal digit as a string slice.
pub fn digit_str(d: u64) -> (r: &'static str)
    requires
        d < 10,
    ensures
        r@ == seq![digit_char(d as int)],
{
    proof {
        reveal_strlit("0");
        reveal_strlit("1");
        reveal_strlit("2");
        reveal_strlit("3");
        reveal_strlit("4");
        reveal_strlit("5");
        reveal_strlit("6");
        reveal_strlit("7");
        reveal_strlit("8");
        reveal_strlit("9");
        assert("0"@ =~= seq!['0']);
        assert("1"@ =~= seq!['1']);
        assert("2"@ =~= seq!['2']);
        assert("3"@ =~= seq!['3']);
        assert("4"@ =~= seq!['4']);
        assert("5"@ =~= seq!['5']);
        assert("6"@ =~= seq!['6']);
        assert("7"@ =~= seq!['7']);
        assert("8"@ =~= seq!['8']);
        assert("9"@ =~= seq!['9']);
    }
    if d == 0 {
        "0"
    } else if d == 1 {
        "1"
    } else if d == 2 {
        "2"
    } else if d == 3 {
        "3"
    } else if d == 4 {
        "4"
    } else if d == 5 {
        "5"
    } else if d == 6 {
        "6"
    } else if d == 7 {
        "7"
    } else if d == 8 {
        "8"
    } else {
        "9"
    }
}

/// Render a number in decimal.
pub fn u64_to_string(n: u64) -> (r: String)
    ensures
        r@ == dec_digits(n as int),
    decreases n,
{
    if n < 10 {
        digit_str(n).to_owned()
    } else {
        let mut prefix = u64_to_string(n / 10);
        prefix.append(digit_str(n % 10));
        prefix
    }
}

/// ASCII whitespace, as far as trimming is concerned.
pub open spec fn is_space_char(c: char) -> bool {
    c == ' ' || c == '\t' || c == '\r' || c == '\n'
}

/// How many whitespace characters the text starts with.
pub open spec fn leading_ws(s: Seq<char>) -> int
    decreases s.len(),
{
    if s.len() == 0 || !is_space_char(s[0]) {
        0
    } else {
        1 + leading_ws(s.drop_first())
    }
}

/// How many whitespace characters the text ends with.
pub open spec fn trailing_ws(s: Seq<char>) -> int
    decreases s.len(),
{
    if s.len() == 0 || !is_space_char(s.last()) {
        0
    } else {
        1 + trailing_ws(s.drop_last())
    }
}

/// The text with leading and trailing whitespace removed.
pub open spec fn trim_spec(s: Seq<char>) -> Seq<char> {
    if leading_ws(s) + trailing_ws(s) >= s.len() {
        Seq::empty()
    } else {
        s.subrange(leading_ws(s), s.len() - trailing_ws(s))
    }
}

/// `leading_ws` is the index of the first non-whitespace character.
pub proof fn lemma_leading_ws_is(s: Seq<char>, a: int)
    requires
        0 <= a <= s.len(),
        forall|j: int| 0 <= j < a ==> is_space_char(s[j]),
        a < s.len() ==> !is_space_char(s[a]),
    ensures
        leading_ws(s) == a,
    decreases a,
{
    if a == 0 {
    } else {
        assert(is_space_char(s[0]));
        lemma_leading_ws_is(s.drop_first(), a - 1);
    }
}

/// `trailing_ws` is the distance from the end to the last non-whitespace
/// character.
pub proof fn lemma_trailing_ws_is(s: Seq<char>, b: int)
    requires
        0 <= b <= s.len(),
        forall|j: int| s.len() - b <= j < s.len() ==> is_space_char(s[j]),
        b < s.len() ==> !is_space_char(s[s.len() - b - 1]),
    ensures
        trailing_ws(s) == b,
    decreases b,
{
    if b == 0 {
    } else {
        assert(is_space_char(s.last()));
        lemma_trailing_ws_is(s.drop_last(), b - 1);
    }
}

pub proof fn lemma_trailing_ws_bounds(s: Seq<char>)
    ensures
        0 <= trailing_ws(s) <= s.len(),
    decreases s.len(),
{
    if s.len() != 0 && is_space_char(s.last()) {
        lemma_trailing_ws_bounds(s.drop_last());
    }
}

/// Whether a character counts as whitespace for trimming.
pub fn is_space(c: char) -> (r: bool)
    ensures
        r == is_space_char(c),
{
    c == ' ' || c == '\t' || c == '\r' || c == '\n'
}

/// Remove leading and trailing whitespace.
pub fn trim_str(s: &str) -> (r: String)
    ensures
        r@ == trim_spec(s@),
{
    let n = s.unicode_len();
    let mut a: usize = 0;
    while a < n && is_space(s.get_char(a))
        invariant
            0 <= a <= n,
            n == s@.len(),
            forall|j: int| 0 <= j < a ==> is_space_char(s@[j]),
        decreases n - a,
    {
        a = a + 1;
    }
    proof {
        lemma_leading_ws_is(s@, a as int);
    }
    if a == n {
        proof {
            lemma_trailing_ws_bounds(s@);
        }
        return String::new();
    }
    // s@[a] is not whitespace, so the backward scan stops before reaching it.
    let mut b: usize = 0;
    while is_space(s.get_char(n - 1 - b))
        invariant
            0 <= b <= n - 1 - a,
            a < n,
            n == s@.len(),
            !is_space_char(s@[a as int]),
            forall|j: int| n - b <= j < n ==> is_space_char(s@[j]),
        decreases n - b,
    {
        b = b + 1;
    }
    proof {
        lemma_trailing_ws_is(s@, b as int);
    }
    s.substring_char(a, n - b).to_owned()
}

/// Where the first line break sits, if there is one: the first index is
/// `Some` of the position of the first `'\n'`.
pub proof fn lemma_first_newline_at(s: Seq<char>, k: int)
    requires
        0 <= k < s.len(),
        s[k] == '\n',
        forall|j: int| 0 <= j < k ==> s[j] != '\n',
    ensures
        s.index_of_first('\n') == Some(k),
{
    s.index_of_first_ensures('\n');
    let idx = s.index_of_first('\n').unwrap();
    assert(idx <= k);
    assert(idx >= k);
}

pub proof fn lemma_no_newline(s: Seq<char>)
    requires
        forall|j: int| 0 <= j < s.len() ==> s[j] != '\n',
    ensures
        s.index_of_first('\n') is None,
{
    s.index_of_first_ensures('\n');
    if s.index_of_first('\n') is Some {
        let idx = s.index_of_first('\n').unwrap();
        assert(s[idx] == '\n');
    }
}

/// The text cut at every `'\n'`: the separators themselves are dropped, and
/// a text without one is a single line.
pub open spec fn split_lines_spec(s: Seq<char>) -> Seq<Seq<char>>
    decreases s.len(),
    via split_lines_spec_dec
{
    match s.index_of_first('\n') {
        Some(k) => seq![s.take(k)] + split_lines_spec(s.skip(k + 1)),
        None => seq![s],
    }
}

#[via_fn]
proof fn split_lines_spec_dec(s: Seq<char>) {
    s.index_of_first_ensures('\n');
}

/// Cut a text at every line break.
pub fn split_lines(text: &str) -> (r: Vec<String>)
    ensures
        r.deep_view() == split_lines_spec(text@),
{
    let n = text.unicode_len();
    let mut r: Vec<String> = Vec::new();
    let mut start: usize = 0;
    let mut i: usize = 0;
    proof {
        assert(text@.skip(0) =~= text@);
        assert(r.deep_view() =~= Seq::<Seq<char>>::empty());
    }
    while i < n
        invariant
            0 <= start <= i <= n,
            n == text@.len(),
            forall|j: int| start <= j < i ==> text@[j] != '\n',
            split_lines_spec(text@) =~= r.deep_view() + split_lines_spec(text@.skip(start as int)),
        decreases n - i,
    {
        if text.get_char(i) == '\n' {
            let line = text.substring_char(start, i).to_owned();
            let ghost dv = r.deep_view();
            let ghost rest = text@.skip(start as int);
            proof {
                assert forall|j: int| 0 <= j < i - start as int implies rest[j] != '\n' by {
                    assert(rest[j] == text@[j + start as int]);
                }
                assert(rest[i - start as int] == text@[i as int]);
                lemma_first_newline_at(rest, i - start as int);
                assert(rest.take(i - start as int) =~= text@.subrange(start as int, i as int));
                assert(rest.skip(i - start as int + 1) =~= text@.skip(i as int + 1));
            }
            r.push(line);
            proof {
                assert(r.deep_view() =~= dv.push(line@));
                assert(dv.push(line@) =~= dv + seq![line@]);
                assert(split_lines_spec(rest) =~= seq![line@] + split_lines_spec(
                    text@.skip(i as int + 1),
                ));
                assert(r.deep_view() + split_lines_spec(text@.skip(i as int + 1)) =~= dv + (
                seq![line@] + split_lines_spec(text@.skip(i as int + 1))));
            }
            start = i + 1;
        }
        i = i + 1;
    }
    let line = text.substring_char(start, n).to_owned();
    let ghost dv = r.deep_view();
    let ghost rest = text@.skip(start as int);
    proof {
        assert forall|j: int| 0 <= j < rest.len() implies rest[j] != '\n' by {
            assert(rest[j] == text@[j + start as int]);
        }
        lemma_no_newline(rest);
        assert(rest =~= text@.subrange(start as int, n as int));
    }
    r.push(line);
    proof {
        assert(r.deep_view() =~= dv.push(line@));
        assert(dv.push(line@) =~= dv + seq![line@]);
    }
    r
}

/// Character-wise string equality.
pub fn str_eq(a: &str, b: &str) -> (r: bool)
    ensures
        r == (a@ == b@),
{
    let n = a.unicode_len();
    let m = b.unicode_len();
    if n != m {
        proof {
            assert(a@ != b@);
        }
        return false;
    }
    let mut i: usize = 0;
    while i < n
        invariant
            0 <= i <= n,
            n == a@.len(),
            n == b@.len(),
            forall|j: int| 0 <= j < i ==> a@[j] == b@[j],
        decreases n - i,
    {
        if a.get_char(i) != b.get_char(i) {
            return false;
        }
        i = i + 1;
    }
    proof {
        assert(a@ =~= b@);
    }
    true
}

/// The value of one decimal digit character, or `None` for anything else.
pub fn digit_value(c: char) -> (r: Option<u8>)
    ensures
        match r {
            Some(v) => is_digit_char(c) && v as int == digit_val(c),
            None => !is_digit_char(c),
        },
{
    if c == '0' {
        Some(0)
    } else if c == '1' {
        Some(1)
    } else if c == '2' {
        Some(2)
    } else if c == '3' {
        Some(3)
    } else if c == '4' {
        Some(4)
    } else if c == '5' {
        Some(5)
    } else if c == '6' {
        Some(6)
    } else if c == '7' {
        Some(7)
    } else if c == '8' {
        Some(8)
    } else if c == '9' {
        Some(9)
    } else {
        None
    }
}

} // verus!

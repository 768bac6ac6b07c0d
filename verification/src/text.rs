//! Character classes and small string utilities shared by the parser.

use vstd::prelude::*;
use vstd::string::StrSliceExecFns;

verus! {

/// Every character of `s` is an ASCII space: blankness is judged after
/// stripping ASCII spaces alone, so an ideographic space is not blank.
pub open spec fn blank_spec(s: Seq<char>) -> bool {
    forall|i: int| 0 <= i < s.len() ==> (#[trigger] s[i]) == ' '
}

/// Executable test for [`blank_spec`] on a string slice.
pub fn str_blank(s: &str) -> (b: bool)
    ensures
        b == blank_spec(s@),
{
    let n = s.unicode_len();
    let mut i: usize = 0;
    while i < n
        invariant
            0 <= i <= n,
            n == s@.len(),
            forall|j: int| 0 <= j < i ==> (#[trigger] s@[j]) == ' ',
        decreases n - i,
    {
        if s.get_char(i) != ' ' {
            return false;
        }
        i = i + 1;
    }
    true
}

/// Executable test for [`blank_spec`] on a character vector.
pub fn chars_blank(s: &Vec<char>) -> (b: bool)
    ensures
        b == blank_spec(s@),
{
    let mut i: usize = 0;
    while i < s.len()
        invariant
            0 <= i <= s@.len(),
            forall|j: int| 0 <= j < i ==> (#[trigger] s@[j]) == ' ',
        decreases s@.len() - i,
    {
        if s[i] != ' ' {
            return false;
        }
        i = i + 1;
    }
    true
}

/// The characters of `s`, in order, as a vector.
pub fn str_chars(s: &str) -> (v: Vec<char>)
    ensures
        v@ == s@,
{
    let n = s.unicode_len();
    let mut v: Vec<char> = Vec::new();
    let mut i: usize = 0;
    while i < n
        invariant
            0 <= i <= n,
            n == s@.len(),
            v@ == s@.subrange(0, i as int),
        decreases n - i,
    {
        v.push(s.get_char(i));
        assert(v@ =~= s@.subrange(0, i + 1 as int));
        i = i + 1;
    }
    assert(v@ =~= s@);
    v
}

/// Relies on `String::push`: appending one character to the end of a string.
#[verifier::external_body]
fn push_char(s: &mut String, c: char)
    ensures
        final (s)@ == old(s)@.push(c),
{
    s.push(c)
}

/// A freshly allocated string holding exactly the characters of `v`.
pub fn chars_string(v: &Vec<char>) -> (s: String)
    ensures
        s@ == v@,
{
    let mut s = String::new();
    let mut i: usize = 0;
    while i < v.len()
        invariant
            0 <= i <= v@.len(),
            s@ == v@.subrange(0, i as int),
        decreases v@.len() - i,
    {
        push_char(&mut s, v[i]);
        assert(s@ =~= v@.subrange(0, i + 1 as int));
        i = i + 1;
    }
    assert(s@ =~= v@);
    s
}

/// The letter `A` in its ASCII or full-width, upper or lower case form.
pub open spec fn is_letter_a(c: char) -> bool {
    c == 'A' || c == 'a' || c == '\u{FF21}' || c == '\u{FF41}'
}

/// The letter `N` in its ASCII or full-width, upper or lower case form.
pub open spec fn is_letter_n(c: char) -> bool {
    c == 'N' || c == 'n' || c == '\u{FF2E}' || c == '\u{FF4E}'
}

/// The letter `D` in its ASCII or full-width, upper or lower case form.
pub open spec fn is_letter_d(c: char) -> bool {
    c == 'D' || c == 'd' || c == '\u{FF24}' || c == '\u{FF44}'
}

/// The letter `O` in its ASCII or full-width, upper or lower case form.
pub open spec fn is_letter_o(c: char) -> bool {
    c == 'O' || c == 'o' || c == '\u{FF2F}' || c == '\u{FF4F}'
}

/// The letter `R` in its ASCII or full-width, upper or lower case form.
pub open spec fn is_letter_r(c: char) -> bool {
    c == 'R' || c == 'r' || c == '\u{FF32}' || c == '\u{FF52}'
}

/// Executable test for [`is_letter_a`].
pub fn letter_a(c: char) -> (b: bool)
    ensures
        b == is_letter_a(c),
{
    c == 'A' || c == 'a' || c == '\u{FF21}' || c == '\u{FF41}'
}

/// Executable test for [`is_letter_n`].
pub fn letter_n(c: char) -> (b: bool)
    ensures
        b == is_letter_n(c),
{
    c == 'N' || c == 'n' || c == '\u{FF2E}' || c == '\u{FF4E}'
}

/// Executable test for [`is_letter_d`].
pub fn letter_d(c: char) -> (b: bool)
    ensures
        b == is_letter_d(c),
{
    c == 'D' || c == 'd' || c == '\u{FF24}' || c == '\u{FF44}'
}

/// Executable test for [`is_letter_o`].
pub fn letter_o(c: char) -> (b: bool)
    ensures
        b == is_letter_o(c),
{
    c == 'O' || c == 'o' || c == '\u{FF2F}' || c == '\u{FF4F}'
}

/// Executable test for [`is_letter_r`].
pub fn letter_r(c: char) -> (b: bool)
    ensures
        b == is_letter_r(c),
{
    c == 'R' || c == 'r' || c == '\u{FF32}' || c == '\u{FF52}'
}

/// An ASCII decimal digit.
pub open spec fn is_digit_char(c: char) -> bool {
    '0' <= c && c <= '9'
}

/// Executable test for [`is_digit_char`].
pub fn digit_char(c: char) -> (b: bool)
    ensures
        b == is_digit_char(c),
{
    '0' <= c && c <= '9'
}

/// The numeric value of an ASCII digit character.
pub open spec fn digit_val(c: char) -> int {
    (c as u32) - ('0' as u32)
}

/// The character for a single decimal digit.
pub open spec fn char_of_digit(d: int) -> char {
    if d == 0 {
        '0'
    } else if d == 1 {
        '1'
    } else if d == 2 {
        '2'
    } else if d == 3 {
        '3'
    } else if d == 4 {
        '4'
    } else if d == 5 {
        '5'
    } else if d == 6 {
        '6'
    } else if d == 7 {
        '7'
    } else if d == 8 {
        '8'
    } else {
        '9'
    }
}

/// The decimal digits of `n`, most significant first.
pub open spec fn digits_spec(n: nat) -> Seq<char>
    decreases n,
{
    if n < 10 {
        seq![char_of_digit(n as int)]
    } else {
        digits_spec(n / 10) + seq![char_of_digit((n % 10) as int)]
    }
}

/// Executable rendering of `n` as decimal digits.
pub fn to_digits(n: usize) -> (v: Vec<char>)
    ensures
        v@ == digits_spec(n as nat),
    decreases n,
{
    let d: usize = n % 10;
    let c: char = if d == 0 {
        '0'
    } else if d == 1 {
        '1'
    } else if d == 2 {
        '2'
    } else if d == 3 {
        '3'
    } else if d == 4 {
        '4'
    } else if d == 5 {
        '5'
    } else if d == 6 {
        '6'
    } else if d == 7 {
        '7'
    } else if d == 8 {
        '8'
    } else {
        '9'
    };
    if n < 10 {
        let mut v: Vec<char> = Vec::new();
        v.push(c);
        proof {
            assert(v@ =~= digits_spec(n as nat));
        }
        v
    } else {
        let mut v = to_digits(n / 10);
        v.push(c);
        proof {
            assert(v@ =~= digits_spec(n as nat));
        }
        v
    }
}

/// The numeric value of a digit string, most significant digit first.
pub open spec fn digits_val(s: Seq<char>) -> int
    decreases s,
{
    if s.len() == 0 {
        0
    } else {
        digits_val(s.drop_last()) * 10 + digit_val(s.last())
    }
}

/// The first index at or after `from` holding `c`, or `-1` if there is none.
pub open spec fn find_idx(s: Seq<char>, from: int, c: char) -> int
    decreases s.len() - from,
{
    if from < 0 || from >= s.len() {
        -1
    } else if s[from] == c {
        from
    } else {
        find_idx(s, from + 1, c)
    }
}

/// What [`find_idx`] returns: the least index at or after `from` holding
/// `c`, if any.
pub proof fn lemma_find_idx(s: Seq<char>, from: int, c: char)
    requires
        0 <= from,
    ensures
        find_idx(s, from, c) == -1 ==> forall|k: int| from <= k < s.len() ==> s[k] != c,
        find_idx(s, from, c) != -1 ==> from <= find_idx(s, from, c) < s.len() && s[find_idx(
            s,
            from,
            c,
        )] == c && forall|k: int| from <= k < find_idx(s, from, c) ==> s[k] != c,
    decreases s.len() - from,
{
    if from < s.len() && s[from] != c {
        lemma_find_idx(s, from + 1, c);
    }
}

/// Executable search for [`find_idx`] over a character vector.
pub fn find_char(s: &Vec<char>, from: usize, c: char) -> (r: Option<usize>)
    ensures
        match r {
            Option::Some(j) => find_idx(s@, from as int, c) == j as int,
            Option::None => find_idx(s@, from as int, c) == -1,
        },
{
    let mut i: usize = from;
    while i < s.len()
        invariant
            from <= i,
            find_idx(s@, from as int, c) == find_idx(s@, i as int, c),
        decreases s@.len() - i,
    {
        if s[i] == c {
            return Option::Some(i);
        }
        i = i + 1;
    }
    Option::None
}

/// The first index at or after `from` holding something other than an ASCII
/// space; `s.len()` if spaces reach the end.
pub open spec fn skip_spaces(s: Seq<char>, from: int) -> int
    decreases s.len() - from,
{
    if from < 0 || from >= s.len() {
        s.len() as int
    } else if s[from] == ' ' {
        skip_spaces(s, from + 1)
    } else {
        from
    }
}

/// What [`skip_spaces`] returns: the end of the space run starting at
/// `from`.
pub proof fn lemma_skip_spaces(s: Seq<char>, from: int)
    requires
        0 <= from <= s.len(),
    ensures
        from <= skip_spaces(s, from) <= s.len(),
        forall|k: int| from <= k < skip_spaces(s, from) ==> s[k] == ' ',
        skip_spaces(s, from) < s.len() ==> s[skip_spaces(s, from)] != ' ',
    decreases s.len() - from,
{
    if from < s.len() && s[from] == ' ' {
        lemma_skip_spaces(s, from + 1);
    }
}

/// Executable form of [`skip_spaces`].
pub fn skip_spaces_exec(s: &Vec<char>, from: usize) -> (r: usize)
    requires
        from <= s@.len(),
    ensures
        r as int == skip_spaces(s@, from as int),
        from <= r <= s@.len(),
{
    proof {
        lemma_skip_spaces(s@, from as int);
    }
    let mut i: usize = from;
    while i < s.len()
        invariant
            from <= i <= s@.len(),
            skip_spaces(s@, from as int) == skip_spaces(s@, i as int),
        decreases s@.len() - i,
    {
        if s[i] != ' ' {
            return i;
        }
        i = i + 1;
    }
    i
}

/// A digit string has a non-negative value.
pub proof fn lemma_digits_val_nonneg(s: Seq<char>)
    requires
        forall|k: int| 0 <= k < s.len() ==> is_digit_char(#[trigger] s[k]),
    ensures
        digits_val(s) >= 0,
    decreases s,
{
    if s.len() > 0 {
        lemma_digits_val_nonneg(s.drop_last());
    }
}

/// Extending a digit string never lowers its value.
pub proof fn lemma_digits_val_prefix(s: Seq<char>, m: int)
    requires
        forall|k: int| 0 <= k < s.len() ==> is_digit_char(#[trigger] s[k]),
        0 <= m <= s.len(),
    ensures
        digits_val(s) >= digits_val(s.take(m)),
    decreases s.len() - m,
{
    if m < s.len() {
        lemma_digits_val_prefix(s, m + 1);
        assert(s.take(m + 1).drop_last() =~= s.take(m));
        lemma_digits_val_nonneg(s.take(m));
    } else {
        assert(s.take(m) =~= s);
    }
}

/// The digit characters carry their numeric value.
pub proof fn lemma_digit_char_val(d: int)
    requires
        0 <= d <= 9,
    ensures
        digit_val(char_of_digit(d)) == d,
        is_digit_char(char_of_digit(d)),
{
    if d == 0 {
        assert('0' as u32 == 48);
    } else if d == 1 {
        assert('1' as u32 == 49);
    } else if d == 2 {
        assert('2' as u32 == 50);
    } else if d == 3 {
        assert('3' as u32 == 51);
    } else if d == 4 {
        assert('4' as u32 == 52);
    } else if d == 5 {
        assert('5' as u32 == 53);
    } else if d == 6 {
        assert('6' as u32 == 54);
    } else if d == 7 {
        assert('7' as u32 == 55);
    } else if d == 8 {
        assert('8' as u32 == 56);
    } else {
        assert('9' as u32 == 57);
    }
}

/// What the decimal rendering of `n` looks like: non-empty, all digits, and
/// parsing it back gives `n`.
pub proof fn lemma_digits_spec(n: nat)
    ensures
        digits_spec(n).len() >= 1,
        forall|k: int| 0 <= k < digits_spec(n).len() ==> is_digit_char(#[trigger] digits_spec(n)[k]),
        digits_val(digits_spec(n)) == n,
    decreases n,
{
    if n < 10 {
        lemma_digit_char_val(n as int);
        let w = digits_spec(n);
        assert(w == seq![char_of_digit(n as int)]);
        assert(w.drop_last() =~= Seq::<char>::empty());
        assert(digits_val(Seq::<char>::empty()) == 0);
        assert(w.last() == char_of_digit(n as int));
        assert(digits_val(w) == digits_val(w.drop_last()) * 10 + digit_val(w.last()));
        assert(digits_val(w) == n);
    } else {
        lemma_digit_char_val((n % 10) as int);
        lemma_digits_spec(n / 10);
        let a = digits_spec(n / 10);
        let w = digits_spec(n);
        assert(w == a + seq![char_of_digit((n % 10) as int)]);
        assert(w.drop_last() =~= a);
        assert(w.last() == char_of_digit((n % 10) as int));
        assert(digits_val(w) == digits_val(a) * 10 + digit_val(char_of_digit((n % 10) as int)));
        assert((n / 10) * 10 + (n % 10) == n) by (nonlinear_arith);
    }
}

/// Executable parse of the digit run `s[from..to]`, erring exactly on
/// overflow as `str::parse::<usize>` does.
pub fn parse_usize(s: &Vec<char>, from: usize, to: usize) -> (r: Option<usize>)
    requires
        from <= to <= s@.len(),
        forall|k: int| from <= k < to ==> is_digit_char(#[trigger] s@[k]),
    ensures
        ({
            let v = digits_val(s@.subrange(from as int, to as int));
            match r {
                Option::Some(u) => u == v,
                Option::None => v > usize::MAX,
            }
        }),
{
    let ghost whole = s@.subrange(from as int, to as int);
    proof {
        assert(forall|k: int| 0 <= k < whole.len() ==> is_digit_char(#[trigger] whole[k]));
    }
    let mut acc: usize = 0;
    let mut i: usize = from;
    while i < to
        invariant
            from <= i <= to <= s@.len(),
            forall|k: int| from <= k < to ==> is_digit_char(#[trigger] s@[k]),
            whole == s@.subrange(from as int, to as int),
            forall|k: int| 0 <= k < whole.len() ==> is_digit_char(#[trigger] whole[k]),
            acc == digits_val(whole.take(i - from)),
        decreases to - i,
    {
        let c = s[i];
        let d: usize = (c as u32 as usize) - 48;
        proof {
            assert(is_digit_char(c));
            assert(c as u32 >= 48 && c as u32 <= 57);
        }
        if acc > usize::MAX / 10 {
            proof {
                assert(10 * (usize::MAX as int / 10) <= usize::MAX as int) by (nonlinear_arith);
                assert(whole.take(i + 1 - from).drop_last() =~= whole.take(i - from));
                assert(whole.take(i + 1 - from).last() == whole[i - from]);
                assert(digits_val(whole.take(i + 1 - from)) == acc * 10 + digit_val(whole[i - from]));
                assert(acc * 10 > usize::MAX) by (nonlinear_arith)
                    requires
                        acc > usize::MAX / 10,
                ;
                assert(digits_val(whole.take(i + 1 - from)) > usize::MAX);
                lemma_digits_val_prefix(whole, i + 1 - from);
            }
            return Option::None;
        }
        proof {
            assert(acc * 10 <= usize::MAX) by (nonlinear_arith)
                requires
                    acc <= usize::MAX / 10,
            ;
        }
        let acc10: usize = acc * 10;
        if d > usize::MAX - acc10 {
            proof {
                assert(whole.take(i + 1 - from).drop_last() =~= whole.take(i - from));
                assert(whole.take(i + 1 - from).last() == whole[i - from]);
                assert(digit_val(whole[i - from]) == d);
                assert(digits_val(whole.take(i + 1 - from)) == acc10 + d);
                lemma_digits_val_prefix(whole, i + 1 - from);
            }
            return Option::None;
        }
        acc = acc10 + d;
        proof {
            assert(whole.take(i + 1 - from).drop_last() =~= whole.take(i - from));
            assert(whole.take(i + 1 - from).last() == whole[i - from]);
            assert(digit_val(whole[i - from]) == d);
        }
        i = i + 1;
    }
    proof {
        assert(whole.take(to - from) =~= whole);
    }
    Option::Some(acc)
}

/// The first index at or after `from` holding a non-digit; `s.len()` if the
/// digits reach the end.
pub open spec fn skip_digits(s: Seq<char>, from: int) -> int
    decreases s.len() - from,
{
    if from < 0 || from >= s.len() {
        s.len() as int
    } else if is_digit_char(s[from]) {
        skip_digits(s, from + 1)
    } else {
        from
    }
}

/// What [`skip_digits`] returns: the end of the digit run starting at
/// `from`.
pub proof fn lemma_skip_digits(s: Seq<char>, from: int)
    requires
        0 <= from <= s.len(),
    ensures
        from <= skip_digits(s, from) <= s.len(),
        forall|k: int| from <= k < skip_digits(s, from) ==> is_digit_char(#[trigger] s[k]),
        skip_digits(s, from) < s.len() ==> !is_digit_char(s[skip_digits(s, from)]),
    decreases s.len() - from,
{
    if from < s.len() && is_digit_char(s[from]) {
        lemma_skip_digits(s, from + 1);
    }
}

/// Executable form of [`skip_digits`].
pub fn skip_digits_exec(s: &Vec<char>, from: usize) -> (r: usize)
    requires
        from <= s@.len(),
    ensures
        r as int == skip_digits(s@, from as int),
        from <= r <= s@.len(),
{
    proof {
        lemma_skip_digits(s@, from as int);
    }
    let mut i: usize = from;
    while i < s.len()
        invariant
            from <= i <= s@.len(),
            skip_digits(s@, from as int) == skip_digits(s@, i as int),
        decreases s@.len() - i,
    {
        if !digit_char(s[i]) {
            return i;
        }
        i = i + 1;
    }
    i
}

/// The first index at or after `from` holding an ASCII space; `s.len()` if
/// none follows.
pub open spec fn skip_non_spaces(s: Seq<char>, from: int) -> int
    decreases s.len() - from,
{
    if from < 0 || from >= s.len() {
        s.len() as int
    } else if s[from] != ' ' {
        skip_non_spaces(s, from + 1)
    } else {
        from
    }
}

/// What [`skip_non_spaces`] returns: the end of the non-space run starting
/// at `from`.
pub proof fn lemma_skip_non_spaces(s: Seq<char>, from: int)
    requires
        0 <= from <= s.len(),
    ensures
        from <= skip_non_spaces(s, from) <= s.len(),
        forall|k: int| from <= k < skip_non_spaces(s, from) ==> s[k] != ' ',
        skip_non_spaces(s, from) < s.len() ==> s[skip_non_spaces(s, from)] == ' ',
    decreases s.len() - from,
{
    if from < s.len() && s[from] != ' ' {
        lemma_skip_non_spaces(s, from + 1);
    }
}

/// Executable form of [`skip_non_spaces`].
pub fn skip_non_spaces_exec(s: &Vec<char>, from: usize) -> (r: usize)
    requires
        from <= s@.len(),
    ensures
        r as int == skip_non_spaces(s@, from as int),
        from <= r <= s@.len(),
{
    proof {
        lemma_skip_non_spaces(s@, from as int);
    }
    let mut i: usize = from;
    while i < s.len()
        invariant
            from <= i <= s@.len(),
            skip_non_spaces(s@, from as int) == skip_non_spaces(s@, i as int),
        decreases s@.len() - i,
    {
        if s[i] == ' ' {
            return i;
        }
        i = i + 1;
    }
    i
}

/// The last index holding something other than an ASCII space, or `-1` if
/// there is none.
pub open spec fn last_non_space(s: Seq<char>) -> int
    decreases s,
{
    if s.len() == 0 {
        -1
    } else if s.last() != ' ' {
        s.len() - 1
    } else {
        last_non_space(s.drop_last())
    }
}

/// What [`last_non_space`] returns.
pub proof fn lemma_last_non_space(s: Seq<char>)
    ensures
        -1 <= last_non_space(s) < s.len(),
        last_non_space(s) >= 0 ==> s[last_non_space(s)] != ' ',
        forall|k: int| last_non_space(s) < k < s.len() ==> s[k] == ' ',
        last_non_space(s) == -1 ==> forall|k: int| 0 <= k < s.len() ==> s[k] == ' ',
    decreases s,
{
    if s.len() > 0 && s.last() == ' ' {
        lemma_last_non_space(s.drop_last());
        let l = last_non_space(s);
        assert forall|k: int| l < k < s.len() implies s[k] == ' ' by {
            if k < s.len() - 1 {
                assert(s.drop_last()[k] == ' ');
                assert(s[k] == s.drop_last()[k]);
            }
        }
        if l == -1 {
            assert forall|k: int| 0 <= k < s.len() implies s[k] == ' ' by {
                if k < s.len() - 1 {
                    assert(s.drop_last()[k] == ' ');
                    assert(s[k] == s.drop_last()[k]);
                }
            }
        }
    }
}

/// Executable form of [`last_non_space`], returning `None` for `-1`.
pub fn last_non_space_exec(s: &Vec<char>) -> (r: Option<usize>)
    ensures
        match r {
            Option::Some(j) => j as int == last_non_space(s@),
            Option::None => last_non_space(s@) == -1,
        },
{
    let mut i: usize = s.len();
    proof {
        assert(s@.take(s@.len() as int) =~= s@);
    }
    while i > 0
        invariant
            i <= s@.len(),
            last_non_space(s@) == last_non_space(s@.take(i as int)),
        decreases i,
    {
        proof {
            assert(s@.take(i as int).drop_last() =~= s@.take(i - 1));
            assert(s@.take(i as int).last() == s@[i - 1]);
        }
        if s[i - 1] != ' ' {
            proof {
                assert(last_non_space(s@.take(i as int)) == i - 1);
            }
            return Option::Some(i - 1);
        }
        i = i - 1;
    }
    proof {
        assert(s@.take(0) =~= Seq::<char>::empty());
    }
    Option::None
}

/// A fresh vector holding `v[from..to]`.
pub fn copy_range(v: &Vec<char>, from: usize, to: usize) -> (r: Vec<char>)
    requires
        from <= to <= v@.len(),
    ensures
        r@ == v@.subrange(from as int, to as int),
{
    let mut r: Vec<char> = Vec::new();
    let mut i: usize = from;
    while i < to
        invariant
            from <= i <= to <= v@.len(),
            r@ == v@.subrange(from as int, i as int),
        decreases to - i,
    {
        r.push(v[i]);
        proof {
            assert(r@ =~= v@.subrange(from as int, i + 1 as int));
        }
        i = i + 1;
    }
    r
}

} // verus!

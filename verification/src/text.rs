//! Text rules: whitespace trimming, case folding and lexicographic order.

use vstd::prelude::*;

verus! {

/// The characters that `char::is_whitespace` accepts: the Unicode
/// `White_Space` property.
pub open spec fn is_white_space(c: char) -> bool {
    let u = c as u32;
    ||| 0x09 <= u <= 0x0D
    ||| u == 0x20
    ||| u == 0x85
    ||| u == 0xA0
    ||| u == 0x1680
    ||| 0x2000 <= u <= 0x200A
    ||| u == 0x2028
    ||| u == 0x2029
    ||| u == 0x202F
    ||| u == 0x205F
    ||| u == 0x3000
}

/// The first index at or after `i` that holds no whitespace, or the length.
pub open spec fn first_kept(s: Seq<char>, i: int) -> int
    decreases s.len() - i,
{
    if i >= s.len() {
        s.len() as int
    } else if is_white_space(s[i]) {
        first_kept(s, i + 1)
    } else {
        i
    }
}

/// The largest end at or before `j` whose previous character is no whitespace, or `0`.
pub open spec fn last_kept_end(s: Seq<char>, j: int) -> int
    decreases j,
{
    if j <= 0 {
        0
    } else if is_white_space(s[j - 1]) {
        last_kept_end(s, j - 1)
    } else {
        j
    }
}

/// `str::trim`: the text without its leading and trailing whitespace.
pub open spec fn trimmed(s: Seq<char>) -> Seq<char> {
    let start = first_kept(s, 0);
    let end = last_kept_end(s, s.len() as int);
    if start >= end {
        Seq::empty()
    } else {
        s.subrange(start, end)
    }
}

/// Lexicographic order of character sequences, the order of `String`'s `Ord`
/// (UTF-8 byte order and code point order agree).
pub open spec fn lex_less(a: Seq<char>, b: Seq<char>) -> bool
    decreases a.len(),
{
    if a.len() == 0 {
        b.len() > 0
    } else if b.len() == 0 {
        false
    } else if a[0] != b[0] {
        (a[0] as int) < (b[0] as int)
    } else {
        lex_less(a.drop_first(), b.drop_first())
    }
}

/// What `str::to_lowercase` returns for a text (the Unicode lowercase mapping).
pub uninterp spec fn lowercase_of(s: Seq<char>) -> Seq<char>;

/// What `str::to_ascii_lowercase` does: ASCII capitals become small letters.
pub open spec fn ascii_lower_char(c: char) -> char {
    if 'A' <= c <= 'Z' { ((c as u32) + 32) as char } else { c }
}

/// Whether a character is whitespace.
pub fn white_space(c: char) -> (result: bool)
    ensures
        result == is_white_space(c),
{
    let u = c as u32;
    (0x09 <= u && u <= 0x0D) || u == 0x20 || u == 0x85 || u == 0xA0 || u == 0x1680 || (0x2000 <= u
        && u <= 0x200A) || u == 0x2028 || u == 0x2029 || u == 0x202F || u == 0x205F || u == 0x3000
}

proof fn lemma_first_kept_bounds(s: Seq<char>, i: int)
    requires
        0 <= i <= s.len(),
    ensures
        i <= first_kept(s, i) <= s.len(),
        first_kept(s, i) < s.len() ==> !is_white_space(s[first_kept(s, i)]),
    decreases s.len() - i,
{
    if i < s.len() && is_white_space(s[i]) {
        lemma_first_kept_bounds(s, i + 1);
    }
}

proof fn lemma_last_kept_end_bounds(s: Seq<char>, j: int)
    requires
        0 <= j <= s.len(),
    ensures
        0 <= last_kept_end(s, j) <= j,
        last_kept_end(s, j) > 0 ==> !is_white_space(s[last_kept_end(s, j) - 1]),
        forall|k: int| last_kept_end(s, j) <= k < j ==> is_white_space(#[trigger] s[k]),
    decreases j,
{
    if j > 0 && is_white_space(s[j - 1]) {
        lemma_last_kept_end_bounds(s, j - 1);
    }
}

/// `str::trim`, computed character by character.
pub fn trim(s: &str) -> (result: String)
    ensures
        result@ == trimmed(s@),
{
    let n = s.unicode_len();
    let mut i: usize = 0;
    while i < n && white_space(s.get_char(i))
        invariant
            n == s@.len(),
            0 <= i <= n,
            first_kept(s@, i as int) == first_kept(s@, 0),
        decreases n - i,
    {
        i = i + 1;
    }
    proof {
        lemma_first_kept_bounds(s@, i as int);
        lemma_last_kept_end_bounds(s@, n as int);
    }
    let mut j: usize = n;
    while j > i && white_space(s.get_char(j - 1))
        invariant
            n == s@.len(),
            i <= j <= n,
            i as int == first_kept(s@, 0),
            last_kept_end(s@, j as int) == last_kept_end(s@, n as int),
        decreases j,
    {
        j = j - 1;
    }
    proof {
        lemma_last_kept_end_bounds(s@, j as int);
        lemma_last_kept_end_bounds(s@, n as int);
        if j > i {
            assert(last_kept_end(s@, j as int) == j as int);
        } else {
            // every character after i is whitespace, so the kept end cannot pass i
            if last_kept_end(s@, n as int) > i as int {
                let e = last_kept_end(s@, n as int);
                assert(!is_white_space(s@[e - 1]));
                lemma_first_kept_bounds(s@, 0);
            }
        }
    }
    let part = s.substring_char(i, j);
    part.to_owned()
}

/// `str::to_lowercase`: the contract claims only that the result is the
/// Unicode lowercase mapping of the text, a function of the text alone.
#[verifier::external_body]
pub(crate) fn lowercase(s: &str) -> (result: String)
    ensures
        result@ == lowercase_of(s@),
{
    s.to_lowercase()
}

/// Whether `a` comes strictly before `b` in the order of `String`'s `Ord`.
pub fn text_less(a: &str, b: &str) -> (result: bool)
    ensures
        result == lex_less(a@, b@),
{
    let n = a.unicode_len();
    let m = b.unicode_len();
    let mut i: usize = 0;
    assert(a@.skip(0) =~= a@);
    assert(b@.skip(0) =~= b@);
    while i < n && i < m
        invariant
            n == a@.len(),
            m == b@.len(),
            i <= n,
            i <= m,
            lex_less(a@, b@) == lex_less(a@.skip(i as int), b@.skip(i as int)),
        decreases n - i,
    {
        let x = a.get_char(i);
        let y = b.get_char(i);
        if x != y {
            assert(a@.skip(i as int)[0] == x);
            assert(b@.skip(i as int)[0] == y);
            return x < y;
        }
        assert(a@.skip(i as int).drop_first() =~= a@.skip(i + 1));
        assert(b@.skip(i as int).drop_first() =~= b@.skip(i + 1));
        i = i + 1;
    }
    assert(a@.skip(i as int).len() == n - i);
    i == n && i < m
}

/// `lex_less` is a strict order: never both ways.
pub proof fn lemma_lex_less_asymmetric(a: Seq<char>, b: Seq<char>)
    ensures
        !(lex_less(a, b) && lex_less(b, a)),
    decreases a.len(),
{
    if a.len() > 0 && b.len() > 0 && a[0] == b[0] {
        lemma_lex_less_asymmetric(a.drop_first(), b.drop_first());
    }
}

/// `lex_less` is total on distinct sequences.
pub proof fn lemma_lex_less_total(a: Seq<char>, b: Seq<char>)
    ensures
        a != b ==> lex_less(a, b) || lex_less(b, a),
    decreases a.len(),
{
    if a.len() > 0 && b.len() > 0 && a[0] == b[0] {
        lemma_lex_less_total(a.drop_first(), b.drop_first());
        if a.drop_first() == b.drop_first() {
            assert(a =~= seq![a[0]] + a.drop_first());
            assert(b =~= seq![b[0]] + b.drop_first());
        }
    } else if a.len() == 0 && b.len() == 0 {
        assert(a =~= b);
    } else if a.len() > 0 && b.len() > 0 {
        assert((a[0] as int) != (b[0] as int));
    }
}

/// `lex_less` is transitive.
pub proof fn lemma_lex_less_transitive(a: Seq<char>, b: Seq<char>, c: Seq<char>)
    requires
        lex_less(a, b),
        lex_less(b, c),
    ensures
        lex_less(a, c),
    decreases a.len(),
{
    if a.len() > 0 && b.len() > 0 && c.len() > 0 && a[0] == b[0] && b[0] == c[0] {
        lemma_lex_less_transitive(a.drop_first(), b.drop_first(), c.drop_first());
    }
}

/// Lowers an ASCII capital.
pub fn ascii_lower(c: char) -> (lowered: char)
    ensures
        lowered == ascii_lower_char(c),
{
    if 'A' <= c && c <= 'Z' {
        let u = (c as u32) + 32;
        let b = u as u8;
        b as char
    } else {
        c
    }
}

/// `str::eq_ignore_ascii_case`.
pub fn eq_ignore_ascii_case(a: &str, b: &str) -> (equal: bool)
    ensures
        equal == crate::domain::ascii_case_equal(a@, b@),
{
    let n = a.unicode_len();
    if n != b.unicode_len() {
        return false;
    }
    let mut i: usize = 0;
    while i < n
        invariant
            n == a@.len(),
            n == b@.len(),
            i <= n,
            forall|k: int| 0 <= k < i ==> ascii_lower_char(#[trigger] a@[k]) == ascii_lower_char(b@[k]),
        decreases n - i,
    {
        if ascii_lower(a.get_char(i)) != ascii_lower(b.get_char(i)) {
            return false;
        }
        i = i + 1;
    }
    true
}

/// An ASCII decimal digit.
pub open spec fn is_digit(c: char) -> bool {
    '0' <= c && c <= '9'
}

/// The value of a digit character.
pub open spec fn digit_value(c: char) -> int {
    (c as int) - ('0' as int)
}

/// The value of a string of decimal digits.
pub open spec fn digits_value(s: Seq<char>) -> int
    decreases s.len(),
{
    if s.len() == 0 {
        0
    } else {
        digits_value(s.drop_last()) * 10 + digit_value(s.last())
    }
}

/// The digits of an unsigned number: an optional leading `+` is dropped.
pub open spec fn unsigned_body(s: Seq<char>) -> Seq<char> {
    if s.len() > 0 && s[0] == '+' { s.drop_first() } else { s }
}

/// What `str::parse::<u32>` accepts and returns: an optional `+`, then at
/// least one decimal digit, for a value that fits.
pub open spec fn parsed_u32(s: Seq<char>) -> Option<u32> {
    let body = unsigned_body(s);
    if body.len() > 0 && (forall|i: int| 0 <= i < body.len() ==> is_digit(#[trigger] body[i]))
        && digits_value(body) <= u32::MAX {
        Some(digits_value(body) as u32)
    } else {
        None
    }
}

/// The character of a digit.
pub open spec fn digit_char(d: nat) -> char {
    ((d + ('0' as nat)) as u32) as char
}

/// The decimal representation of a number, as `Display` writes it.
pub open spec fn decimal_of(n: nat) -> Seq<char>
    decreases n,
{
    if n < 10 {
        seq![digit_char(n)]
    } else {
        decimal_of(n / 10).push(digit_char(n % 10))
    }
}

proof fn lemma_digits_value_nonnegative(s: Seq<char>)
    requires
        forall|i: int| 0 <= i < s.len() ==> is_digit(#[trigger] s[i]),
    ensures
        digits_value(s) >= 0,
    decreases s.len(),
{
    if s.len() > 0 {
        lemma_digits_value_nonnegative(s.drop_last());
    }
}

/// `str::parse::<u32>`, computed digit by digit.
pub fn parse_u32(text: &str) -> (value: Option<u32>)
    ensures
        value == parsed_u32(text@),
{
    let n = text.unicode_len();
    let mut start: usize = 0;
    if n > 0 && text.get_char(0) == '+' {
        start = 1;
    }
    let ghost body = unsigned_body(text@);
    assert(body =~= text@.subrange(start as int, n as int));
    if start >= n {
        return None;
    }
    let mut i: usize = start;
    let mut value: u64 = 0;
    let mut overflow = false;
    while i < n
        invariant
            n == text@.len(),
            start <= i <= n,
            body =~= text@.subrange(start as int, n as int),
            body == unsigned_body(text@),
            forall|k: int| 0 <= k < i - start ==> is_digit(#[trigger] body[k]),
            !overflow ==> value == digits_value(body.take(i - start)) && value <= u32::MAX,
            overflow ==> digits_value(body.take(i - start)) > u32::MAX,
        decreases n - i,
    {
        let c = text.get_char(i);
        if !('0' <= c && c <= '9') {
            assert(!is_digit(body[i - start]));
            assert(!(forall|k: int| 0 <= k < body.len() ==> is_digit(#[trigger] body[k])));
            return None;
        }
        let d = (c as u64) - ('0' as u64);
        let ghost prefix = body.take(i - start);
        assert(body.take(i - start + 1).drop_last() =~= prefix);
        assert(body.take(i - start + 1).last() == c);
        proof {
            lemma_digits_value_nonnegative(prefix);
        }
        if !overflow {
            let next = value * 10 + d;
            if next > 0xFFFF_FFFF {
                overflow = true;
            } else {
                value = next;
            }
        } else {
            let ghost p = digits_value(prefix);
            assert(p * 10 + digit_value(c) > u32::MAX) by (nonlinear_arith)
                requires p > u32::MAX, digit_value(c) >= 0;
        }
        i = i + 1;
    }
    assert(body.take(n - start) =~= body);
    if overflow { None } else { Some(value as u32) }
}

/// Whether two texts are equal, character by character.
pub fn text_equals(a: &str, b: &str) -> (equal: bool)
    ensures
        equal == (a@ == b@),
{
    let n = a.unicode_len();
    if n != b.unicode_len() {
        return false;
    }
    let mut i: usize = 0;
    while i < n
        invariant
            n == a@.len(),
            n == b@.len(),
            i <= n,
            forall|k: int| 0 <= k < i ==> a@[k] == b@[k],
        decreases n - i,
    {
        if a.get_char(i) != b.get_char(i) {
            return false;
        }
        i = i + 1;
    }
    assert(a@ =~= b@);
    true
}

fn digit_text(d: u64) -> (text: &'static str)
    requires
        d < 10,
    ensures
        text@ == seq![digit_char(d as nat)],
{
    proof {
        reveal_strlit("0"); reveal_strlit("1"); reveal_strlit("2"); reveal_strlit("3"); reveal_strlit("4");
        reveal_strlit("5"); reveal_strlit("6"); reveal_strlit("7"); reveal_strlit("8"); reveal_strlit("9");
    }
    let text = match d {
        0 => "0", 1 => "1", 2 => "2", 3 => "3", 4 => "4",
        5 => "5", 6 => "6", 7 => "7", 8 => "8", _ => "9",
    };
    assert(text@ =~= seq![digit_char(d as nat)]);
    text
}

/// The decimal representation of a number, as `Display` writes it.
pub fn decimal_u64(n: u64) -> (text: String)
    ensures
        text@ == decimal_of(n as nat),
    decreases n,
{
    if n < 10 {
        String::from_str(digit_text(n))
    } else {
        let mut text = decimal_u64(n / 10);
        text.append(digit_text(n % 10));
        text
    }
}

/// The decimal representation of a number, as `Display` writes it.
pub fn decimal(n: u32) -> (text: String)
    ensures
        text@ == decimal_of(n as nat),
{
    decimal_u64(n as u64)
}

/// Joins two texts with a comma between them.
pub fn comma_join(a: &str, b: &str) -> (joined: String)
    ensures
        joined@ == a@ + seq![','] + b@,
{
    let mut joined = String::from_str(a);
    let comma = ",";
    proof { reveal_strlit(","); }
    joined.append(comma);
    joined.append(b);
    joined
}

} // verus!

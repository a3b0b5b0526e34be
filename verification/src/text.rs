//! Character-level text helpers shared by the template engine, the line
//! protocol and the trial bookkeeping.

use vstd::prelude::*;

verus! {

/// Lexicographic order on character sequences (the order of `String`'s `Ord`).
pub open spec fn seq_lt(a: Seq<char>, b: Seq<char>) -> bool
    decreases a.len(),
{
    if a.len() == 0 {
        b.len() > 0
    } else if b.len() == 0 {
        false
    } else if a[0] != b[0] {
        a[0] < b[0]
    } else {
        seq_lt(a.drop_first(), b.drop_first())
    }
}

/// The character sequences of a list of strings.
pub open spec fn views(v: Seq<String>) -> Seq<Seq<char>> {
    v.map_values(|s: String| s@)
}

/// `p` is a prefix of `s`.
pub open spec fn has_prefix(s: Seq<char>, p: Seq<char>) -> bool {
    p.len() <= s.len() && s.subrange(0, p.len() as int) == p
}

/// `p` occurs in `s` starting at position `i`.
pub open spec fn occurs_at(s: Seq<char>, p: Seq<char>, i: int) -> bool {
    0 <= i && i + p.len() <= s.len() && s.subrange(i, i + p.len()) == p
}

/// `p` occurs somewhere in `s`.
pub open spec fn has_infix(s: Seq<char>, p: Seq<char>) -> bool {
    exists|i: int| occurs_at(s, p, i)
}

/// Index of the first occurrence of `p` in `s` at or after position `i`.
pub open spec fn find_from(s: Seq<char>, p: Seq<char>, i: int) -> Option<int>
    decreases s.len() + 1 - i,
{
    if i < 0 || i + p.len() > s.len() {
        None
    } else if occurs_at(s, p, i) {
        Some(i)
    } else {
        find_from(s, p, i + 1)
    }
}

/// Index of the first occurrence of `p` in `s`, if any.
pub open spec fn first_occurrence(s: Seq<char>, p: Seq<char>) -> Option<int> {
    find_from(s, p, 0)
}

/// `find_from` finds an occurrence exactly when one exists at or after `i`,
/// and it finds the earliest one.
pub proof fn lemma_find_from(s: Seq<char>, p: Seq<char>, i: int)
    requires
        0 <= i,
    ensures
        find_from(s, p, i) matches Some(k) ==> i <= k && occurs_at(s, p, k) && forall|j: int|
            i <= j < k ==> !occurs_at(s, p, j),
        find_from(s, p, i) is None ==> forall|j: int| i <= j ==> !occurs_at(s, p, j),
    decreases s.len() + 1 - i,
{
    if i + p.len() > s.len() {
    } else if occurs_at(s, p, i) {
    } else {
        lemma_find_from(s, p, i + 1);
    }
}

/// The characters of `s` as a vector.
pub fn chars_of(s: &str) -> (r: Vec<char>)
    ensures
        r@ == s@,
{
    let mut r: Vec<char> = Vec::new();
    for c in it: s.chars()
        invariant
            r@ == it.seq().take(it.index() as int),
    {
        r.push(c);
    }
    r
}

/// The string made of the characters in `v` (`String: FromIterator<&char>`).
#[verifier::external_body]
pub(crate) fn string_of(v: &[char]) -> (r: String)
    ensures
        r@ == v@,
{
    String::from_iter(v.iter())
}

/// `String` from a string slice.
pub fn owned(s: &str) -> (r: String)
    ensures
        r@ == s@,
{
    s.to_owned()
}

/// Whether two character sequences are equal.
pub fn chars_eq(a: &[char], b: &[char]) -> (r: bool)
    ensures
        r == (a@ == b@),
{
    if a.len() != b.len() {
        return false;
    }
    let mut i: usize = 0;
    while i < a.len()
        invariant
            a.len() == b.len(),
            i <= a.len(),
            forall|j: int| 0 <= j < i ==> a@[j] == b@[j],
        decreases a.len() - i,
    {
        if a[i] != b[i] {
            return false;
        }
        i = i + 1;
    }
    assert(a@ =~= b@);
    true
}

/// Whether two strings are equal.
pub fn str_eq(a: &str, b: &str) -> (r: bool)
    ensures
        r == (a@ == b@),
{
    let va = chars_of(a);
    let vb = chars_of(b);
    chars_eq(&va, &vb)
}

/// Whether `p` occurs in `s` at position `i`.
pub fn chars_occur_at(s: &[char], p: &[char], i: usize) -> (r: bool)
    ensures
        r == occurs_at(s@, p@, i as int),
{
    if i > s.len() || p.len() > s.len() - i {
        return false;
    }
    let mut k: usize = 0;
    while k < p.len()
        invariant
            i + p.len() <= s.len(),
            k <= p.len(),
            forall|j: int| 0 <= j < k ==> s@[i + j] == p@[j],
        decreases p.len() - k,
    {
        if s[i + k] != p[k] {
            assert(s@.subrange(i as int, i + p.len())[k as int] != p@[k as int]);
            return false;
        }
        k = k + 1;
    }
    assert(s@.subrange(i as int, i + p.len()) =~= p@);
    true
}

/// Whether `s` starts with `p`.
pub fn chars_starts_with(s: &[char], p: &[char]) -> (r: bool)
    ensures
        r == has_prefix(s@, p@),
{
    chars_occur_at(s, p, 0)
}

/// Whether string `s` starts with `p`.
pub fn str_starts_with(s: &str, p: &str) -> (r: bool)
    ensures
        r == has_prefix(s@, p@),
{
    let vs = chars_of(s);
    let vp = chars_of(p);
    chars_starts_with(&vs, &vp)
}

/// Position of the first occurrence of `p` in `s`.
pub fn chars_find(s: &[char], p: &[char]) -> (r: Option<usize>)
    ensures
        r == (match first_occurrence(s@, p@) {
            Some(i) => Some(i as usize),
            None => None::<usize>,
        }),
        r matches Some(i) ==> occurs_at(s@, p@, i as int),
        r is None ==> !has_infix(s@, p@),
{
    proof {
        lemma_find_from(s@, p@, 0);
    }
    if p.len() > s.len() {
        assert(find_from(s@, p@, 0) is None);
        return None;
    }
    let last = s.len() - p.len();
    let mut i: usize = 0;
    loop
        invariant
            last + p.len() == s.len(),
            i <= last,
            find_from(s@, p@, 0) == find_from(s@, p@, i as int),
        decreases last - i,
    {
        if chars_occur_at(s, p, i) {
            return Some(i);
        }
        assert(find_from(s@, p@, i as int) == find_from(s@, p@, i + 1));
        if i == last {
            assert(find_from(s@, p@, i + 1) is None);
            proof {
                lemma_find_from(s@, p@, 0);
                if has_infix(s@, p@) {
                    let w = choose|k: int| occurs_at(s@, p@, k);
                    assert(occurs_at(s@, p@, w));
                }
            }
            return None;
        }
        i = i + 1;
    }
}

/// Whether `p` occurs in `s`.
pub fn chars_contains(s: &[char], p: &[char]) -> (r: bool)
    ensures
        r == has_infix(s@, p@),
{
    match chars_find(s, p) {
        Some(_) => true,
        None => false,
    }
}

/// Whether string `s` contains `p`.
pub fn str_contains(s: &str, p: &str) -> (r: bool)
    ensures
        r == has_infix(s@, p@),
{
    let vs = chars_of(s);
    let vp = chars_of(p);
    chars_contains(&vs, &vp)
}

/// The character of a decimal digit.
pub open spec fn digit_char(d: nat) -> char {
    if d == 0 { '0' }
    else if d == 1 { '1' }
    else if d == 2 { '2' }
    else if d == 3 { '3' }
    else if d == 4 { '4' }
    else if d == 5 { '5' }
    else if d == 6 { '6' }
    else if d == 7 { '7' }
    else if d == 8 { '8' }
    else { '9' }
}

/// Decimal digits of `n`, most significant first, without leading zeros.
pub open spec fn decimal(n: nat) -> Seq<char>
    decreases n,
{
    if n < 10 {
        seq![digit_char(n)]
    } else {
        decimal(n / 10).push(digit_char(n % 10))
    }
}

/// Whether `c` is an ASCII decimal digit.
pub open spec fn is_digit(c: char) -> bool {
    '0' <= c && c <= '9'
}

/// Value of an ASCII decimal digit.
pub open spec fn digit_value(c: char) -> nat {
    (c as u32 - '0' as u32) as nat
}

/// Value of a sequence of decimal digits (most significant first).
pub open spec fn digits_value(s: Seq<char>) -> nat
    decreases s.len(),
{
    if s.len() == 0 {
        0
    } else {
        digits_value(s.drop_last()) * 10 + digit_value(s.last())
    }
}

/// Every character of `s` is a decimal digit.
pub open spec fn all_digits(s: Seq<char>) -> bool {
    forall|i: int| 0 <= i < s.len() ==> is_digit(#[trigger] s[i])
}

/// What `str::parse::<usize>` accepts: an optional `+` then at least one
/// decimal digit, with a value that fits in `usize`.
pub open spec fn parse_usize_spec(s: Seq<char>) -> Option<nat> {
    let d = if s.len() > 0 && s[0] == '+' { s.drop_first() } else { s };
    if d.len() > 0 && all_digits(d) && digits_value(d) <= usize::MAX {
        Some(digits_value(d))
    } else {
        None
    }
}

/// What `str::parse::<usize>` gives for `s`.
pub open spec fn parsed_usize(s: Seq<char>) -> Option<usize> {
    match parse_usize_spec(s) {
        Some(v) => Some(v as usize),
        None => None,
    }
}

/// The text of a `bool` as `str::parse::<bool>` reads it.
pub open spec fn parse_bool_spec(s: Seq<char>) -> Option<bool> {
    if s == seq!['t', 'r', 'u', 'e'] {
        Some(true)
    } else if s == seq!['f', 'a', 'l', 's', 'e'] {
        Some(false)
    } else {
        None
    }
}

fn digit_to_char(d: usize) -> (c: char)
    requires
        d < 10,
    ensures
        c == digit_char(d as nat),
{
    if d == 0 { '0' }
    else if d == 1 { '1' }
    else if d == 2 { '2' }
    else if d == 3 { '3' }
    else if d == 4 { '4' }
    else if d == 5 { '5' }
    else if d == 6 { '6' }
    else if d == 7 { '7' }
    else if d == 8 { '8' }
    else { '9' }
}

/// Append the decimal digits of `n` to `out`.
pub fn push_decimal(n: usize, out: &mut Vec<char>)
    ensures
        final(out)@ == old(out)@ + decimal(n as nat),
    decreases n,
{
    if n < 10 {
        out.push(digit_to_char(n));
        assert(decimal(n as nat) == seq![digit_char(n as nat)]);
    } else {
        push_decimal(n / 10, out);
        out.push(digit_to_char(n % 10));
        assert(decimal(n as nat) == decimal((n / 10) as nat).push(digit_char((n % 10) as nat)));
    }
}

/// The decimal text of `n` (what `usize::to_string` prints).
pub fn usize_text(n: usize) -> (r: String)
    ensures
        r@ == decimal(n as nat),
{
    let mut v: Vec<char> = Vec::new();
    push_decimal(n, &mut v);
    assert(v@ =~= decimal(n as nat));
    string_of(&v)
}

proof fn lemma_digits_value_prefix(s: Seq<char>, i: int)
    requires
        0 <= i <= s.len(),
    ensures
        digits_value(s.take(i)) <= digits_value(s),
    decreases s.len() - i,
{
    if i < s.len() {
        lemma_digits_value_prefix(s, i + 1);
        assert(s.take(i + 1).drop_last() =~= s.take(i));
    } else {
        assert(s.take(i) =~= s);
    }
}

fn char_digit_value(c: char) -> (r: Option<usize>)
    ensures
        is_digit(c) ==> r == Some(digit_value(c) as usize),
        !is_digit(c) ==> r is None,
{
    if c == '0' { Some(0) }
    else if c == '1' { Some(1) }
    else if c == '2' { Some(2) }
    else if c == '3' { Some(3) }
    else if c == '4' { Some(4) }
    else if c == '5' { Some(5) }
    else if c == '6' { Some(6) }
    else if c == '7' { Some(7) }
    else if c == '8' { Some(8) }
    else if c == '9' { Some(9) }
    else { None }
}

/// Parse a `usize` the way `str::parse::<usize>` does.
pub fn parse_usize_chars(s: &[char]) -> (r: Option<usize>)
    ensures
        r == (match parse_usize_spec(s@) {
            Some(v) => Some(v as usize),
            None => None::<usize>,
        }),
{
    let start: usize = if s.len() > 0 && s[0] == '+' { 1 } else { 0 };
    let ghost d = if s@.len() > 0 && s@[0] == '+' { s@.drop_first() } else { s@ };
    assert(d =~= s@.subrange(start as int, s@.len() as int));
    if start >= s.len() {
        return None;
    }
    let mut acc: usize = 0;
    let mut i: usize = start;
    while i < s.len()
        invariant
            start <= i <= s.len(),
            start < s.len(),
            d == s@.subrange(start as int, s@.len() as int),
            d == (if s@.len() > 0 && s@[0] == '+' { s@.drop_first() } else { s@ }),
            d.len() > 0,
            all_digits(d.take(i - start)),
            acc as nat == digits_value(d.take(i - start)),
        decreases s.len() - i,
    {
        let ghost k = i - start;
        assert(d.take(k + 1).drop_last() =~= d.take(k));
        assert(d.take(k + 1).last() == s@[i as int]);
        match char_digit_value(s[i]) {
            None => {
                assert(!all_digits(d)) by {
                    assert(d[k] == s@[i as int]);
                }
                return None;
            },
            Some(dv) => {
                if acc > (usize::MAX - dv) / 10 {
                    proof {
                        lemma_digits_value_prefix(d, k + 1);
                        assert(d.take(k + 1).take(k + 1) =~= d.take(k + 1));
                        assert(digits_value(d.take(k + 1)) == acc * 10 + dv);
                    }
                    return None;
                }
                acc = acc * 10 + dv;
                assert(all_digits(d.take(k + 1))) by {
                    assert forall|j: int| 0 <= j < k + 1 implies is_digit(#[trigger] d.take(k + 1)[j]) by {
                        if j < k {
                            assert(d.take(k + 1)[j] == d.take(k)[j]);
                        }
                    }
                }
            },
        }
        i = i + 1;
    }
    assert(d.take(d.len() as int) =~= d);
    Some(acc)
}

/// What `str::parse::<i64>` accepts: an optional `+` or `-`, then at least
/// one decimal digit, with a value in the range of `i64`.
pub open spec fn parse_i64_spec(s: Seq<char>) -> Option<int> {
    let neg = s.len() > 0 && s[0] == '-';
    let d = if s.len() > 0 && (s[0] == '-' || s[0] == '+') {
        s.drop_first()
    } else {
        s
    };
    if d.len() > 0 && all_digits(d) && (if neg {
        digits_value(d) <= 0x8000_0000_0000_0000
    } else {
        digits_value(d) <= 0x7fff_ffff_ffff_ffff
    }) {
        Some(
            if neg {
                -(digits_value(d) as int)
            } else {
                digits_value(d) as int
            },
        )
    } else {
        None
    }
}

/// Parse an `i64` from a string the way `str::parse::<i64>` does.
pub fn parse_i64(s: &str) -> (r: Option<i64>)
    ensures
        r == (match parse_i64_spec(s@) {
            Some(v) => Some(v as i64),
            None => None::<i64>,
        }),
{
    let c = chars_of(s);
    let neg = c.len() > 0 && c[0] == '-';
    let start: usize = if c.len() > 0 && (c[0] == '-' || c[0] == '+') {
        1
    } else {
        0
    };
    let ghost d = if c@.len() > 0 && (c@[0] == '-' || c@[0] == '+') {
        c@.drop_first()
    } else {
        c@
    };
    assert(d =~= c@.subrange(start as int, c@.len() as int));
    if start >= c.len() {
        return None;
    }
    let limit: u64 = if neg {
        0x8000_0000_0000_0000
    } else {
        0x7fff_ffff_ffff_ffff
    };
    let mut acc: u64 = 0;
    let mut i: usize = start;
    while i < c.len()
        invariant
            c@ == s@,
            start <= i <= c@.len(),
            start < c@.len(),
            d == c@.subrange(start as int, c@.len() as int),
            d.len() > 0,
            all_digits(d.take(i - start)),
            acc as nat == digits_value(d.take(i - start)),
            acc <= limit,
            d == (if c@.len() > 0 && (c@[0] == '-' || c@[0] == '+') {
                c@.drop_first()
            } else {
                c@
            }),
            neg == (c@.len() > 0 && c@[0] == '-'),
            limit == (if neg {
                0x8000_0000_0000_0000u64
            } else {
                0x7fff_ffff_ffff_ffffu64
            }),
        decreases c@.len() - i,
    {
        let ghost k = i - start;
        assert(d.take(k + 1).drop_last() =~= d.take(k));
        assert(d.take(k + 1).last() == c@[i as int]);
        match char_digit_value(c[i]) {
            None => {
                assert(!all_digits(d)) by {
                    assert(d[k] == c@[i as int]);
                }
                return None;
            },
            Some(dv) => {
                let dv64 = dv as u64;
                assert(dv64 <= 9);
                if acc > (limit - dv64) / 10 {
                    proof {
                        assert(acc * 10 + dv64 > limit) by (nonlinear_arith)
                            requires
                                acc > (limit - dv64) / 10,
                                dv64 <= limit,
                        ;
                        lemma_digits_value_prefix(d, k + 1);
                        assert(d.take(k + 1).take(k + 1) =~= d.take(k + 1));
                        assert(digits_value(d.take(k + 1)) == acc * 10 + dv64);
                    }
                    return None;
                }
                proof {
                    assert(acc * 10 + dv64 <= limit) by (nonlinear_arith)
                        requires
                            acc <= (limit - dv64) / 10,
                            dv64 <= limit,
                    ;
                }
                acc = acc * 10 + dv64;
                assert(all_digits(d.take(k + 1))) by {
                    assert forall|j: int| 0 <= j < k + 1 implies is_digit(
                        #[trigger] d.take(k + 1)[j],
                    ) by {
                        if j < k {
                            assert(d.take(k + 1)[j] == d.take(k)[j]);
                        }
                    }
                }
            },
        }
        i = i + 1;
    }
    assert(d.take(d.len() as int) =~= d);
    if neg {
        if acc == 0x8000_0000_0000_0000 {
            Some(i64::MIN)
        } else {
            Some(0i64 - (acc as i64))
        }
    } else {
        Some(acc as i64)
    }
}

/// Parse a `usize` from a string the way `str::parse::<usize>` does.
pub fn parse_usize(s: &str) -> (r: Option<usize>)
    ensures
        r == (match parse_usize_spec(s@) {
            Some(v) => Some(v as usize),
            None => None::<usize>,
        }),
{
    let v = chars_of(s);
    parse_usize_chars(&v)
}

/// Parse a `bool` from a string the way `str::parse::<bool>` does.
pub fn parse_bool(s: &str) -> (r: Option<bool>)
    ensures
        r == parse_bool_spec(s@),
{
    let v = chars_of(s);
    let t = chars_of("true");
    let f = chars_of("false");
    proof {
        reveal_strlit("true");
        reveal_strlit("false");
        assert("true"@ =~= seq!['t', 'r', 'u', 'e']);
        assert("false"@ =~= seq!['f', 'a', 'l', 's', 'e']);
    }
    if chars_eq(&v, &t) {
        Some(true)
    } else if chars_eq(&v, &f) {
        Some(false)
    } else {
        None
    }
}


/// The Unicode `White_Space` characters (those `char::is_whitespace` accepts).
pub open spec fn is_ws(c: char) -> bool {
    ||| '\u{9}' <= c <= '\u{D}'
    ||| c == ' '
    ||| c == '\u{85}'
    ||| c == '\u{A0}'
    ||| c == '\u{1680}'
    ||| '\u{2000}' <= c <= '\u{200A}'
    ||| c == '\u{2028}'
    ||| c == '\u{2029}'
    ||| c == '\u{202F}'
    ||| c == '\u{205F}'
    ||| c == '\u{3000}'
}

/// Whether `c` is Unicode white space.
pub fn char_is_whitespace(c: char) -> (r: bool)
    ensures
        r == is_ws(c),
{
    ('\u{9}' <= c && c <= '\u{D}') || c == ' ' || c == '\u{85}' || c == '\u{A0}' || c
        == '\u{1680}' || ('\u{2000}' <= c && c <= '\u{200A}') || c == '\u{2028}' || c
        == '\u{2029}' || c == '\u{202F}' || c == '\u{205F}' || c == '\u{3000}'
}

/// Some character of `s` is white space.
pub open spec fn has_ws(s: Seq<char>) -> bool {
    exists|i: int| 0 <= i < s.len() && is_ws(#[trigger] s[i])
}

/// Whether any character of `s` is white space.
pub fn chars_have_whitespace(s: &[char]) -> (r: bool)
    ensures
        r == has_ws(s@),
{
    let mut i: usize = 0;
    while i < s.len()
        invariant
            i <= s@.len(),
            forall|j: int| 0 <= j < i ==> !is_ws(#[trigger] s@[j]),
        decreases s@.len() - i,
    {
        if char_is_whitespace(s[i]) {
            return true;
        }
        i = i + 1;
    }
    false
}

/// First index at or after `i` that is not white space (or the length).
pub open spec fn lead_from(s: Seq<char>, i: int) -> int
    decreases s.len() - i,
{
    if 0 <= i < s.len() && is_ws(s[i]) {
        lead_from(s, i + 1)
    } else {
        i
    }
}

/// End of `s[lo..j]` once trailing white space is dropped.
pub open spec fn trail_from(s: Seq<char>, lo: int, j: int) -> int
    decreases j - lo,
{
    if lo < j && j <= s.len() && is_ws(s[j - 1]) {
        trail_from(s, lo, j - 1)
    } else {
        j
    }
}

/// `s` without leading and trailing white space (`str::trim`).
pub open spec fn trim(s: Seq<char>) -> Seq<char> {
    let a = lead_from(s, 0);
    s.subrange(a, trail_from(s, a, s.len() as int))
}

proof fn lemma_lead_from_bounds(s: Seq<char>, i: int)
    requires
        0 <= i <= s.len(),
    ensures
        i <= lead_from(s, i) <= s.len(),
    decreases s.len() - i,
{
    if i < s.len() && is_ws(s[i]) {
        lemma_lead_from_bounds(s, i + 1);
    }
}

proof fn lemma_trail_from_bounds(s: Seq<char>, lo: int, j: int)
    requires
        0 <= lo <= j <= s.len(),
    ensures
        lo <= trail_from(s, lo, j) <= j,
    decreases j - lo,
{
    if lo < j && is_ws(s[j - 1]) {
        lemma_trail_from_bounds(s, lo, j - 1);
    }
}

/// The characters of `s` without surrounding white space.
pub fn chars_trim(s: &[char]) -> (r: Vec<char>)
    ensures
        r@ == trim(s@),
{
    let mut i: usize = 0;
    while i < s.len() && char_is_whitespace(s[i])
        invariant
            i <= s@.len(),
            lead_from(s@, i as int) == lead_from(s@, 0),
        decreases s@.len() - i,
    {
        i = i + 1;
    }
    let mut j: usize = s.len();
    while j > i && char_is_whitespace(s[j - 1])
        invariant
            i <= j <= s@.len(),
            i == lead_from(s@, 0),
            trail_from(s@, i as int, j as int) == trail_from(s@, i as int, s@.len() as int),
        decreases j,
    {
        j = j - 1;
    }
    let mut r: Vec<char> = Vec::new();
    let mut k: usize = i;
    while k < j
        invariant
            i <= k <= j <= s@.len(),
            r@ == s@.subrange(i as int, k as int),
        decreases j - k,
    {
        r.push(s[k]);
        k = k + 1;
    }
    r
}

/// `str::trim` on a string.
pub fn trim_string(s: &str) -> (r: String)
    ensures
        r@ == trim(s@),
{
    let v = chars_of(s);
    let t = chars_trim(&v);
    string_of(&t)
}

/// `seq_lt` is irreflexive.
pub proof fn lemma_seq_lt_irreflexive(a: Seq<char>)
    ensures
        !seq_lt(a, a),
    decreases a.len(),
{
    if a.len() > 0 {
        lemma_seq_lt_irreflexive(a.drop_first());
    }
}

/// `seq_lt` is transitive.
pub proof fn lemma_seq_lt_transitive(a: Seq<char>, b: Seq<char>, c: Seq<char>)
    requires
        seq_lt(a, b),
        seq_lt(b, c),
    ensures
        seq_lt(a, c),
    decreases a.len(),
{
    if a.len() > 0 && b.len() > 0 && c.len() > 0 && a[0] == b[0] && b[0] == c[0] {
        lemma_seq_lt_transitive(a.drop_first(), b.drop_first(), c.drop_first());
    }
}

/// Any two different sequences are ordered one way or the other.
pub proof fn lemma_seq_lt_total(a: Seq<char>, b: Seq<char>)
    ensures
        a != b ==> (seq_lt(a, b) || seq_lt(b, a)),
        !(seq_lt(a, b) && seq_lt(b, a)),
    decreases a.len(),
{
    if a.len() > 0 && b.len() > 0 {
        lemma_seq_lt_total(a.drop_first(), b.drop_first());
        if a[0] == b[0] && a != b {
            assert(a =~= seq![a[0]] + a.drop_first());
            assert(b =~= seq![b[0]] + b.drop_first());
        }
    } else if a.len() == 0 && b.len() == 0 {
        assert(a =~= b);
    }
}

/// Whether `a` sorts before `b` (`String`'s order).
pub fn chars_lt(a: &[char], b: &[char]) -> (r: bool)
    ensures
        r == seq_lt(a@, b@),
{
    let mut i: usize = 0;
    assert(a@.skip(0) =~= a@);
    assert(b@.skip(0) =~= b@);
    while i < a.len() && i < b.len()
        invariant
            i <= a@.len(),
            i <= b@.len(),
            seq_lt(a@, b@) == seq_lt(a@.skip(i as int), b@.skip(i as int)),
        decreases a@.len() - i,
    {
        if a[i] != b[i] {
            return a[i] < b[i];
        }
        assert(a@.skip(i as int).drop_first() =~= a@.skip(i + 1));
        assert(b@.skip(i as int).drop_first() =~= b@.skip(i + 1));
        i = i + 1;
    }
    a.len() < b.len()
}


/// `a` followed by `b`.
pub fn concat_str(a: &str, b: &str) -> (r: String)
    ensures
        r@ == a@ + b@,
{
    let mut x = chars_of(a);
    let y = chars_of(b);
    let ghost x0 = x@;
    let mut i: usize = 0;
    while i < y.len()
        invariant
            i <= y@.len(),
            x@ == x0 + y@.take(i as int),
        decreases y@.len() - i,
    {
        x.push(y[i]);
        proof {
            assert(y@.take(i + 1) =~= y@.take(i as int).push(y@[i as int]));
        }
        i = i + 1;
    }
    proof {
        assert(y@.take(y@.len() as int) =~= y@);
    }
    string_of(&x)
}

/// Strictly increasing in `String` order (so also free of duplicates).
pub open spec fn strictly_sorted(s: Seq<Seq<char>>) -> bool {
    forall|i: int, j: int| 0 <= i < j < s.len() ==> seq_lt(#[trigger] s[i], #[trigger] s[j])
}

/// Insert `name` into the strictly sorted list `set` unless it is there.
pub fn insert_sorted(set: &mut Vec<String>, name: String)
    requires
        strictly_sorted(views(old(set)@)),
    ensures
        strictly_sorted(views(final(set)@)),
        forall|x: Seq<char>| #[trigger]
            views(final(set)@).contains(x) <==> (views(old(set)@).contains(x) || x == name@),
{
    let ghost old_v = views(set@);
    let nv = chars_of(name.as_str());
    let mut j: usize = 0;
    while j < set.len()
        invariant
            j <= set@.len(),
            nv@ == name@,
            views(set@) == old_v,
            strictly_sorted(old_v),
            forall|k: int| 0 <= k < j ==> seq_lt(#[trigger] old_v[k], name@),
        ensures
            j < set@.len() ==> !seq_lt(old_v[j as int], name@),
        decreases set@.len() - j,
    {
        let cur = chars_of(set[j].as_str());
        assert(cur@ == old_v[j as int]);
        if !chars_lt(&cur, &nv) {
            break;
        }
        j = j + 1;
    }
    if j < set.len() {
        let cur = chars_of(set[j].as_str());
        assert(cur@ == old_v[j as int]);
        proof {
            lemma_seq_lt_total(old_v[j as int], name@);
        }
        if !chars_lt(&nv, &cur) {
            // `name` equals `set[j]`: already present.
            assert(old_v[j as int] == name@);
            return;
        }
    }
    set.insert(j, name);
    proof {
        let new_v = views(set@);
        assert(new_v =~= old_v.insert(j as int, name@));
        assert forall|a: int, b: int| 0 <= a < b < new_v.len() implies seq_lt(
            #[trigger] new_v[a],
            #[trigger] new_v[b],
        ) by {
            if b > j + 1 {
                lemma_seq_lt_transitive(name@, old_v[j as int], old_v[b - 1]);
            }
            if a < j && b > j {
                lemma_seq_lt_transitive(new_v[a], name@, new_v[b]);
            }
            if a > j {
                assert(new_v[a] == old_v[a - 1]);
                assert(new_v[b] == old_v[b - 1]);
            }
        }
        assert forall|x: Seq<char>| new_v.contains(x) <==> (old_v.contains(x) || x == name@) by {
            if new_v.contains(x) {
                let k = choose|k: int| 0 <= k < new_v.len() && new_v[k] == x;
                if k < j {
                    assert(old_v[k] == x);
                } else if k > j {
                    assert(old_v[k - 1] == x);
                }
            }
            if old_v.contains(x) {
                let k = choose|k: int| 0 <= k < old_v.len() && old_v[k] == x;
                if k < j {
                    assert(new_v[k] == x);
                } else {
                    assert(new_v[k + 1] == x);
                }
            }
            if x == name@ {
                assert(new_v[j as int] == x);
            }
        }
    }
}



/// Strictly sorted sequences with the same elements are equal.
pub proof fn lemma_strictly_sorted_unique(a: Seq<Seq<char>>, b: Seq<Seq<char>>)
    requires
        strictly_sorted(a),
        strictly_sorted(b),
        forall|x: Seq<char>| a.contains(x) <==> b.contains(x),
    ensures
        a == b,
    decreases a.len() + b.len(),
{
    if a.len() == 0 {
        if b.len() > 0 {
            assert(b.contains(b[0]));
        }
        assert(a =~= b);
    } else if b.len() == 0 {
        assert(a.contains(a[0]));
    } else {
        assert(a.contains(a[0]));
        assert(b.contains(b[0]));
        let j = choose|j: int| 0 <= j < b.len() && b[j] == a[0];
        let i = choose|i: int| 0 <= i < a.len() && a[i] == b[0];
        if a[0] != b[0] {
            assert(j > 0 && i > 0);
            assert(seq_lt(b[0], b[j]));
            assert(seq_lt(a[0], a[i]));
            lemma_seq_lt_total(a[0], b[0]);
        }
        let ra = a.drop_first();
        let rb = b.drop_first();
        assert(strictly_sorted(ra)) by {
            assert forall|x: int, y: int| 0 <= x < y < ra.len() implies seq_lt(#[trigger] ra[x], #[trigger] ra[y]) by {
                assert(seq_lt(a[x + 1], a[y + 1]));
            }
        }
        assert(strictly_sorted(rb)) by {
            assert forall|x: int, y: int| 0 <= x < y < rb.len() implies seq_lt(#[trigger] rb[x], #[trigger] rb[y]) by {
                assert(seq_lt(b[x + 1], b[y + 1]));
            }
        }
        assert forall|x: Seq<char>| ra.contains(x) <==> rb.contains(x) by {
            if ra.contains(x) {
                let q = choose|q: int| 0 <= q < ra.len() && ra[q] == x;
                assert(seq_lt(a[0], a[q + 1]));
                lemma_seq_lt_irreflexive(a[0]);
                assert(a.contains(x));
                let w = choose|w: int| 0 <= w < b.len() && b[w] == x;
                assert(w != 0);
                assert(rb[w - 1] == x);
            }
            if rb.contains(x) {
                let q = choose|q: int| 0 <= q < rb.len() && rb[q] == x;
                assert(seq_lt(b[0], b[q + 1]));
                lemma_seq_lt_irreflexive(b[0]);
                assert(b.contains(x));
                let w = choose|w: int| 0 <= w < a.len() && a[w] == x;
                assert(w != 0);
                assert(ra[w - 1] == x);
            }
        }
        lemma_strictly_sorted_unique(ra, rb);
        assert(a =~= seq![a[0]] + ra);
        assert(b =~= seq![b[0]] + rb);
    }
}

/// The elements of a finite set of strings in increasing order.
pub open spec fn sorted_set(s: Set<Seq<char>>) -> Seq<Seq<char>> {
    choose|q: Seq<Seq<char>>| strictly_sorted(q) && forall|x: Seq<char>| #[trigger] q.contains(x) <==> s.contains(x)
}

/// `x` put into its place in the sorted sequence `q`, unless already there.
pub open spec fn sorted_insert(q: Seq<Seq<char>>, x: Seq<char>) -> Seq<Seq<char>>
    decreases q.len(),
{
    if q.len() == 0 {
        seq![x]
    } else if q[0] == x {
        q
    } else if seq_lt(x, q[0]) {
        seq![x] + q
    } else {
        seq![q[0]] + sorted_insert(q.drop_first(), x)
    }
}

/// Inserting into a strictly sorted sequence keeps it strictly sorted and
/// adds exactly the new element.
proof fn lemma_sorted_insert(q: Seq<Seq<char>>, x: Seq<char>)
    requires
        strictly_sorted(q),
    ensures
        strictly_sorted(sorted_insert(q, x)),
        forall|y: Seq<char>| #[trigger] sorted_insert(q, x).contains(y) <==> (q.contains(y) || y == x),
    decreases q.len(),
{
    let r = sorted_insert(q, x);
    if q.len() == 0 {
        assert(r =~= seq![x]);
        assert forall|y: Seq<char>| #[trigger] r.contains(y) <==> (q.contains(y) || y == x) by {
            if y == x {
                assert(r[0] == y);
            }
        }
    } else if q[0] == x {
        assert(q.contains(x));
    } else if seq_lt(x, q[0]) {
        assert forall|i: int, j: int| 0 <= i < j < r.len() implies seq_lt(
            #[trigger] r[i],
            #[trigger] r[j],
        ) by {
            if i == 0 {
                if j > 1 {
                    assert(r[j] == q[j - 1]);
                    lemma_seq_lt_transitive(x, q[0], q[j - 1]);
                }
            } else {
                assert(r[i] == q[i - 1] && r[j] == q[j - 1]);
            }
        }
        assert forall|y: Seq<char>| #[trigger] r.contains(y) <==> (q.contains(y) || y == x) by {
            if r.contains(y) {
                let i = choose|i: int| 0 <= i < r.len() && r[i] == y;
                if i > 0 {
                    assert(q[i - 1] == y);
                }
            }
            if q.contains(y) {
                let i = choose|i: int| 0 <= i < q.len() && q[i] == y;
                assert(r[i + 1] == y);
            }
            if y == x {
                assert(r[0] == y);
            }
        }
    } else {
        lemma_seq_lt_total(x, q[0]);
        let t = q.drop_first();
        assert(strictly_sorted(t)) by {
            assert forall|i: int, j: int| 0 <= i < j < t.len() implies seq_lt(
                #[trigger] t[i],
                #[trigger] t[j],
            ) by {
                assert(t[i] == q[i + 1] && t[j] == q[j + 1]);
            }
        }
        lemma_sorted_insert(t, x);
        let rest = sorted_insert(t, x);
        assert(r == seq![q[0]] + rest);
        assert forall|k: int| 0 <= k < rest.len() implies seq_lt(q[0], #[trigger] rest[k]) by {
            assert(rest.contains(rest[k]));
            if rest[k] != x {
                assert(t.contains(rest[k]));
                let m = choose|m: int| 0 <= m < t.len() && t[m] == rest[k];
                assert(q[m + 1] == rest[k]);
            }
        }
        assert forall|i: int, j: int| 0 <= i < j < r.len() implies seq_lt(
            #[trigger] r[i],
            #[trigger] r[j],
        ) by {
            if i == 0 {
                assert(r[j] == rest[j - 1]);
            } else {
                assert(r[i] == rest[i - 1] && r[j] == rest[j - 1]);
            }
        }
        assert forall|y: Seq<char>| #[trigger] r.contains(y) <==> (q.contains(y) || y == x) by {
            if r.contains(y) {
                let i = choose|i: int| 0 <= i < r.len() && r[i] == y;
                if i > 0 {
                    assert(rest[i - 1] == y);
                    assert(rest.contains(y));
                    if y != x {
                        let m = choose|m: int| 0 <= m < t.len() && t[m] == y;
                        assert(q[m + 1] == y);
                    }
                }
            }
            if q.contains(y) {
                let i = choose|i: int| 0 <= i < q.len() && q[i] == y;
                if i == 0 {
                    assert(r[0] == y);
                } else {
                    assert(t[i - 1] == y);
                    assert(t.contains(y));
                    assert(rest.contains(y));
                    let k = choose|k: int| 0 <= k < rest.len() && rest[k] == y;
                    assert(r[k + 1] == y);
                }
            }
            if y == x {
                assert(rest.contains(x));
                let k = choose|k: int| 0 <= k < rest.len() && rest[k] == x;
                assert(r[k + 1] == y);
            }
        }
    }
}

/// Every finite set of strings has a strictly sorted listing.
pub proof fn lemma_sorted_listing(s: Set<Seq<char>>) -> (q: Seq<Seq<char>>)
    requires
        s.finite(),
    ensures
        strictly_sorted(q),
        forall|x: Seq<char>| #[trigger] q.contains(x) <==> s.contains(x),
    decreases s.len(),
{
    if s.len() == 0 {
        assert(s =~= Set::empty());
        Seq::empty()
    } else {
        let x = s.choose();
        let p = lemma_sorted_listing(s.remove(x));
        lemma_sorted_insert(p, x);
        sorted_insert(p, x)
    }
}

/// The sorted listing of a finite set holds exactly its elements, in
/// strictly increasing order.
pub proof fn lemma_sorted_set_contents(s: Set<Seq<char>>)
    requires
        s.finite(),
    ensures
        strictly_sorted(sorted_set(s)),
        forall|x: Seq<char>| #[trigger] sorted_set(s).contains(x) <==> s.contains(x),
{
    let q = lemma_sorted_listing(s);
    lemma_sorted_set_is(q, s);
}

/// A strictly sorted sequence with exactly the elements of `s` is `sorted_set(s)`.
pub proof fn lemma_sorted_set_is(q: Seq<Seq<char>>, s: Set<Seq<char>>)
    requires
        strictly_sorted(q),
        forall|x: Seq<char>| #[trigger] q.contains(x) <==> s.contains(x),
    ensures
        sorted_set(s) == q,
{
    let t = sorted_set(s);
    assert(strictly_sorted(t) && forall|x: Seq<char>| #[trigger] t.contains(x) <==> s.contains(x));
    lemma_strictly_sorted_unique(t, q);
}


/// The decimal text of a signed integer.
pub open spec fn signed_decimal(n: int) -> Seq<char> {
    if n < 0 {
        "-"@ + decimal((-n) as nat)
    } else {
        decimal(n as nat)
    }
}

/// The decimal text of an `i64`.
pub fn i64_text(n: i64) -> (r: String)
    ensures
        r@ == signed_decimal(n as int),
{
    if n < 0 {
        let m: u128 = (0i128 - (n as i128)) as u128;
        let t = u128_text(m);
        concat_str("-", t.as_str())
    } else {
        u128_text(n as u128)
    }
}

/// The decimal text of a `u128`.
pub fn u128_text(n: u128) -> (r: String)
    ensures
        r@ == decimal(n as nat),
{
    let mut v: Vec<char> = Vec::new();
    push_decimal_u128(n, &mut v);
    assert(v@ =~= decimal(n as nat));
    string_of(&v)
}

/// Append the decimal digits of a `u128`.
pub fn push_decimal_u128(n: u128, out: &mut Vec<char>)
    ensures
        final(out)@ == old(out)@ + decimal(n as nat),
    decreases n,
{
    if n < 10 {
        let d = n as usize;
        out.push(digit_to_char(d));
        assert(decimal(n as nat) == seq![digit_char(n as nat)]);
    } else {
        push_decimal_u128(n / 10, out);
        let d = (n % 10) as usize;
        out.push(digit_to_char(d));
        assert(decimal(n as nat) == decimal((n / 10) as nat).push(digit_char((n % 10) as nat)));
    }
}

} // verus!

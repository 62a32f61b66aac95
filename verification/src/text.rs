//! Text: characters, decimal numbers, trimming, searching.
use vstd::prelude::*;
use vstd::slice::slice_subrange;
use vstd::utf8::*;

verus! {

/// `String::push` appends one character at the end of the string.
pub assume_specification[ String::push ](s: &mut String, c: char)
    ensures
        final(s)@ == old(s)@.push(c),
;

/// `std::str::from_utf8` accepts exactly the valid UTF-8 byte sequences, and the string it gives
/// back holds the characters that the bytes encode.
#[verifier::external_body]
pub(crate) fn utf8_str(bytes: &[u8]) -> (r: Option<&str>)
    ensures
        r is Some <==> valid_utf8(bytes@),
        r matches Some(s) ==> s@ == decode_utf8(bytes@),
{
    std::str::from_utf8(bytes).ok()
}

/// The characters of `s`, in order.
pub fn chars_of(s: &str) -> (r: Vec<char>)
    ensures
        r@ == s@,
{
    let mut out: Vec<char> = Vec::new();
    for c in it: s.chars()
        invariant
            out@ == it.seq().take(it.index() as int),
            it.seq() == s@,
    {
        out.push(c);
    }
    assert(s@.take(s@.len() as int) =~= s@);
    out
}

/// The string made of `chars`.
pub fn string_of(chars: &[char]) -> (r: String)
    ensures
        r@ == chars@,
{
    let mut out = String::new();
    for i in 0..chars.len()
        invariant
            out@ == chars@.take(i as int),
    {
        out.push(chars[i]);
        assert(chars@.take(i + 1) =~= chars@.take(i as int).push(chars@[i as int]));
    }
    assert(chars@.take(chars@.len() as int) =~= chars@);
    out
}

/// Appends the characters `cs`.
pub fn push_chars(out: &mut String, cs: &[char])
    ensures
        final(out)@ == old(out)@ + cs@,
{
    for i in 0..cs.len()
        invariant
            out@ == old(out)@ + cs@.take(i as int),
    {
        out.push(cs[i]);
        assert(old(out)@ + cs@.take(i + 1) =~= (old(out)@ + cs@.take(i as int)).push(
            cs@[i as int],
        ));
    }
    assert(cs@.take(cs@.len() as int) =~= cs@);
}

/// The characters of each text.
pub open spec fn texts(v: Seq<String>) -> Seq<Seq<char>> {
    Seq::new(v.len(), |i: int| v[i]@)
}

/// Whether the characters are those of the text `t`.
pub fn is_text(cs: &[char], t: &str) -> (r: bool)
    ensures
        r == (cs@ == t@),
{
    let ts = chars_of(t);
    same_chars(cs, ts.as_slice())
}

/// Whether two character sequences are equal.
pub fn same_chars(a: &[char], b: &[char]) -> (r: bool)
    ensures
        r == (a@ == b@),
{
    if a.len() != b.len() {
        return false;
    }
    for i in 0..a.len()
        invariant
            a@.len() == b@.len(),
            forall|j: int| 0 <= j < i ==> a@[j] == b@[j],
    {
        if a[i] != b[i] {
            return false;
        }
    }
    assert(a@ =~= b@);
    true
}

// ---------------------------------------------------------------------------
// Decimal numbers.

/// The character of the decimal digit `d`.
pub open spec fn digit_char(d: nat) -> char
    recommends
        d < 10,
{
    (48 + d) as char
}

/// The decimal digits of `n`, without leading zeros.
pub open spec fn decimal(n: nat) -> Seq<char>
    decreases n,
{
    if n < 10 {
        seq![digit_char(n)]
    } else {
        decimal(n / 10).push(digit_char(n % 10))
    }
}

/// Whether `c` is an ASCII digit.
pub open spec fn is_digit(c: char) -> bool {
    '0' <= c <= '9'
}

/// Whether every character is an ASCII digit.
pub open spec fn all_digits(s: Seq<char>) -> bool {
    forall|i: int| 0 <= i < s.len() ==> is_digit(#[trigger] s[i])
}

/// The number that a sequence of digits writes.
pub open spec fn digits_value(s: Seq<char>) -> nat
    decreases s.len(),
{
    if s.len() == 0 {
        0
    } else {
        digits_value(s.drop_last()) * 10 + (s.last() as nat - 48) as nat
    }
}

/// The digits of a number, an optional leading plus sign taken off.
pub open spec fn unsigned_digits(s: Seq<char>) -> Seq<char> {
    if s.len() > 0 && s[0] == '+' {
        s.drop_first()
    } else {
        s
    }
}

/// The unsigned number at most `max` that `s` writes: an optional plus sign and at least one digit,
/// nothing else. `None` where `s` is no such number.
pub open spec fn number(s: Seq<char>, max: nat) -> Option<nat> {
    let d = unsigned_digits(s);
    if d.len() > 0 && all_digits(d) && digits_value(d) <= max {
        Some(digits_value(d))
    } else {
        None
    }
}

/// What `decimal` writes, `digits_value` reads back.
pub proof fn law_decimal_reads_back(n: nat)
    ensures
        decimal(n).len() > 0,
        all_digits(decimal(n)),
        digits_value(decimal(n)) == n,
    decreases n,
{
    reveal_with_fuel(digits_value, 2);
    if n < 10 {
        assert(decimal(n).drop_last() =~= Seq::<char>::empty());
    } else {
        law_decimal_reads_back(n / 10);
        let p = decimal(n / 10);
        assert(p.push(digit_char(n % 10)).drop_last() =~= p);
    }
}

/// Two numbers with the same decimal digits are equal.
pub proof fn law_decimal_injective(m: nat, n: nat)
    requires
        decimal(m) == decimal(n),
    ensures
        m == n,
{
    law_decimal_reads_back(m);
    law_decimal_reads_back(n);
}

/// Appends the decimal digits of `n`.
pub fn push_decimal(out: &mut String, n: u64)
    ensures
        final(out)@ == old(out)@ + decimal(n as nat),
    decreases n,
{
    if n >= 10 {
        push_decimal(out, n / 10);
    }
    let d: u8 = (n % 10) as u8;
    out.push((48 + d) as char);
    assert(out@ =~= old(out)@ + decimal(n as nat));
}

proof fn lemma_value_of_prefix(s: Seq<char>, k: int)
    requires
        0 <= k <= s.len(),
    ensures
        digits_value(s.take(k)) <= digits_value(s),
    decreases s.len() - k,
{
    if k < s.len() {
        lemma_value_of_prefix(s, k + 1);
        assert(s.take(k + 1).drop_last() =~= s.take(k));
    } else {
        assert(s.take(k) =~= s);
    }
}

/// Reads an unsigned number at most `max`: an optional plus sign, then digits.
pub fn parse_number(s: &[char], max: u64) -> (r: Option<u64>)
    ensures
        r is Some == number(s@, max as nat) is Some,
        r matches Some(v) ==> number(s@, max as nat) == Some(v as nat),
{
    let mut i: usize = 0;
    if s.len() > 0 && s[0] == '+' {
        i = 1;
    }
    if i == s.len() {
        return None;
    }
    let ghost d = unsigned_digits(s@);
    assert(d =~= s@.skip(i as int));
    let start: usize = i;
    let mut v: u64 = 0;
    while i < s.len()
        invariant
            start <= i <= s@.len(),
            start < s@.len(),
            d == unsigned_digits(s@),
            d =~= s@.skip(start as int),
            forall|j: int| 0 <= j < i - start ==> is_digit(#[trigger] d[j]),
            v == digits_value(d.take(i - start)),
            v <= max,
        decreases s@.len() - i,
    {
        let c = s[i];
        assert(d[i - start] == c);
        if c < '0' || c > '9' {
            assert(!is_digit(d[i - start]));
            return None;
        }
        let digit: u64 = (c as u32 - 48) as u64;
        assert(d.take(i - start + 1).drop_last() =~= d.take(i - start));
        proof {
            lemma_value_of_prefix(d, i - start + 1);
        }
        if digit > max || v > max / 10 || v * 10 > max - digit {
            return None;
        }
        v = v * 10 + digit;
        i += 1;
    }
    assert(d.take(d.len() as int) =~= d);
    Some(v)
}

// ---------------------------------------------------------------------------
// White space.

/// Whether `c` has the Unicode property White_Space.
pub open spec fn is_space(c: char) -> bool {
    let n = c as u32;
    ||| 9 <= n <= 13
    ||| n == 0x20
    ||| n == 0x85
    ||| n == 0xa0
    ||| n == 0x1680
    ||| 0x2000 <= n <= 0x200a
    ||| n == 0x2028
    ||| n == 0x2029
    ||| n == 0x202f
    ||| n == 0x205f
    ||| n == 0x3000
}

fn space(c: char) -> (r: bool)
    ensures
        r == is_space(c),
{
    let n = c as u32;
    (9 <= n && n <= 13) || n == 0x20 || n == 0x85 || n == 0xa0 || n == 0x1680 || (0x2000 <= n && n
        <= 0x200a) || n == 0x2028 || n == 0x2029 || n == 0x202f || n == 0x205f || n == 0x3000
}

/// `s` without its leading white space.
pub open spec fn trim_start(s: Seq<char>) -> Seq<char>
    decreases s.len(),
{
    if s.len() > 0 && is_space(s[0]) {
        trim_start(s.drop_first())
    } else {
        s
    }
}

/// `s` without its trailing white space.
pub open spec fn trim_end(s: Seq<char>) -> Seq<char>
    decreases s.len(),
{
    if s.len() > 0 && is_space(s.last()) {
        trim_end(s.drop_last())
    } else {
        s
    }
}

/// `s` without the white space at either end.
pub open spec fn trimmed(s: Seq<char>) -> Seq<char> {
    trim_end(trim_start(s))
}

/// `s` without the white space at either end.
pub fn trim<'a>(s: &'a [char]) -> (r: &'a [char])
    ensures
        r@ == trimmed(s@),
{
    let mut i: usize = 0;
    assert(s@.skip(0) =~= s@);
    while i < s.len() && space(s[i])
        invariant
            i <= s@.len(),
            trim_start(s@) == trim_start(s@.skip(i as int)),
        decreases s@.len() - i,
    {
        assert(s@.skip(i as int).drop_first() =~= s@.skip(i + 1));
        i += 1;
    }
    let ghost t = s@.skip(i as int);
    let mut j: usize = s.len();
    assert(s@.subrange(i as int, j as int) =~= t);
    while j > i && space(s[j - 1])
        invariant
            i <= j <= s@.len(),
            trim_end(t) == trim_end(s@.subrange(i as int, j as int)),
        decreases j,
    {
        assert(s@.subrange(i as int, j as int).drop_last() =~= s@.subrange(i as int, j - 1));
        j -= 1;
    }
    slice_subrange(s, i, j)
}

// ---------------------------------------------------------------------------
// Letter case.

/// `c` in lower case, where it is an ASCII letter.
pub open spec fn lower_char(c: char) -> char {
    if 'A' <= c <= 'Z' {
        (c as u32 + 32) as char
    } else {
        c
    }
}

/// `s` with its ASCII letters in lower case.
pub open spec fn lowered(s: Seq<char>) -> Seq<char> {
    Seq::new(s.len(), |i: int| lower_char(s[i]))
}

/// `s` with its ASCII letters in lower case.
pub fn ascii_lower(s: &[char]) -> (r: Vec<char>)
    ensures
        r@ == lowered(s@),
{
    let mut out: Vec<char> = Vec::new();
    for i in 0..s.len()
        invariant
            out@ == lowered(s@).take(i as int),
    {
        let c = s[i];
        let l = if 'A' <= c && c <= 'Z' {
            ((c as u8) + 32) as char
        } else {
            c
        };
        out.push(l);
        assert(out@ =~= lowered(s@).take(i + 1));
    }
    assert(lowered(s@).take(s@.len() as int) =~= lowered(s@));
    out
}

// ---------------------------------------------------------------------------
// Searching.

/// Whether `part` stands in `s` at index `i`.
pub open spec fn occurs_at(s: Seq<char>, part: Seq<char>, i: int) -> bool {
    0 <= i && i + part.len() <= s.len() && s.subrange(i, i + part.len()) == part
}

/// Whether `part` stands somewhere in `s`.
pub open spec fn occurs(s: Seq<char>, part: Seq<char>) -> bool {
    exists|i: int| #[trigger] occurs_at(s, part, i)
}

/// Whether `s` begins with `part`.
pub open spec fn begins_with(s: Seq<char>, part: Seq<char>) -> bool {
    occurs_at(s, part, 0)
}

/// Whether `s` ends with `part`.
pub open spec fn finishes_with(s: Seq<char>, part: Seq<char>) -> bool {
    occurs_at(s, part, s.len() - part.len())
}

/// Whether `part` stands in `s` at index `i`.
pub fn at_index(s: &[char], part: &[char], i: usize) -> (r: bool)
    ensures
        r == occurs_at(s@, part@, i as int),
{
    if s.len() < part.len() || i > s.len() - part.len() {
        return false;
    }
    same_chars(slice_subrange(s, i, i + part.len()), part)
}

/// The first index at which `part` stands in `s`.
pub fn find(s: &[char], part: &[char]) -> (r: Option<usize>)
    ensures
        r matches Some(i) ==> occurs_at(s@, part@, i as int) && forall|j: int|
            j < i ==> !#[trigger] occurs_at(s@, part@, j),
        r is None ==> !occurs(s@, part@),
{
    if s.len() < part.len() {
        return None;
    }
    let last: usize = s.len() - part.len();
    let mut i: usize = 0;
    while i < last
        invariant
            i <= last,
            last == s@.len() - part@.len(),
            forall|j: int| j < i ==> !#[trigger] occurs_at(s@, part@, j),
        decreases last - i,
    {
        if at_index(s, part, i) {
            return Some(i);
        }
        i += 1;
    }
    if at_index(s, part, last) {
        Some(last)
    } else {
        None
    }
}

/// Whether `part` stands somewhere in `s`.
pub fn contains(s: &[char], part: &[char]) -> (r: bool)
    ensures
        r == occurs(s@, part@),
{
    find(s, part).is_some()
}

/// Whether `s` begins with `part`.
pub fn starts_with(s: &[char], part: &[char]) -> (r: bool)
    ensures
        r == begins_with(s@, part@),
{
    at_index(s, part, 0)
}

/// Whether `s` ends with `part`.
pub fn ends_with(s: &[char], part: &[char]) -> (r: bool)
    ensures
        r == finishes_with(s@, part@),
{
    s.len() >= part.len() && at_index(s, part, s.len() - part.len())
}

/// The first index at which one of the characters `a` and `b` stands in `s`.
pub open spec fn first_of(s: Seq<char>, a: char, b: char) -> Option<int>
    decreases s.len(),
{
    if s.len() == 0 {
        None
    } else if s[0] == a || s[0] == b {
        Some(0)
    } else {
        match first_of(s.drop_first(), a, b) {
            Some(i) => Some(i + 1),
            None => None,
        }
    }
}

/// The first index at which one of the characters `a` and `b` stands in `s`.
pub fn find_either(s: &[char], a: char, b: char) -> (r: Option<usize>)
    ensures
        r is Some == first_of(s@, a, b) is Some,
        r matches Some(i) ==> first_of(s@, a, b) == Some(i as int) && i < s@.len(),
{
    let mut i: usize = 0;
    assert(s@.skip(0) =~= s@);
    while i < s.len()
        invariant
            i <= s@.len(),
            first_of(s@, a, b) == (match first_of(s@.skip(i as int), a, b) {
                Some(k) => Some(k + i),
                None => None::<int>,
            }),
        decreases s@.len() - i,
    {
        if s[i] == a || s[i] == b {
            return Some(i);
        }
        assert(s@.skip(i as int).drop_first() =~= s@.skip(i + 1));
        i += 1;
    }
    None
}

// ---------------------------------------------------------------------------
// Pairs of numbers.

/// The two numbers of a text such as `800x1000`: split at the first `x` or `X`, white space around
/// either number ignored, each number within 32 bits.
pub open spec fn size_pair(s: Seq<char>) -> Option<(nat, nat)> {
    let t = trimmed(s);
    match first_of(t, 'x', 'X') {
        None => None,
        Some(i) => match (
            number(trimmed(t.take(i)), u32::MAX as nat),
            number(trimmed(t.skip(i + 1)), u32::MAX as nat),
        ) {
            (Some(w), Some(h)) => Some((w, h)),
            _ => None,
        },
    }
}

/// Reads a text such as `800x1000`.
pub fn parse_size_pair(s: &str) -> (r: Option<(u32, u32)>)
    ensures
        r is Some == size_pair(s@) is Some,
        r matches Some((w, h)) ==> size_pair(s@) == Some((w as nat, h as nat)),
{
    let cs = chars_of(s);
    let t = trim(cs.as_slice());
    let i = match find_either(t, 'x', 'X') {
        Some(i) => i,
        None => return None,
    };
    let end: usize = t.len();
    let left = slice_subrange(t, 0, i);
    let right = slice_subrange(t, i + 1, end);
    assert(left@ =~= t@.take(i as int));
    assert(right@ =~= t@.skip(i + 1));
    match (parse_number(trim(left), u32::MAX as u64), parse_number(trim(right), u32::MAX as u64)) {
        (Some(w), Some(h)) => Some((w as u32, h as u32)),
        _ => None,
    }
}

// ---------------------------------------------------------------------------
// What the parts of a text are.

proof fn lemma_trim_start(s: Seq<char>) -> (i: int)
    ensures
        0 <= i <= s.len(),
        trim_start(s) == s.skip(i),
        forall|k: int| 0 <= k < i ==> is_space(#[trigger] s[k]),
        i < s.len() ==> !is_space(s[i]),
    decreases s.len(),
{
    if s.len() > 0 && is_space(s[0]) {
        let rest = s.drop_first();
        let j = lemma_trim_start(rest);
        assert(rest.skip(j) =~= s.skip(j + 1));
        assert forall|k: int| 0 <= k < j + 1 implies is_space(#[trigger] s[k]) by {
            if k > 0 {
                assert(is_space(rest[k - 1]));
            }
        }
        assert(j + 1 < s.len() ==> s[j + 1] == rest[j]);
        j + 1
    } else {
        assert(s.skip(0) =~= s);
        0
    }
}

proof fn lemma_trim_end(s: Seq<char>) -> (j: int)
    ensures
        0 <= j <= s.len(),
        trim_end(s) == s.take(j),
        forall|k: int| j <= k < s.len() ==> is_space(#[trigger] s[k]),
        j > 0 ==> !is_space(s[j - 1]),
    decreases s.len(),
{
    if s.len() > 0 && is_space(s.last()) {
        let rest = s.drop_last();
        let j = lemma_trim_end(rest);
        assert(rest.take(j) =~= s.take(j));
        assert forall|k: int| j <= k < s.len() implies is_space(#[trigger] s[k]) by {
            if k < rest.len() {
                assert(is_space(rest[k]));
            }
        }
        j
    } else {
        assert(s.take(s.len() as int) =~= s);
        s.len() as int
    }
}

/// What trimming leaves is one piece of the text: all that is before and behind it is white space,
/// and it neither begins nor ends with any.
pub proof fn law_only_white_space_is_trimmed(s: Seq<char>) -> (r: (int, int))
    ensures
        0 <= r.0 <= r.1 <= s.len(),
        trimmed(s) == s.subrange(r.0, r.1),
        forall|k: int| 0 <= k < r.0 || r.1 <= k < s.len() ==> is_space(#[trigger] s[k]),
        r.0 < r.1 ==> !is_space(s[r.0]) && !is_space(s[r.1 - 1]),
{
    let i = lemma_trim_start(s);
    let t = s.skip(i);
    let j = lemma_trim_end(t);
    assert(t.take(j) =~= s.subrange(i, i + j));
    assert forall|k: int| 0 <= k < i || i + j <= k < s.len() implies is_space(#[trigger] s[k]) by {
        if k >= i + j {
            assert(is_space(t[k - i]));
        }
    }
    if j > 0 {
        assert(t[j - 1] == s[i + j - 1]);
    }
    (i, i + j)
}

/// A text that neither begins nor ends with white space is left as it is.
pub proof fn law_nothing_to_trim(s: Seq<char>)
    requires
        s.len() > 0 ==> !is_space(s[0]) && !is_space(s.last()),
    ensures
        trimmed(s) == s,
{
    let (i, j) = law_only_white_space_is_trimmed(s);
    let n = s.len() as int;
    if n > 0 {
        if i > 0 {
            assert(is_space(s[0]));
        }
        assert(i == 0);
        if j < n {
            assert(is_space(s[n - 1]));
        }
        assert(j == n);
    }
    assert(s.subrange(0, n) =~= s);
}

/// Among the ASCII characters, white space is the space and the characters from the tab to the
/// carriage return. A letter, a digit and a mark are none.
pub proof fn law_ascii_white_space(c: char)
    requires
        c < '\u{80}',
    ensures
        is_space(c) <==> c == ' ' || '\t' <= c <= '\r',
{
}

/// Beyond ASCII, white space is the next line, the spaces that do not break, the spaces of set widths,
/// and the separators of lines and paragraphs.
pub proof fn law_wide_white_space(c: char)
    requires
        c >= '\u{80}',
    ensures
        is_space(c) <==> c == '\u{85}' || c == '\u{a0}' || c == '\u{1680}' || ('\u{2000}' <= c
            <= '\u{200a}') || c == '\u{2028}' || c == '\u{2029}' || c == '\u{202f}' || c
            == '\u{205f}' || c == '\u{3000}',
{
}

/// Lowering a text changes its capital letters, each into its small one, and no other character.
pub proof fn law_lowering_changes_capitals(s: Seq<char>, i: int)
    requires
        0 <= i < s.len(),
    ensures
        lowered(s).len() == s.len(),
        'A' <= s[i] <= 'Z' ==> lowered(s)[i] as int - 'a' as int == s[i] as int - 'A' as int,
        !('A' <= s[i] <= 'Z') ==> lowered(s)[i] == s[i],
        !('A' <= lowered(s)[i] <= 'Z'),
{
    let n = s[i] as u32;
    if 'A' <= s[i] <= 'Z' {
        assert(65 <= n <= 90);
        assert((n + 32) as char as int == n + 32);
    }
}

/// A part stands in a text exactly if the text is something, the part, and something behind it.
pub proof fn law_part_of_a_text(s: Seq<char>, part: Seq<char>)
    ensures
        occurs(s, part) <==> exists|a: Seq<char>, b: Seq<char>| s == #[trigger] (a + part + b),
        begins_with(s, part) <==> exists|b: Seq<char>| s == #[trigger] (part + b),
        finishes_with(s, part) <==> exists|a: Seq<char>| s == #[trigger] (a + part),
{
    let n = part.len() as int;
    if occurs(s, part) {
        let i = choose|i: int| #[trigger] occurs_at(s, part, i);
        assert(s =~= s.take(i) + part + s.skip(i + n)) by {
            assert(s =~= s.take(i) + s.subrange(i, i + n) + s.skip(i + n));
        }
    }
    if exists|a: Seq<char>, b: Seq<char>| s == #[trigger] (a + part + b) {
        let (a, b) = choose|a: Seq<char>, b: Seq<char>| s == #[trigger] (a + part + b);
        assert(s.subrange(a.len() as int, a.len() + n) =~= part);
        assert(occurs_at(s, part, a.len() as int));
    }
    if begins_with(s, part) {
        assert(s =~= s.subrange(0, n) + s.skip(n));
    }
    if exists|b: Seq<char>| s == #[trigger] (part + b) {
        assert(s.subrange(0, n) =~= part);
    }
    if finishes_with(s, part) {
        let i = s.len() - n;
        assert(s =~= s.take(i) + s.subrange(i, i + n));
    }
    if exists|a: Seq<char>| s == #[trigger] (a + part) {
        assert(s.subrange(s.len() - n, s.len() - n + n) =~= part);
    }
}

/// The first place of one of two characters is the least index at which either stands.
pub proof fn law_first_of_two(s: Seq<char>, a: char, b: char)
    ensures
        first_of(s, a, b) matches Some(i) ==> 0 <= i < s.len() && (s[i] == a || s[i] == b)
            && forall|k: int| 0 <= k < i ==> #[trigger] s[k] != a && s[k] != b,
        first_of(s, a, b) is None ==> forall|k: int|
            0 <= k < s.len() ==> #[trigger] s[k] != a && s[k] != b,
    decreases s.len(),
{
    if s.len() > 0 && s[0] != a && s[0] != b {
        let rest = s.drop_first();
        law_first_of_two(rest, a, b);
        assert forall|k: int| 0 < k < s.len() implies s[k] == #[trigger] rest[k - 1] by {}
        match first_of(s, a, b) {
            Some(i) => {
                assert forall|k: int| 0 <= k < i implies #[trigger] s[k] != a && s[k] != b by {
                    if k > 0 {
                        assert(rest[k - 1] != a && rest[k - 1] != b);
                    }
                }
            },
            None => {
                assert forall|k: int| 0 <= k < s.len() implies #[trigger] s[k] != a && s[k] != b by {
                    if k > 0 {
                        assert(rest[k - 1] != a && rest[k - 1] != b);
                    }
                }
            },
        }
    }
}

/// A number that is written in decimal is read back, with or without a plus sign, if it is not too
/// large.
pub proof fn law_number_reads_back(n: nat, max: nat)
    ensures
        number(decimal(n), max) == (if n <= max {
            Some(n)
        } else {
            None
        }),
        number(seq!['+'] + decimal(n), max) == number(decimal(n), max),
        number(Seq::<char>::empty(), max) is None,
{
    law_decimal_reads_back(n);
    assert(is_digit(decimal(n)[0]));
    assert((seq!['+'] + decimal(n)).drop_first() =~= decimal(n));
}

/// A text that holds anything but digits, besides a plus sign at its start, is no number.
pub proof fn law_numbers_are_digits(s: Seq<char>, max: nat, i: int)
    requires
        0 <= i < s.len(),
        !('0' <= s[i] <= '9'),
        i > 0 || s[i] != '+',
    ensures
        number(s, max) is None,
{
    let d = unsigned_digits(s);
    if s[0] == '+' {
        assert(!is_digit(d[i - 1]));
    } else {
        assert(!is_digit(d[i]));
    }
}

proof fn lemma_digits_are_trimmed(n: nat)
    ensures
        trimmed(decimal(n)) == decimal(n),
        decimal(n).len() > 0,
        !is_space(decimal(n)[0]),
        !is_space(decimal(n).last()),
        forall|k: int| 0 <= k < decimal(n).len() ==> is_digit(#[trigger] decimal(n)[k]),
{
    law_decimal_reads_back(n);
    assert(is_digit(decimal(n)[0]));
    assert(is_digit(decimal(n)[decimal(n).len() - 1]));
    law_nothing_to_trim(decimal(n));
}

/// A size that is written as a width, an `x`, small or capital, and a height is read back, the width
/// first.
pub proof fn law_size_reads_back(w: nat, h: nat, x: char)
    requires
        w <= u32::MAX,
        h <= u32::MAX,
        x == 'x' || x == 'X',
    ensures
        size_pair(decimal(w) + seq![x] + decimal(h)) == Some((w, h)),
{
    let (a, b) = (decimal(w), decimal(h));
    let s = a + seq![x] + b;
    lemma_digits_are_trimmed(w);
    lemma_digits_are_trimmed(h);
    assert(s[0] == a[0]);
    assert(s.last() == b.last());
    law_nothing_to_trim(s);
    law_first_of_two(s, 'x', 'X');
    let at = a.len() as int;
    assert(s[at] == x);
    match first_of(s, 'x', 'X') {
        Some(i) => {
            if i < at {
                assert(is_digit(a[i]));
                assert(s[i] == a[i]);
            }
            assert(i == at);
        },
        None => {
            assert(s[at] != 'x' && s[at] != 'X');
        },
    }
    assert(s.take(at) =~= a);
    assert(s.skip(at + 1) =~= b);
    law_number_reads_back(w, u32::MAX as nat);
    law_number_reads_back(h, u32::MAX as nat);
}

} // verus!

//! Text as sequences of characters: searching, trimming, splitting, ASCII
//! case, decimal numbers and joining.

use vstd::prelude::*;

verus! {

/// `String::push` appends one character.
pub assume_specification[ String::push ](s: &mut String, c: char)
    ensures
        final(s)@ == old(s)@.push(c),
;

/// The characters of `s`, in order.
pub fn chars_of(s: &str) -> (v: Vec<char>)
    ensures
        v@ == s@,
{
    let mut v: Vec<char> = Vec::new();
    for c in it: s.chars()
        invariant
            v@ == s@.take(it.index()),
            it.seq() == s@,
    {
        v.push(c);
    }
    v
}

/// The text made of the characters of `chars` from `from` up to `to`.
pub fn string_of(chars: &[char], from: usize, to: usize) -> (s: String)
    requires
        from <= to <= chars@.len(),
    ensures
        s@ == chars@.subrange(from as int, to as int),
{
    let mut s = String::new();
    let mut i: usize = from;
    while i < to
        invariant
            from <= i <= to <= chars@.len(),
            s@ == chars@.subrange(from as int, i as int),
        decreases to - i,
    {
        s.push(chars[i]);
        i += 1;
        assert(chars@.subrange(from as int, i as int) =~= chars@.subrange(
            from as int,
            i - 1,
        ).push(chars@[i - 1]));
    }
    s
}

// ---------------------------------------------------------------------------
// Searching
// ---------------------------------------------------------------------------
/// `pat` stands in `s` at position `i`.
pub open spec fn matches_at(s: Seq<char>, pat: Seq<char>, i: int) -> bool {
    0 <= i && i + pat.len() <= s.len() && s.subrange(i, i + pat.len()) == pat
}

/// The first position at or after `from` at which `pat` stands in `s`.
pub open spec fn find_from(s: Seq<char>, pat: Seq<char>, from: int) -> Option<int>
    decreases s.len() + 1 - from,
{
    if from < 0 || from + pat.len() > s.len() {
        None
    } else if matches_at(s, pat, from) {
        Some(from)
    } else {
        find_from(s, pat, from + 1)
    }
}

/// `find_from` is the least position of a match.
pub proof fn lemma_find_from(s: Seq<char>, pat: Seq<char>, from: int)
    requires
        0 <= from,
    ensures
        match find_from(s, pat, from) {
            Some(i) => from <= i && matches_at(s, pat, i) && forall|j: int|
                from <= j < i ==> !matches_at(s, pat, j),
            None => forall|j: int| from <= j ==> !matches_at(s, pat, j),
        },
    decreases s.len() + 1 - from,
{
    if from + pat.len() <= s.len() && !matches_at(s, pat, from) {
        lemma_find_from(s, pat, from + 1);
    }
}

/// A least position of a match is what `find_from` gives.
pub proof fn lemma_find_from_is(s: Seq<char>, pat: Seq<char>, from: int, i: int)
    requires
        0 <= from <= i,
        matches_at(s, pat, i),
        forall|j: int| from <= j < i ==> !matches_at(s, pat, j),
    ensures
        find_from(s, pat, from) == Some(i),
{
    lemma_find_from(s, pat, from);
}

fn stands_at(s: &[char], pat: &[char], i: usize) -> (r: bool)
    requires
        i + pat@.len() <= s@.len(),
    ensures
        r == matches_at(s@, pat@, i as int),
{
    let n: usize = s.len();
    let mut k: usize = 0;
    while k < pat.len()
        invariant
            k <= pat@.len(),
            n == s@.len(),
            i + pat@.len() <= n,
            forall|j: int| 0 <= j < k ==> s@[i + j] == pat@[j],
        decreases pat@.len() - k,
    {
        if s[i + k] != pat[k] {
            assert(s@.subrange(i as int, i + pat@.len())[k as int] != pat@[k as int]);
            return false;
        }
        k += 1;
    }
    assert(s@.subrange(i as int, i + pat@.len()) =~= pat@);
    true
}

/// Finds the first position at or after `from` at which `pat` stands in `s`.
pub fn find(s: &[char], pat: &[char], from: usize) -> (r: Option<usize>)
    ensures
        match r {
            Some(i) => find_from(s@, pat@, from as int) == Some(i as int),
            None => find_from(s@, pat@, from as int) is None,
        },
        r matches Some(i) ==> from <= i && i + pat@.len() <= s@.len() && matches_at(
            s@,
            pat@,
            i as int,
        ),
{
    let mut i: usize = from;
    while i <= s.len() && pat.len() <= s.len() - i
        invariant
            from <= i,
            find_from(s@, pat@, from as int) == find_from(s@, pat@, i as int),
        decreases s@.len() + 1 - i,
    {
        if stands_at(s, pat, i) {
            return Some(i);
        }
        if i == s.len() {
            // An empty pattern stands everywhere, so this point is not reached.
            assert(s@.subrange(i as int, i as int) =~= pat@);
            return None;
        }
        i += 1;
    }
    None
}

/// The position of the last character of `s` that satisfies `f`, or -1.
pub open spec fn last_index(s: Seq<char>, f: spec_fn(char) -> bool) -> int
    decreases s.len(),
{
    if s.len() == 0 {
        -1
    } else if f(s.last()) {
        s.len() - 1
    } else {
        last_index(s.drop_last(), f)
    }
}

/// `last_index` names the last satisfying position, or -1 when there is none.
pub proof fn lemma_last_index(s: Seq<char>, f: spec_fn(char) -> bool)
    ensures
        -1 <= last_index(s, f) < s.len(),
        last_index(s, f) >= 0 ==> f(s[last_index(s, f)]),
        forall|j: int| last_index(s, f) < j < s.len() ==> !f(#[trigger] s[j]),
    decreases s.len(),
{
    if s.len() > 0 && !f(s.last()) {
        lemma_last_index(s.drop_last(), f);
        assert forall|j: int| last_index(s, f) < j < s.len() implies !f(#[trigger] s[j]) by {
            if j < s.len() - 1 {
                assert(s.drop_last()[j] == s[j]);
            }
        }
    }
}

/// A position that satisfies `f`, with none after it, is the last index.
pub proof fn lemma_last_index_is(s: Seq<char>, f: spec_fn(char) -> bool, i: int)
    requires
        -1 <= i < s.len(),
        i >= 0 ==> f(s[i]),
        forall|j: int| i < j < s.len() ==> !f(#[trigger] s[j]),
    ensures
        last_index(s, f) == i,
{
    lemma_last_index(s, f);
    let k = last_index(s, f);
    if k > i {
        assert(f(s[k]));
    } else if k < i {
        assert(f(s[i]));
    }
}

/// What only `d` satisfies.
pub open spec fn is_char(d: char) -> spec_fn(char) -> bool {
    |c: char| c == d
}

/// The position of the last `d` in `s`, or -1.
pub open spec fn last_char(s: Seq<char>, d: char) -> int {
    last_index(s, is_char(d))
}

/// The part of `s` before its last `d`, and the part after it.
pub open spec fn rsplit_once(s: Seq<char>, d: char) -> Option<(Seq<char>, Seq<char>)> {
    let i = last_char(s, d);
    if i < 0 {
        None
    } else {
        Some((s.take(i), s.skip(i + 1)))
    }
}

/// Finds the position of the last `d` in `s`.
pub fn rfind(s: &[char], d: char) -> (r: Option<usize>)
    ensures
        match r {
            Some(i) => i < s@.len() && last_char(s@, d) == i,
            None => last_char(s@, d) == -1,
        },
{
    let ghost f = is_char(d);
    let mut n: usize = s.len();
    while n > 0
        invariant
            n <= s@.len(),
            f == is_char(d),
            forall|j: int| n <= j < s@.len() ==> s@[j] != d,
        decreases n,
    {
        if s[n - 1] == d {
            proof {
                lemma_last_index_is(s@, f, n - 1);
            }
            return Some(n - 1);
        }
        n -= 1;
    }
    proof {
        lemma_last_index_is(s@, f, -1);
    }
    None
}

// ---------------------------------------------------------------------------
// Trimming
// ---------------------------------------------------------------------------
/// The Unicode property `White_Space`.
pub open spec fn white_space(c: char) -> bool {
    ||| '\u{9}' <= c <= '\u{d}'
    ||| c == '\u{20}'
    ||| c == '\u{85}'
    ||| c == '\u{a0}'
    ||| c == '\u{1680}'
    ||| '\u{2000}' <= c <= '\u{200a}'
    ||| c == '\u{2028}'
    ||| c == '\u{2029}'
    ||| c == '\u{202f}'
    ||| c == '\u{205f}'
    ||| c == '\u{3000}'
}

/// Whether `c` has the Unicode property `White_Space`.
pub fn is_white_space(c: char) -> (r: bool)
    ensures
        r == white_space(c),
{
    ('\u{9}' <= c && c <= '\u{d}') || c == '\u{20}' || c == '\u{85}' || c == '\u{a0}' || c
        == '\u{1680}' || ('\u{2000}' <= c && c <= '\u{200a}') || c == '\u{2028}' || c == '\u{2029}'
        || c == '\u{202f}' || c == '\u{205f}' || c == '\u{3000}'
}

/// `s` without its leading characters that satisfy `f`.
pub open spec fn strip_front(s: Seq<char>, f: spec_fn(char) -> bool) -> Seq<char>
    decreases s.len(),
{
    if s.len() > 0 && f(s[0]) {
        strip_front(s.drop_first(), f)
    } else {
        s
    }
}

/// `s` without its trailing characters that satisfy `f`.
pub open spec fn strip_back(s: Seq<char>, f: spec_fn(char) -> bool) -> Seq<char>
    decreases s.len(),
{
    if s.len() > 0 && f(s.last()) {
        strip_back(s.drop_last(), f)
    } else {
        s
    }
}

/// `s` without the characters at either end that satisfy `f`.
pub open spec fn strip(s: Seq<char>, f: spec_fn(char) -> bool) -> Seq<char> {
    strip_back(strip_front(s, f), f)
}

/// What white space satisfies.
pub open spec fn is_white() -> spec_fn(char) -> bool {
    |c: char| white_space(c)
}

/// `s` without the white space at its ends.
pub open spec fn trimmed(s: Seq<char>) -> Seq<char> {
    strip(s, is_white())
}

/// `s` without the white space at its end.
pub open spec fn trimmed_end(s: Seq<char>) -> Seq<char> {
    strip_back(s, is_white())
}

/// Stripping the front takes off the characters before the first that does
/// not satisfy `f`.
pub proof fn lemma_strip_front(s: Seq<char>, f: spec_fn(char) -> bool, i: int)
    requires
        0 <= i <= s.len(),
        forall|j: int| 0 <= j < i ==> f(#[trigger] s[j]),
        i < s.len() ==> !f(s[i]),
    ensures
        strip_front(s, f) == s.skip(i),
    decreases i,
{
    if i == 0 {
        assert(s.skip(0) =~= s);
    } else {
        assert(f(s[0]));
        let rest = s.drop_first();
        assert forall|j: int| 0 <= j < i - 1 implies f(#[trigger] rest[j]) by {
            assert(f(s[j + 1]));
        }
        lemma_strip_front(rest, f, i - 1);
        assert(rest.skip(i - 1) =~= s.skip(i));
    }
}

/// Stripping the back keeps the characters up to the last that does not
/// satisfy `f`.
pub proof fn lemma_strip_back(s: Seq<char>, f: spec_fn(char) -> bool, n: int)
    requires
        0 <= n <= s.len(),
        forall|j: int| n <= j < s.len() ==> f(#[trigger] s[j]),
        n > 0 ==> !f(s[n - 1]),
    ensures
        strip_back(s, f) == s.take(n),
    decreases s.len(),
{
    if n == s.len() {
        assert(s.take(n) =~= s);
    } else {
        assert(f(s[s.len() - 1]));
        let rest = s.drop_last();
        assert forall|j: int| n <= j < rest.len() implies f(#[trigger] rest[j]) by {
            assert(f(s[j]));
        }
        lemma_strip_back(rest, f, n);
        assert(rest.take(n) =~= s.take(n));
    }
}

/// What stripping leaves is a part of `s`, and neither of its ends satisfies
/// `f`.
pub proof fn lemma_strip_ends(s: Seq<char>, f: spec_fn(char) -> bool)
    ensures
        strip(s, f).len() > 0 ==> !f(strip(s, f)[0]) && !f(strip(s, f).last()),
        exists|a: int, b: int|
            0 <= a <= b <= s.len() && strip(s, f) == #[trigger] s.subrange(a, b),
    decreases s.len(),
{
    lemma_strip_front_part(s, f);
    let t = strip_front(s, f);
    lemma_strip_back_part(t, f);
    let a = choose|a: int| 0 <= a <= s.len() && t == s.skip(a);
    let n = strip_back(t, f).len() as int;
    assert(t.take(n) =~= s.subrange(a, a + n));
}

/// Stripping the front takes off the beginning, and leaves a character at the
/// front that does not satisfy `f`.
pub proof fn lemma_strip_front_part(s: Seq<char>, f: spec_fn(char) -> bool)
    ensures
        exists|a: int| 0 <= a <= s.len() && strip_front(s, f) == s.skip(a),
        strip_front(s, f).len() > 0 ==> !f(strip_front(s, f)[0]),
    decreases s.len(),
{
    if s.len() > 0 && f(s[0]) {
        lemma_strip_front_part(s.drop_first(), f);
        let a = choose|a: int|
            0 <= a <= s.drop_first().len() && strip_front(s.drop_first(), f)
                == s.drop_first().skip(a);
        assert(s.drop_first().skip(a) =~= s.skip(a + 1));
    } else {
        assert(s.skip(0) =~= s);
    }
}

/// Stripping the back takes off characters that satisfy `f`, and leaves none at
/// the end.
pub proof fn lemma_strip_back_part(s: Seq<char>, f: spec_fn(char) -> bool)
    ensures
        strip_back(s, f).len() <= s.len(),
        strip_back(s, f) == s.take(strip_back(s, f).len() as int),
        forall|j: int| strip_back(s, f).len() <= j < s.len() ==> f(#[trigger] s[j]),
        strip_back(s, f).len() > 0 ==> !f(strip_back(s, f).last()),
    decreases s.len(),
{
    if s.len() > 0 && f(s.last()) {
        let front = s.drop_last();
        lemma_strip_back_part(front, f);
        let n = strip_back(s, f).len() as int;
        assert(front.take(n) =~= s.take(n));
        assert forall|j: int| n <= j < s.len() implies f(#[trigger] s[j]) by {
            if j < s.len() - 1 {
                assert(front[j] == s[j]);
            }
        }
    } else {
        assert(s.take(s.len() as int) =~= s);
    }
}

/// `s` without the white space at its end.
pub fn trim_end(s: &str) -> (r: String)
    ensures
        r@ == trimmed_end(s@),
{
    let chars = chars_of(s);
    let ghost f = is_white();
    let mut n: usize = chars.len();
    while n > 0 && is_white_space(chars[n - 1])
        invariant
            n <= chars@.len(),
            f == is_white(),
            forall|j: int| n <= j < chars@.len() ==> f(#[trigger] chars@[j]),
        decreases n,
    {
        n -= 1;
    }
    proof {
        lemma_strip_back(chars@, f, n as int);
        assert(chars@.take(n as int) =~= chars@.subrange(0, n as int));
    }
    string_of(chars.as_slice(), 0, n)
}

/// `s` without the white space at its ends.
pub fn trim(s: &str) -> (r: String)
    ensures
        r@ == trimmed(s@),
{
    let chars = chars_of(s);
    let ghost f = is_white();
    let mut a: usize = 0;
    while a < chars.len() && is_white_space(chars[a])
        invariant
            a <= chars@.len(),
            f == is_white(),
            forall|j: int| 0 <= j < a ==> f(#[trigger] chars@[j]),
        decreases chars@.len() - a,
    {
        a += 1;
    }
    proof {
        lemma_strip_front(chars@, f, a as int);
    }
    let mut n: usize = chars.len();
    while n > a && is_white_space(chars[n - 1])
        invariant
            a <= n <= chars@.len(),
            f == is_white(),
            forall|j: int| n <= j < chars@.len() ==> f(#[trigger] chars@[j]),
        decreases n,
    {
        n -= 1;
    }
    proof {
        let t = chars@.skip(a as int);
        assert forall|j: int| n - a <= j < t.len() implies f(#[trigger] t[j]) by {
            assert(f(chars@[a + j]));
        }
        lemma_strip_back(t, f, n - a);
        assert(t.take(n - a) =~= chars@.subrange(a as int, n as int));
    }
    string_of(chars.as_slice(), a, n)
}

// ---------------------------------------------------------------------------
// ASCII case
// ---------------------------------------------------------------------------
/// `c` with an ASCII capital letter made small.
pub open spec fn ascii_lower(c: char) -> char {
    if 'A' <= c <= 'Z' {
        ((c as u32) + 32) as char
    } else {
        c
    }
}

/// `s` with its ASCII capital letters made small.
pub open spec fn ascii_lowercase(s: Seq<char>) -> Seq<char> {
    s.map_values(|c: char| ascii_lower(c))
}

/// `a` and `b` differ in ASCII case at most.
pub open spec fn same_ignoring_ascii_case(a: Seq<char>, b: Seq<char>) -> bool {
    ascii_lowercase(a) == ascii_lowercase(b)
}

fn lower(c: char) -> (r: char)
    ensures
        r == ascii_lower(c),
{
    if 'A' <= c && c <= 'Z' {
        ((c as u8) + 32) as char
    } else {
        c
    }
}

/// The characters of `s` with ASCII capital letters made small.
pub fn lowercase_chars(s: &str) -> (v: Vec<char>)
    ensures
        v@ == ascii_lowercase(s@),
{
    let chars = chars_of(s);
    let mut v: Vec<char> = Vec::new();
    let mut i: usize = 0;
    while i < chars.len()
        invariant
            i <= chars@.len(),
            v@ == ascii_lowercase(chars@.take(i as int)),
        decreases chars@.len() - i,
    {
        v.push(lower(chars[i]));
        i += 1;
        assert(ascii_lowercase(chars@.take(i as int)) =~= ascii_lowercase(
            chars@.take(i - 1),
        ).push(ascii_lower(chars@[i - 1])));
    }
    assert(chars@.take(i as int) =~= chars@);
    v
}

/// Whether `a` and `b` hold the same characters.
pub fn same_chars(a: &[char], b: &[char]) -> (r: bool)
    ensures
        r == (a@ == b@),
{
    if a.len() != b.len() {
        return false;
    }
    let r = stands_at(a, b, 0);
    assert(a@.subrange(0, a@.len() as int) =~= a@);
    r
}

/// Whether `a` and `b` differ in ASCII case at most.
pub fn eq_ignore_ascii_case(a: &str, b: &str) -> (r: bool)
    ensures
        r == same_ignoring_ascii_case(a@, b@),
{
    let la = lowercase_chars(a);
    let lb = lowercase_chars(b);
    same_chars(la.as_slice(), lb.as_slice())
}

/// Whether `s` begins with `pat`.
pub fn starts_with(s: &[char], pat: &[char]) -> (r: bool)
    ensures
        r == pat@.is_prefix_of(s@),
{
    if pat.len() > s.len() {
        return false;
    }
    stands_at(s, pat, 0)
}

/// Whether `s` ends in `pat`.
pub fn ends_with(s: &[char], pat: &[char]) -> (r: bool)
    ensures
        r == pat@.is_suffix_of(s@),
{
    if pat.len() > s.len() {
        return false;
    }
    stands_at(s, pat, s.len() - pat.len())
}

/// Whether `a` and `b` are the same text.
pub fn same_text(a: &str, b: &str) -> (r: bool)
    ensures
        r == (a@ == b@),
{
    let ca = chars_of(a);
    let cb = chars_of(b);
    same_chars(ca.as_slice(), cb.as_slice())
}

// ---------------------------------------------------------------------------
// Numbers and lists
// ---------------------------------------------------------------------------
/// The decimal digit `d`.
pub open spec fn digit(d: nat) -> char {
    (('0' as u32) + d) as char
}

/// `n` in decimal, without leading zeros.
pub open spec fn decimal(n: nat) -> Seq<char>
    decreases n,
{
    if n < 10 {
        seq![digit(n)]
    } else {
        decimal(n / 10).push(digit(n % 10))
    }
}

/// `n` in decimal.
pub fn decimal_text(n: u128) -> (s: String)
    ensures
        s@ == decimal(n as nat),
    decreases n,
{
    if n < 10 {
        let mut s = String::new();
        s.push((48u8 + n as u8) as char);
        assert(s@ =~= seq![digit(n as nat)]);
        s
    } else {
        let mut s = decimal_text(n / 10);
        s.push((48u8 + (n % 10) as u8) as char);
        s
    }
}

/// Decimal numbers consist of digits.
pub proof fn lemma_decimal_digits(n: nat)
    ensures
        decimal(n).len() > 0,
        forall|i: int| 0 <= i < decimal(n).len() ==> '0' <= #[trigger] decimal(n)[i] <= '9',
    decreases n,
{
    if n >= 10 {
        lemma_decimal_digits(n / 10);
    }
}

/// Different numbers have different decimal texts.
pub proof fn lemma_decimal_injective(m: nat, n: nat)
    requires
        decimal(m) == decimal(n),
    ensures
        m == n,
    decreases m,
{
    lemma_decimal_digits(m / 10);
    lemma_decimal_digits(n / 10);
    assert(decimal(m).last() == digit(m % 10));
    assert(decimal(n).last() == digit(n % 10));
    assert(digit(m % 10) as u32 == 48 + m % 10);
    assert(digit(n % 10) as u32 == 48 + n % 10);
    assert(m % 10 == n % 10);
    if m >= 10 {
        assert(decimal(m).len() > 1);
        assert(decimal(m).drop_last() =~= decimal(m / 10));
        assert(decimal(n).drop_last() =~= decimal(n / 10));
        lemma_decimal_injective(m / 10, n / 10);
    } else if n >= 10 {
        assert(decimal(n).len() > 1);
    }
}

/// The texts of a list of strings.
pub open spec fn texts(parts: Seq<String>) -> Seq<Seq<char>> {
    parts.map_values(|s: String| s@)
}

/// The parts in order, with `sep` between each two.
pub open spec fn joined(parts: Seq<Seq<char>>, sep: Seq<char>) -> Seq<char>
    decreases parts.len(),
{
    if parts.len() == 0 {
        Seq::empty()
    } else if parts.len() == 1 {
        parts[0]
    } else {
        joined(parts.drop_last(), sep) + sep + parts.last()
    }
}

/// Joins `parts` with `sep` between each two.
pub fn join(parts: &[String], sep: &str) -> (s: String)
    ensures
        s@ == joined(texts(parts@), sep@),
{
    let mut s = String::new();
    let mut i: usize = 0;
    while i < parts.len()
        invariant
            i <= parts@.len(),
            s@ == joined(texts(parts@.take(i as int)), sep@),
        decreases parts@.len() - i,
    {
        if i > 0 {
            s.append(sep);
        }
        s.append(parts[i].as_str());
        i += 1;
        proof {
            let all = texts(parts@.take(i as int));
            assert(all.drop_last() =~= texts(parts@.take(i - 1)));
            assert(all.last() == parts@[i - 1]@);
        }
    }
    assert(parts@.take(i as int) =~= parts@);
    s
}

// ---------------------------------------------------------------------------
// Laws
// ---------------------------------------------------------------------------
/// A pattern stands at a position where the text agrees with it character by
/// character.
pub proof fn law_match_is_character_by_character(s: Seq<char>, pat: Seq<char>, i: int)
    ensures
        matches_at(s, pat, i) <==> 0 <= i && i + pat.len() <= s.len() && forall|k: int|
            0 <= k < pat.len() ==> s[i + k] == #[trigger] pat[k],
{
    if 0 <= i && i + pat.len() <= s.len() {
        let part = s.subrange(i, i + pat.len());
        if part == pat {
            assert forall|k: int| 0 <= k < pat.len() implies s[i + k] == #[trigger] pat[k] by {
                assert(part[k] == s[i + k]);
            }
        }
        if forall|k: int| 0 <= k < pat.len() ==> s[i + k] == #[trigger] pat[k] {
            assert(part =~= pat);
        }
    }
}

/// The first match is the least position where the pattern stands, and there is
/// none only where the pattern stands nowhere.
pub proof fn law_first_match(s: Seq<char>, pat: Seq<char>, from: int, i: int)
    requires
        0 <= from,
    ensures
        find_from(s, pat, from) == Some(i) <==> from <= i && i + pat.len() <= s.len() && s.subrange(
            i,
            i + pat.len(),
        ) == pat && forall|j: int|
            from <= j < i ==> !(j + pat.len() <= s.len() && #[trigger] s.subrange(
                j,
                j + pat.len(),
            ) == pat),
{
    lemma_find_from(s, pat, from);
    if from <= i && i + pat.len() <= s.len() && s.subrange(i, i + pat.len()) == pat && forall|j: int|
        from <= j < i ==> !(j + pat.len() <= s.len() && #[trigger] s.subrange(j, j + pat.len())
            == pat) {
        lemma_find_from_is(s, pat, from, i);
    }
    if find_from(s, pat, from) == Some(i) {
        assert forall|j: int| from <= j < i implies !(j + pat.len() <= s.len()
            && #[trigger] s.subrange(j, j + pat.len()) == pat) by {
            assert(!matches_at(s, pat, j));
        }
    }
}

/// Splitting at the last `d` takes nothing away: both parts with `d` between them
/// are the text, and the second part holds no `d`. A text is whole only where it
/// holds no `d` at all.
pub proof fn law_split_at_the_last(s: Seq<char>, d: char)
    ensures
        match rsplit_once(s, d) {
            Some((before, after)) => s == before.push(d) + after && !after.contains(d),
            None => !s.contains(d),
        },
{
    lemma_last_index(s, is_char(d));
    let i = last_char(s, d);
    if i >= 0 {
        assert(s =~= s.take(i).push(d) + s.skip(i + 1));
        let after = s.skip(i + 1);
        if after.contains(d) {
            let k = choose|k: int| 0 <= k < after.len() && after[k] == d;
            assert(is_char(d)(s[i + 1 + k]));
        }
    } else if s.contains(d) {
        let k = choose|k: int| 0 <= k < s.len() && s[k] == d;
        assert(is_char(d)(s[k]));
    }
}

/// There is one way to split at the last `d`.
pub proof fn law_split_is_unique(before: Seq<char>, d: char, after: Seq<char>)
    requires
        !after.contains(d),
    ensures
        rsplit_once(before.push(d) + after, d) == Some((before, after)),
{
    let s = before.push(d) + after;
    let i = before.len() as int;
    assert(s[i] == d);
    assert forall|j: int| i < j < s.len() implies !is_char(d)(#[trigger] s[j]) by {
        assert(s[j] == after[j - i - 1]);
    }
    lemma_last_index_is(s, is_char(d), i);
    assert(s.take(i) =~= before);
    assert(s.skip(i + 1) =~= after);
}

/// White space is what Unicode gives the property, code point by code point.
pub proof fn law_white_space(c: char)
    ensures
        white_space(c) <==> {
            let v = c as u32;
            v == 9 || v == 10 || v == 11 || v == 12 || v == 13 || v == 32 || v == 133 || v == 160
                || v == 5760 || 8192 <= v <= 8202 || v == 8232 || v == 8233 || v == 8239 || v
                == 8287 || v == 12288
        },
{
}

/// What stripping leaves, by its first position and the one behind its last: all
/// that stands around it satisfies `f`, and neither of its ends does.
pub proof fn lemma_strip_range(s: Seq<char>, f: spec_fn(char) -> bool) -> (r: (int, int))
    ensures
        0 <= r.0 <= r.1 <= s.len(),
        strip(s, f) == s.subrange(r.0, r.1),
        forall|j: int| 0 <= j < r.0 || r.1 <= j < s.len() ==> f(#[trigger] s[j]),
        r.0 < r.1 ==> !f(s[r.0]) && !f(s[r.1 - 1]),
{
    let t = strip_front(s, f);
    let a = lemma_strip_front_at(s, f);
    lemma_strip_back_part(t, f);
    let n = strip_back(t, f).len() as int;
    assert(t.take(n) =~= s.subrange(a, a + n));
    assert forall|j: int| 0 <= j < a || a + n <= j < s.len() implies f(#[trigger] s[j]) by {
        if j >= a {
            assert(f(t[j - a]));
        }
    }
    if n > 0 {
        assert(t.take(n).last() == s[a + n - 1]);
    }
    (a, a + n)
}

proof fn lemma_strip_front_at(s: Seq<char>, f: spec_fn(char) -> bool) -> (a: int)
    ensures
        0 <= a <= s.len(),
        strip_front(s, f) == s.skip(a),
        forall|j: int| 0 <= j < a ==> f(#[trigger] s[j]),
        a < s.len() ==> !f(s[a]),
    decreases s.len(),
{
    if s.len() > 0 && f(s[0]) {
        let rest = s.drop_first();
        let a = lemma_strip_front_at(rest, f);
        assert(rest.skip(a) =~= s.skip(a + 1));
        assert forall|j: int| 0 <= j < a + 1 implies f(#[trigger] s[j]) by {
            if j > 0 {
                assert(f(rest[j - 1]));
            }
        }
        a + 1
    } else {
        assert(s.skip(0) =~= s);
        0
    }
}

/// Trimming takes off white space and nothing else: what is left is a part of the
/// text, all that stands before and after it is white space, and neither of its
/// ends is.
pub proof fn law_trim_takes_off_white_space_alone(s: Seq<char>) -> (r: (int, int))
    ensures
        0 <= r.0 <= r.1 <= s.len(),
        trimmed(s) == s.subrange(r.0, r.1),
        forall|j: int| 0 <= j < r.0 || r.1 <= j < s.len() ==> white_space(#[trigger] s[j]),
        r.0 < r.1 ==> !white_space(s[r.0]) && !white_space(s[r.1 - 1]),
{
    let f = is_white();
    let r = lemma_strip_range(s, f);
    assert forall|j: int| 0 <= j < r.0 || r.1 <= j < s.len() implies white_space(
        #[trigger] s[j],
    ) by {
        assert(f(s[j]));
    }
    r
}

/// A text with white space around it trims to the text, where the text itself
/// has none at its ends.
pub proof fn law_padding_is_trimmed(before: Seq<char>, s: Seq<char>, after: Seq<char>)
    requires
        forall|j: int| 0 <= j < before.len() ==> white_space(#[trigger] before[j]),
        forall|j: int| 0 <= j < after.len() ==> white_space(#[trigger] after[j]),
        s.len() > 0 ==> !white_space(s[0]) && !white_space(s.last()),
    ensures
        trimmed(before + s + after) == s,
{
    let whole = before + s + after;
    let (a, b) = law_trim_takes_off_white_space_alone(whole);
    let i = before.len() as int;
    let k = i + s.len();
    assert forall|j: int| 0 <= j < whole.len() && (j < i || j >= k) implies white_space(
        #[trigger] whole[j],
    ) by {
        if j < i {
            assert(whole[j] == before[j]);
        } else {
            assert(whole[j] == after[j - k]);
        }
    }
    if s.len() > 0 {
        assert(whole[i] == s[0]);
        assert(whole[k - 1] == s.last());
        assert(a == i);
        assert(b == k);
    } else if a < b {
        assert(white_space(whole[a]));
    }
    assert(whole.subrange(a, b) =~= s);
}

/// Trimming the end takes off white space at the end and nothing else.
pub proof fn law_trim_end_takes_off_white_space_alone(s: Seq<char>)
    ensures
        trimmed_end(s).is_prefix_of(s),
        forall|j: int| trimmed_end(s).len() <= j < s.len() ==> white_space(#[trigger] s[j]),
        trimmed_end(s).len() > 0 ==> !white_space(trimmed_end(s).last()),
{
    let f = is_white();
    lemma_strip_back_part(s, f);
    assert forall|j: int| trimmed_end(s).len() <= j < s.len() implies white_space(
        #[trigger] s[j],
    ) by {
        assert(f(s[j]));
    }
}

/// Making letters small adds 32 to the code of an ASCII capital and leaves every
/// other character, and the number of characters, alone.
pub proof fn law_lowercase_is_character_by_character(s: Seq<char>)
    ensures
        ascii_lowercase(s).len() == s.len(),
        forall|i: int|
            0 <= i < s.len() ==> {
                let v = (#[trigger] s[i]) as u32;
                ascii_lowercase(s)[i] as u32 == (if 65 <= v <= 90 { v + 32 } else { v as int })
            },
{
}

/// Making letters small makes no dot of anything else.
pub proof fn lemma_only_a_dot_is_made_a_dot(c: char)
    ensures
        ascii_lower(c) == '.' <==> c == '.',
{
}

/// Two texts are the same but for ASCII case where they are equally long and agree
/// character by character, up to the 32 between a capital and its small letter.
pub proof fn law_same_but_for_case(a: Seq<char>, b: Seq<char>)
    ensures
        same_ignoring_ascii_case(a, b) <==> a.len() == b.len() && forall|i: int|
            0 <= i < a.len() ==> {
                let v = (#[trigger] a[i]) as u32;
                let w = b[i] as u32;
                v == w || (65 <= v <= 90 && w == v + 32) || (65 <= w <= 90 && v == w + 32)
            },
{
    let la = ascii_lowercase(a);
    let lb = ascii_lowercase(b);
    if a.len() == b.len() {
        assert forall|i: int| 0 <= i < a.len() implies (la[i] == lb[i] <==> {
            let v = (#[trigger] a[i]) as u32;
            let w = b[i] as u32;
            v == w || (65 <= v <= 90 && w == v + 32) || (65 <= w <= 90 && v == w + 32)
        }) by {
            assert(la[i] == ascii_lower(a[i]));
            assert(lb[i] == ascii_lower(b[i]));
        }
        if la == lb {
            assert forall|i: int| 0 <= i < a.len() implies {
                let v = (#[trigger] a[i]) as u32;
                let w = b[i] as u32;
                v == w || (65 <= v <= 90 && w == v + 32) || (65 <= w <= 90 && v == w + 32)
            } by {
                assert(la[i] == lb[i]);
            }
        }
        if forall|i: int|
            0 <= i < a.len() ==> {
                let v = (#[trigger] a[i]) as u32;
                let w = b[i] as u32;
                v == w || (65 <= v <= 90 && w == v + 32) || (65 <= w <= 90 && v == w + 32)
            } {
            assert forall|i: int| 0 <= i < a.len() implies la[i] == lb[i] by {
                let c = a[i];
            }
            assert(la =~= lb);
        }
    } else {
        assert(la.len() != lb.len());
    }
}

/// The number that a text of decimal digits stands for.
pub open spec fn digits_value(s: Seq<char>) -> int
    decreases s.len(),
{
    if s.len() == 0 {
        0
    } else {
        digits_value(s.drop_last()) * 10 + (s.last() as u32 - 48)
    }
}

/// A decimal text stands for the number that it was made of, in digits alone and
/// without a zero in front.
pub proof fn law_decimal_reads_back(n: nat)
    ensures
        digits_value(decimal(n)) == n,
        decimal(n).len() > 0,
        forall|i: int| 0 <= i < decimal(n).len() ==> 48 <= (#[trigger] decimal(n)[i]) as u32 <= 57,
        decimal(n).len() > 1 ==> decimal(n)[0] as u32 != 48,
    decreases n,
{
    lemma_decimal_digits(n);
    if n >= 10 {
        law_decimal_reads_back(n / 10);
        let front = decimal(n / 10);
        assert(decimal(n).drop_last() =~= front);
        assert(decimal(n).last() as u32 == 48 + n % 10);
        if front.len() == 1 {
            assert(front.drop_last() =~= Seq::empty());
            reveal_with_fuel(digits_value, 2);
            assert(digits_value(front) == front[0] as u32 - 48);
        }
    } else {
        assert(decimal(n).drop_last() =~= Seq::empty());
        reveal_with_fuel(digits_value, 2);
        assert(digit(n) as u32 == 48 + n);
    }
}

/// The texts of a list of strings are those of its strings, one for one.
pub proof fn law_texts(parts: Seq<String>)
    ensures
        texts(parts).len() == parts.len(),
        forall|i: int| 0 <= i < parts.len() ==> #[trigger] texts(parts)[i] == parts[i]@,
{
}

/// Joining leaves a single part as it is, and puts the separator between two lists
/// of parts, whole, where neither is empty.
pub proof fn law_join(first: Seq<Seq<char>>, part: Seq<char>, rest: Seq<Seq<char>>, sep: Seq<char>)
    requires
        first.len() > 0,
        rest.len() > 0,
    ensures
        joined(Seq::empty(), sep) == Seq::<char>::empty(),
        joined(seq![part], sep) == part,
        joined(first + rest, sep) == joined(first, sep) + sep + joined(rest, sep),
    decreases rest.len(),
{
    let all = first + rest;
    assert(all.drop_last() =~= first + rest.drop_last());
    assert(all.last() == rest.last());
    if rest.len() == 1 {
        assert(first + rest.drop_last() =~= first);
    } else {
        law_join(first, part, rest.drop_last(), sep);
        assert(joined(all, sep) =~= joined(first, sep) + sep + joined(rest, sep));
    }
}

} // verus!

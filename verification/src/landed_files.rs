//! Files that attachments land in: what they are called and how long they stay.

use vstd::prelude::*;

use crate::text;

verus! {

// ---------------------------------------------------------------------------
// Safe names
// ---------------------------------------------------------------------------
/// What separates the components of a path, on any platform.
pub open spec fn separator() -> spec_fn(char) -> bool {
    |c: char| c == '/' || c == '\\'
}

/// What a safe name does not begin or end with.
pub open spec fn edge() -> spec_fn(char) -> bool {
    |c: char| c == '.' || c == '_'
}

/// What a safe name is made of: `[A-Za-z0-9._-]`.
pub open spec fn safe_char(c: char) -> bool {
    ||| 'a' <= c <= 'z'
    ||| 'A' <= c <= 'Z'
    ||| '0' <= c <= '9'
    ||| c == '.'
    ||| c == '_'
    ||| c == '-'
}

/// A character as it stands in a safe name.
pub open spec fn cleaned_char(c: char) -> char {
    if safe_char(c) {
        c
    } else {
        '_'
    }
}

/// Each character as it stands in a safe name.
pub open spec fn cleaned(s: Seq<char>) -> Seq<char> {
    s.map_values(|c: char| cleaned_char(c))
}

/// The last component of a path.
pub open spec fn base_name(name: Seq<char>) -> Seq<char> {
    name.skip(text::last_index(name, separator()) + 1)
}

/// The safe form of a name.
pub open spec fn sanitized(name: Seq<char>) -> Seq<char> {
    let trimmed = text::strip(cleaned(base_name(name)), edge());
    if trimmed.len() == 0 {
        "attachment"@
    } else {
        trimmed
    }
}

fn clean(c: char) -> (r: char)
    ensures
        r == cleaned_char(c),
{
    if ('a' <= c && c <= 'z') || ('A' <= c && c <= 'Z') || ('0' <= c && c <= '9') || c == '.' || c
        == '_' || c == '-' {
        c
    } else {
        '_'
    }
}

/// Keeps only the final path component and replaces anything outside
/// `[A-Za-z0-9._-]` so a platform-supplied name can never traverse or need
/// shell quoting.
pub fn sanitize_file_name(name: &str) -> (r: String)
    ensures
        r@ == sanitized(name@),
{
    let chars = text::chars_of(name);
    let total: usize = chars.len();
    let mut start: usize = total;
    while start > 0 && chars[start - 1] != '/' && chars[start - 1] != '\\'
        invariant
            start <= total,
            total == chars@.len(),
            chars@ == name@,
            forall|j: int| start <= j < total ==> !separator()(#[trigger] name@[j]),
        decreases start,
    {
        start -= 1;
    }
    proof {
        text::lemma_last_index_is(name@, separator(), start - 1);
    }
    let mut kept: Vec<char> = Vec::new();
    let mut i: usize = start;
    while i < total
        invariant
            start <= i <= total,
            total == chars@.len(),
            chars@ == name@,
            base_name(name@) == name@.skip(start as int),
            kept@ == cleaned(base_name(name@)).take(i - start),
        decreases total - i,
    {
        kept.push(clean(chars[i]));
        i += 1;
        assert(kept@ =~= cleaned(base_name(name@)).take(i - start));
    }
    assert(kept@ =~= cleaned(base_name(name@)));
    let n: usize = kept.len();
    let mut a: usize = 0;
    while a < n && (kept[a] == '.' || kept[a] == '_')
        invariant
            a <= n,
            n == kept@.len(),
            forall|j: int| 0 <= j < a ==> edge()(#[trigger] kept@[j]),
        decreases n - a,
    {
        a += 1;
    }
    let mut b: usize = n;
    while b > a && (kept[b - 1] == '.' || kept[b - 1] == '_')
        invariant
            a <= b <= n,
            n == kept@.len(),
            forall|j: int| b <= j < n ==> edge()(#[trigger] kept@[j]),
        decreases b,
    {
        b -= 1;
    }
    proof {
        text::lemma_strip_front(kept@, edge(), a as int);
        text::lemma_strip_back(kept@.skip(a as int), edge(), b - a);
        assert(kept@.skip(a as int).take(b - a) =~= kept@.subrange(a as int, b as int));
    }
    if a == b {
        "attachment".to_owned()
    } else {
        text::string_of(kept.as_slice(), a, b)
    }
}

/// A safe name is not empty, consists of `[A-Za-z0-9._-]` alone, so holds
/// nothing that separates path components, and neither begins nor ends with a
/// dot, so is no name for a directory above.
pub proof fn law_safe_name(name: Seq<char>)
    ensures
        sanitized(name).len() > 0,
        forall|i: int| 0 <= i < sanitized(name).len() ==> safe_char(#[trigger] sanitized(name)[i]),
        forall|i: int|
            0 <= i < sanitized(name).len() ==> !separator()(#[trigger] sanitized(name)[i]),
        !edge()(sanitized(name)[0]),
        !edge()(sanitized(name).last()),
{
    let whole = cleaned(base_name(name));
    let trimmed = text::strip(whole, edge());
    text::lemma_strip_ends(whole, edge());
    if trimmed.len() == 0 {
        reveal_strlit("attachment");
    } else {
        let (a, b) = choose|a: int, b: int|
            0 <= a <= b <= whole.len() && trimmed == #[trigger] whole.subrange(a, b);
        assert forall|i: int| 0 <= i < trimmed.len() implies safe_char(#[trigger] trimmed[i]) by {
            assert(trimmed[i] == whole[a + i]);
        }
    }
}

/// A name of safe characters that neither begins nor ends with a dot or an
/// underscore is kept.
pub proof fn law_safe_names_are_kept(name: Seq<char>)
    requires
        name.len() > 0,
        forall|i: int| 0 <= i < name.len() ==> safe_char(#[trigger] name[i]),
        !edge()(name[0]),
        !edge()(name.last()),
    ensures
        sanitized(name) == name,
{
    text::lemma_last_index_is(name, separator(), -1);
    assert(base_name(name) =~= name);
    assert(cleaned(name) =~= name);
    text::lemma_strip_front(name, edge(), 0);
    assert(name.skip(0) =~= name);
    text::lemma_strip_back(name, edge(), name.len() as int);
    assert(name.take(name.len() as int) =~= name);
}

/// A safe name stays as it is.
pub proof fn law_sanitizing_again(name: Seq<char>)
    ensures
        sanitized(sanitized(name)) == sanitized(name),
{
    law_safe_name(name);
    law_safe_names_are_kept(sanitized(name));
}

/// The directories in front of a name have no influence on its safe form,
/// however they are separated.
pub proof fn law_directories_do_not_matter(dir: Seq<char>, sep: char, name: Seq<char>)
    requires
        separator()(sep),
    ensures
        sanitized(dir.push(sep) + name) == sanitized(name),
{
    let whole = dir.push(sep) + name;
    let at = text::last_index(name, separator());
    text::lemma_last_index(name, separator());
    let shifted = dir.len() + 1 + at;
    assert(whole[dir.len() as int] == sep);
    assert forall|j: int| shifted < j < whole.len() implies !separator()(#[trigger] whole[j]) by {
        assert(whole[j] == name[j - dir.len() - 1]);
    }
    if at >= 0 {
        assert(whole[shifted] == name[at]);
    }
    text::lemma_last_index_is(whole, separator(), shifted);
    assert(base_name(whole) =~= base_name(name));
}

// ---------------------------------------------------------------------------
// Images
// ---------------------------------------------------------------------------
/// Whether a MIME type is that of a PNG image.
pub open spec fn png_mime(mime: Seq<char>) -> bool {
    text::same_ignoring_ascii_case(mime, "image/png"@)
}

/// Whether a name has the extension of a PNG image.
pub open spec fn png_named(name: Seq<char>) -> bool {
    ".png"@.is_suffix_of(text::ascii_lowercase(name))
}

/// A name without its extension.
pub open spec fn stem(name: Seq<char>) -> Seq<char> {
    match text::rsplit_once(name, '.') {
        Some((before, _)) => before,
        None => name,
    }
}

/// The name that an image of this MIME type is saved under.
pub open spec fn image_name(original: Seq<char>, mime: Seq<char>) -> Seq<char> {
    if png_mime(mime) && !png_named(original) {
        stem(original) + ".png"@
    } else {
        original
    }
}

/// The saved image file's name must match the bytes actually written: vision
/// normalization can turn a `.webp` into PNG bytes.
pub fn image_file_name(original: &str, mime: &str) -> (r: String)
    ensures
        r@ == image_name(original@, mime@),
{
    if !text::eq_ignore_ascii_case(mime, "image/png") {
        return original.to_owned();
    }
    let lower = text::lowercase_chars(original);
    let dot_png = text::chars_of(".png");
    if text::ends_with(lower.as_slice(), dot_png.as_slice()) {
        return original.to_owned();
    }
    let chars = text::chars_of(original);
    let end: usize = match text::rfind(chars.as_slice(), '.') {
        Some(i) => i,
        None => chars.len(),
    };
    let mut name = text::string_of(chars.as_slice(), 0, end);
    assert(name@ =~= stem(original@));
    name.append(".png");
    name
}

/// A PNG image is saved under a name that says so, and any other image under
/// its own.
pub proof fn law_image_names(original: Seq<char>, mime: Seq<char>)
    ensures
        png_mime(mime) ==> png_named(image_name(original, mime)),
        !png_mime(mime) ==> image_name(original, mime) == original,
        image_name(image_name(original, mime), mime) == image_name(original, mime),
{
    if png_mime(mime) && !png_named(original) {
        let name = image_name(original, mime);
        reveal_strlit(".png");
        let lower = text::ascii_lowercase(name);
        assert(lower.skip(lower.len() - 4) =~= ".png"@);
    }
}

// ---------------------------------------------------------------------------
// Landing names
// ---------------------------------------------------------------------------
/// A name to land a file under: the time in milliseconds, a counter from the
/// second attempt on, and the safe form of the file's own name.
pub open spec fn landing_name(millis: nat, counter: nat, name: Seq<char>) -> Seq<char> {
    if counter == 0 {
        text::decimal(millis) + "_"@ + sanitized(name)
    } else {
        text::decimal(millis) + "-"@ + text::decimal(counter) + "_"@ + sanitized(name)
    }
}

/// The names to try, one after the other, until one is free. `counter` says how
/// many were taken.
#[derive(Debug)]
pub struct LandingName {
    pub millis: u128,
    pub counter: u32,
    pub file_name: String,
}

impl LandingName {
    /// The first name to try for a file that arrived at `millis`.
    pub fn new(millis: u128, file_name: &str) -> (r: Self)
        ensures
            r.millis == millis,
            r.counter == 0,
            r.file_name@ == file_name@,
    {
        LandingName { millis, counter: 0, file_name: file_name.to_owned() }
    }

    /// The name to try.
    pub fn candidate(&self) -> (s: String)
        ensures
            s@ == landing_name(self.millis as nat, self.counter as nat, self.file_name@),
    {
        let mut s = text::decimal_text(self.millis);
        if self.counter > 0 {
            s.append("-");
            s.append(text::decimal_text(self.counter as u128).as_str());
        }
        s.append("_");
        s.append(sanitize_file_name(self.file_name.as_str()).as_str());
        s
    }

    /// Uses the name where it is free, and goes on to the next where it is taken.
    pub fn step(self, taken: bool) -> (r: LandingStep)
        requires
            taken ==> self.counter < u32::MAX,
        ensures
            match r {
                LandingStep::Use(name) => !taken && name@ == landing_name(
                    self.millis as nat,
                    self.counter as nat,
                    self.file_name@,
                ),
                LandingStep::Try(next) => {
                    &&& taken
                    &&& next.millis == self.millis
                    &&& next.counter == self.counter + 1
                    &&& next.file_name@ == self.file_name@
                },
            },
    {
        if taken {
            LandingStep::Try(self.next())
        } else {
            LandingStep::Use(self.candidate())
        }
    }

    /// The next name to try.
    pub fn next(self) -> (r: Self)
        requires
            self.counter < u32::MAX,
        ensures
            r.millis == self.millis,
            r.counter == self.counter + 1,
            r.file_name@ == self.file_name@,
    {
        LandingName {
            millis: self.millis,
            counter: self.counter + 1,
            file_name: self.file_name,
        }
    }
}

/// What comes of a name: it is used, or another is tried.
#[derive(Debug)]
pub enum LandingStep {
    Use(String),
    Try(LandingName),
}

/// The counter that the search for a free name ends on, begun at `counter`, where
/// the names in `taken` are taken; `None` where it would go past the last one.
pub open spec fn free_counter(
    taken: Set<Seq<char>>,
    millis: nat,
    counter: nat,
    name: Seq<char>,
) -> Option<nat>
    decreases u32::MAX + 1 - counter,
{
    if counter > u32::MAX {
        None
    } else if !taken.contains(landing_name(millis, counter, name)) {
        Some(counter)
    } else {
        free_counter(taken, millis, counter + 1, name)
    }
}

/// The search ends on the least free counter, so on a name that is not taken; and
/// it ends there wherever one is free.
pub proof fn law_search_ends_on_the_least_free_name(
    taken: Set<Seq<char>>,
    millis: nat,
    counter: nat,
    name: Seq<char>,
)
    ensures
        match free_counter(taken, millis, counter, name) {
            Some(free) => {
                &&& counter <= free <= u32::MAX
                &&& !taken.contains(landing_name(millis, free, name))
                &&& forall|c: nat|
                    counter <= c < free ==> taken.contains(#[trigger] landing_name(millis, c, name))
            },
            None => forall|c: nat|
                counter <= c <= u32::MAX ==> taken.contains(
                    #[trigger] landing_name(millis, c, name),
                ),
        },
    decreases u32::MAX + 1 - counter,
{
    if counter <= u32::MAX && taken.contains(landing_name(millis, counter, name)) {
        law_search_ends_on_the_least_free_name(taken, millis, counter + 1, name);
    }
}

/// Finitely many names are taken, so where fewer are taken than there are
/// counters, the search ends, after no more attempts than names are taken.
pub proof fn law_search_ends(taken: Set<Seq<char>>, millis: nat, name: Seq<char>)
    requires
        taken.finite(),
        taken.len() <= u32::MAX,
    ensures
        free_counter(taken, millis, 0, name) matches Some(free) && free <= taken.len(),
{
    let names = Seq::new(taken.len() + 1, |i: int| landing_name(millis, i as nat, name));
    law_search_ends_on_the_least_free_name(taken, millis, 0, name);
    assert(names.no_duplicates()) by {
        assert forall|i: int, j: int|
            0 <= i < names.len() && 0 <= j < names.len() && i != j implies names[i] != names[j] by {
            law_attempts_differ(millis, i as nat, j as nat, name);
        }
    }
    names.unique_seq_to_set();
    if !(free_counter(taken, millis, 0, name) matches Some(free) && free <= taken.len()) {
        assert forall|s: Seq<char>| names.to_set().contains(s) implies taken.contains(s) by {
            let i = choose|i: int| 0 <= i < names.len() && names[i] == s;
            assert(taken.contains(landing_name(millis, i as nat, name)));
        }
        vstd::set_lib::lemma_len_subset(names.to_set(), taken);
    }
}

/// Two attempts for the same file at the same time try different names.
pub proof fn law_attempts_differ(millis: nat, a: nat, b: nat, name: Seq<char>)
    requires
        a != b,
    ensures
        landing_name(millis, a, name) != landing_name(millis, b, name),
{
    let x = landing_name(millis, a, name);
    let y = landing_name(millis, b, name);
    let head = text::decimal(millis);
    reveal_strlit("_");
    reveal_strlit("-");
    text::lemma_decimal_digits(a);
    text::lemma_decimal_digits(b);
    if x == y {
        if a > 0 && b > 0 {
            let n = text::decimal(a).len() as int;
            let rest = head.len() + sanitized(name).len() + 2;
            assert(x.len() == rest + n);
            assert(y.len() == rest + text::decimal(b).len());
            let at = head.len() as int + 1;
            assert(x.subrange(at, at + n) =~= text::decimal(a));
            assert(y.subrange(at, at + n) =~= text::decimal(b));
            text::lemma_decimal_injective(a, b);
        } else {
            assert(x.len() != y.len());
        }
    }
}

/// A landed file stays in its directory: its name consists of safe characters,
/// begins with a digit and ends with the safe form of the file's own name.
pub proof fn law_landing_name_is_safe(millis: nat, counter: nat, name: Seq<char>)
    ensures
        forall|i: int|
            0 <= i < landing_name(millis, counter, name).len() ==> safe_char(
                #[trigger] landing_name(millis, counter, name)[i],
            ),
        '0' <= landing_name(millis, counter, name)[0] <= '9',
        ("_"@ + sanitized(name)).is_suffix_of(landing_name(millis, counter, name)),
{
    let s = landing_name(millis, counter, name);
    let tail = "_"@ + sanitized(name);
    reveal_strlit("_");
    reveal_strlit("-");
    text::lemma_decimal_digits(millis);
    text::lemma_decimal_digits(counter);
    law_safe_name(name);
    assert(s.skip(s.len() - tail.len()) =~= tail);
}

// ---------------------------------------------------------------------------
// Retention
// ---------------------------------------------------------------------------
/// An entry of the directory that files land in. `age_nanos` is how long ago it
/// was last written, in nanoseconds, and zero for a time to come; `None` where
/// that is not known.
#[derive(Debug, Clone, Copy)]
pub struct LandedFile {
    pub is_file: bool,
    pub age_nanos: Option<u128>,
}

/// Whether an entry has outlived `max_age_secs`.
pub open spec fn stale(entry: LandedFile, max_age_secs: u64) -> bool {
    entry.is_file && (entry.age_nanos matches Some(age) && age > max_age_secs * 1_000_000_000)
}

/// The positions of the entries to remove: the stale files, or none where there
/// is no limit on their age.
pub open spec fn swept(entries: Seq<LandedFile>, max_age_secs: u64) -> Seq<usize>
    decreases entries.len(),
{
    if max_age_secs == 0 || entries.len() == 0 {
        Seq::empty()
    } else {
        let before = swept(entries.drop_last(), max_age_secs);
        if stale(entries.last(), max_age_secs) {
            before.push((entries.len() - 1) as usize)
        } else {
            before
        }
    }
}

/// Says which of the landed files are older than `max_age_secs`. A limit of
/// zero keeps them all.
pub fn sweep_old_files(entries: &[LandedFile], max_age_secs: u64) -> (r: Vec<usize>)
    ensures
        r@ == swept(entries@, max_age_secs),
{
    let mut r: Vec<usize> = Vec::new();
    if max_age_secs == 0 {
        return r;
    }
    let limit: u128 = (max_age_secs as u128) * 1_000_000_000u128;
    let mut i: usize = 0;
    while i < entries.len()
        invariant
            i <= entries@.len(),
            max_age_secs > 0,
            limit == max_age_secs * 1_000_000_000,
            r@ == swept(entries@.take(i as int), max_age_secs),
        decreases entries@.len() - i,
    {
        let entry = entries[i];
        let old: bool = entry.is_file && match entry.age_nanos {
            Some(age) => age > limit,
            None => false,
        };
        if old {
            r.push(i);
        }
        i += 1;
        proof {
            let now = entries@.take(i as int);
            assert(now.drop_last() =~= entries@.take(i - 1));
        }
    }
    assert(entries@.take(i as int) =~= entries@);
    r
}

/// Only stale files are swept, and all of them, once each, unless there is no
/// limit on their age.
pub proof fn law_sweep_takes_the_stale(entries: Seq<LandedFile>, max_age_secs: u64, i: usize)
    requires
        entries.len() <= usize::MAX,
    ensures
        swept(entries, max_age_secs).contains(i) <==> max_age_secs > 0 && i < entries.len()
            && stale(entries[i as int], max_age_secs),
        swept(entries, max_age_secs).no_duplicates(),
    decreases entries.len(),
{
    if max_age_secs > 0 && entries.len() > 0 {
        let before = swept(entries.drop_last(), max_age_secs);
        let last = (entries.len() - 1) as usize;
        law_sweep_takes_the_stale(entries.drop_last(), max_age_secs, i);
        law_sweep_takes_the_stale(entries.drop_last(), max_age_secs, last);
        assert(!before.contains(last));
        if stale(entries.last(), max_age_secs) {
            assert(before.push(last).last() == last);
            assert forall|j: usize| before.push(last).contains(j) <==> before.contains(j) || j
                == last by {
                if before.contains(j) {
                    let k = choose|k: int| 0 <= k < before.len() && before[k] == j;
                    assert(before.push(last)[k] == j);
                }
                if j == last {
                    assert(before.push(last)[before.len() as int] == j);
                }
            }
        }
    }
}

/// How long landed files stay, in seconds, as far as that can be counted.
pub fn retention_secs(retention_hours: u64) -> (r: u64)
    ensures
        r == (if retention_hours * 3600 <= u64::MAX {
            retention_hours * 3600
        } else {
            u64::MAX as int
        }),
{
    match retention_hours.checked_mul(3600) {
        Some(secs) => secs,
        None => u64::MAX,
    }
}

// ---------------------------------------------------------------------------
// Laws
// ---------------------------------------------------------------------------
/// Whether a character of a name is replaced or may stand at the edge of a name
/// that is then trimmed: anything but a letter, a digit and `-`.
pub open spec fn gives_way(c: char) -> bool {
    let v = c as u32;
    !(97 <= v <= 122 || 65 <= v <= 90 || 48 <= v <= 57 || v == 45)
}

/// A name without directories is made safe character by character: of a part of it
/// each letter, digit, `.`, `_` and `-` stays and each other character becomes an
/// underscore. In front of that part and behind it stands nothing but what gives
/// way, and only where there is nothing else in the name does it get another one.
pub proof fn law_names_are_made_safe_character_by_character(name: Seq<char>) -> (r: (int, int))
    requires
        !name.contains('/'),
        !name.contains('\\'),
    ensures
        0 <= r.0 <= r.1 <= name.len(),
        forall|j: int| 0 <= j < r.0 || r.1 <= j < name.len() ==> gives_way(#[trigger] name[j]),
        r.0 == r.1 ==> sanitized(name) == "attachment"@,
        r.0 < r.1 ==> sanitized(name).len() == r.1 - r.0 && !gives_way(name[r.0]) && !gives_way(
            name[r.1 - 1],
        ),
        r.0 < r.1 ==> forall|j: int|
            r.0 <= j < r.1 ==> {
                let v = (#[trigger] name[j]) as u32;
                sanitized(name)[j - r.0] as u32 == (if !gives_way(name[j]) || v == 46 {
                    v
                } else {
                    95
                })
            },
{
    text::lemma_last_index(name, separator());
    let at = text::last_index(name, separator());
    if at >= 0 {
        assert(separator()(name[at]));
        assert(name.contains(name[at]));
    }
    assert(base_name(name) =~= name);
    let whole = cleaned(name);
    let (a, b) = text::lemma_strip_range(whole, edge());
    assert forall|j: int| 0 <= j < name.len() implies (edge()(whole[j]) <==> gives_way(
        #[trigger] name[j],
    )) by {
        lemma_cleaned(name[j]);
        assert(whole[j] == cleaned_char(name[j]));
    }
    assert forall|j: int| 0 <= j < a || b <= j < name.len() implies gives_way(
        #[trigger] name[j],
    ) by {
        assert(edge()(whole[j]));
    }
    if a < b {
        assert forall|j: int| a <= j < b implies {
            let v = (#[trigger] name[j]) as u32;
            sanitized(name)[j - a] as u32 == (if !gives_way(name[j]) || v == 46 {
                v
            } else {
                95
            })
        } by {
            lemma_cleaned(name[j]);
            assert(whole.subrange(a, b)[j - a] == cleaned_char(name[j]));
        }
    }
    (a, b)
}

proof fn lemma_cleaned(c: char)
    ensures
        cleaned_char(c) as u32 == (if !gives_way(c) || c as u32 == 46 {
            c as u32
        } else {
            95
        }),
        edge()(cleaned_char(c)) <==> gives_way(c),
{
}

/// What separates directories: a slash, of either kind.
pub proof fn law_separators(c: char)
    ensures
        separator()(c) <==> c as u32 == 47 || c as u32 == 92,
        edge()(c) <==> c as u32 == 46 || c as u32 == 95,
        safe_char(c) <==> !gives_way(c) || c as u32 == 46 || c as u32 == 95,
{
}

/// A MIME type is PNG's in capitals or not, and a name is a PNG image's where its
/// last four characters say so, in capitals or not.
pub proof fn law_png_is_told_in_any_case(mime: Seq<char>, name: Seq<char>)
    ensures
        png_mime(mime) <==> text::ascii_lowercase(mime) == "image/png"@,
        png_named(name) <==> name.len() >= 4 && text::ascii_lowercase(
            name.skip(name.len() - 4),
        ) == ".png"@,
{
    reveal_strlit("image/png");
    reveal_strlit(".png");
    assert(text::ascii_lowercase("image/png"@) =~= "image/png"@);
    let lower = text::ascii_lowercase(name);
    if name.len() >= 4 {
        assert(lower.skip(name.len() - 4) =~= text::ascii_lowercase(name.skip(name.len() - 4)));
    }
}

/// A PNG image under another name keeps what stands before the last dot, and its
/// whole name where there is no dot.
pub proof fn law_png_keeps_the_stem(before: Seq<char>, ext: Seq<char>, mime: Seq<char>)
    requires
        text::ascii_lowercase(mime) == "image/png"@,
        !ext.contains('.'),
        text::ascii_lowercase(ext) != "png"@,
    ensures
        image_name(before.push('.') + ext, mime) == before + ".png"@,
        image_name(ext, mime) == ext + ".png"@,
{
    let name = before.push('.') + ext;
    reveal_strlit(".png");
    reveal_strlit("png");
    assert(".png"@[0] == '.' && ".png"@[1] == 'p' && ".png"@[2] == 'n' && ".png"@[3] == 'g');
    law_png_is_told_in_any_case(mime, name);
    law_png_is_told_in_any_case(mime, ext);
    text::law_split_is_unique(before, '.', ext);
    text::law_split_at_the_last(ext, '.');
    if let Some((x, _)) = text::rsplit_once(ext, '.') {
        assert(ext[x.len() as int] == '.');
    }
    if png_named(name) {
        let four = name.skip(name.len() - 4);
        let lower = text::ascii_lowercase(four);
        assert(lower[0] == text::ascii_lower(four[0]));
        assert(lower[1] == text::ascii_lower(four[1]));
        assert(lower[2] == text::ascii_lower(four[2]));
        assert(lower[3] == text::ascii_lower(four[3]));
        text::lemma_only_a_dot_is_made_a_dot(four[0]);
        assert(four[0] == '.');
        let n = ext.len() as int;
        let dot = before.len() as int;
        assert(name[dot] == '.');
        if n > 3 {
            assert(four[0] == ext[n - 4]);
            assert(ext.contains('.'));
        } else if n < 3 {
            assert(four[3 - n] == name[dot]);
            text::lemma_only_a_dot_is_made_a_dot(four[3 - n]);
        } else {
            assert(text::ascii_lowercase(ext) =~= "png"@) by {
                assert(ext[0] == four[1] && ext[1] == four[2] && ext[2] == four[3]);
            }
        }
    }
    if png_named(ext) {
        let four = ext.skip(ext.len() - 4);
        assert(text::ascii_lowercase(four)[0] == text::ascii_lower(four[0]));
        text::lemma_only_a_dot_is_made_a_dot(four[0]);
        assert(ext[ext.len() - 4] == '.');
    }
}

/// A name that already is a PNG image's stays as it is, letter for letter, and so
/// does the name of any image that is not PNG.
pub proof fn law_telling_names_are_kept(name: Seq<char>, mime: Seq<char>)
    requires
        text::ascii_lowercase(mime) == "image/png"@ ==> name.len() >= 4 && text::ascii_lowercase(
            name.skip(name.len() - 4),
        ) == ".png"@,
    ensures
        image_name(name, mime) == name,
{
    law_png_is_told_in_any_case(mime, name);
}

/// A landing name begins with the time in decimal, ends with the safe form of the
/// file's own name, and between them stands an underscore, after a dash and the
/// counter where there is one.
pub proof fn law_landing_name_parts(millis: nat, counter: nat, name: Seq<char>)
    ensures
        ({
            let s = landing_name(millis, counter, name);
            let time = text::decimal(millis);
            let own = sanitized(name);
            &&& time.is_prefix_of(s)
            &&& own.is_suffix_of(s)
            &&& s[s.len() - own.len() - 1] as u32 == 95
            &&& counter == 0 ==> s.len() == time.len() + 1 + own.len()
            &&& counter > 0 ==> s.len() == time.len() + 1 + text::decimal(counter).len() + 1
                + own.len() && s[time.len() as int] as u32 == 45 && s.subrange(
                time.len() as int + 1,
                time.len() as int + 1 + text::decimal(counter).len(),
            ) == text::decimal(counter)
        }),
{
    let s = landing_name(millis, counter, name);
    let time = text::decimal(millis);
    let own = sanitized(name);
    reveal_strlit("_");
    reveal_strlit("-");
    assert(s.take(time.len() as int) =~= time);
    assert(s.skip(s.len() - own.len()) =~= own);
    if counter > 0 {
        let count = text::decimal(counter);
        assert(s.subrange(time.len() as int + 1, time.len() as int + 1 + count.len()) =~= count);
    }
}

/// Files that land at different times land under different names, whatever the
/// attempts and their own names are.
pub proof fn law_times_stay_apart(
    millis: nat,
    counter: nat,
    name: Seq<char>,
    other_millis: nat,
    other_counter: nat,
    other_name: Seq<char>,
)
    requires
        millis != other_millis,
    ensures
        landing_name(millis, counter, name) != landing_name(
            other_millis,
            other_counter,
            other_name,
        ),
{
    let x = landing_name(millis, counter, name);
    let y = landing_name(other_millis, other_counter, other_name);
    if x == y {
        let a = text::decimal(millis);
        let b = text::decimal(other_millis);
        reveal_strlit("_");
        reveal_strlit("-");
        text::lemma_decimal_digits(millis);
        text::lemma_decimal_digits(other_millis);
        assert(x[a.len() as int] == '_' || x[a.len() as int] == '-');
        assert(y[b.len() as int] == '_' || y[b.len() as int] == '-');
        if a.len() < b.len() {
            assert(y[a.len() as int] == b[a.len() as int]);
        } else if b.len() < a.len() {
            assert(x[b.len() as int] == a[b.len() as int]);
        }
        assert forall|i: int| 0 <= i < a.len() implies a[i] == b[i] by {
            assert(x[i] == a[i]);
            assert(y[i] == b[i]);
        }
        assert(a =~= b);
        text::lemma_decimal_injective(millis, other_millis);
    }
}

/// A file is swept exactly if it is a file, its age is known and it is older than
/// the limit, to the nanosecond; nothing is swept without a limit, and what is
/// swept comes in the order of the directory.
pub proof fn law_sweep_goes_by_age(entries: Seq<LandedFile>, max_age_secs: u64, i: usize)
    requires
        entries.len() <= usize::MAX,
    ensures
        swept(entries, max_age_secs).contains(i) <==> max_age_secs != 0 && i < entries.len()
            && entries[i as int].is_file && (entries[i as int].age_nanos matches Some(age) && age
            > max_age_secs * 1_000_000_000),
        forall|j: int, k: int|
            0 <= j < k < swept(entries, max_age_secs).len() ==> swept(entries, max_age_secs)[j]
                < swept(entries, max_age_secs)[k],
{
    law_sweep_takes_the_stale(entries, max_age_secs, i);
    lemma_swept_ascends(entries, max_age_secs);
}

proof fn lemma_swept_ascends(entries: Seq<LandedFile>, max_age_secs: u64)
    requires
        entries.len() <= usize::MAX,
    ensures
        forall|j: int, k: int|
            0 <= j < k < swept(entries, max_age_secs).len() ==> swept(entries, max_age_secs)[j]
                < swept(entries, max_age_secs)[k],
        forall|j: int|
            0 <= j < swept(entries, max_age_secs).len() ==> #[trigger] swept(
                entries,
                max_age_secs,
            )[j] < entries.len(),
    decreases entries.len(),
{
    if max_age_secs > 0 && entries.len() > 0 {
        lemma_swept_ascends(entries.drop_last(), max_age_secs);
        let before = swept(entries.drop_last(), max_age_secs);
        let all = swept(entries, max_age_secs);
        assert forall|j: int| 0 <= j < all.len() implies #[trigger] all[j] < entries.len() && (j
            < before.len() ==> all[j] == before[j] && before[j] < entries.len() - 1) by {
            if j < before.len() {
                assert(before[j] < entries.drop_last().len());
            }
        }
    }
}

} // verus!

//! Fail-closed bridge from the `log` facade into `tracing`.
//!
//! Dependencies log through `log`, and what they write is not ours to review:
//! it may hold names, phone numbers or credentials. So of a record only its
//! level, its line and a bounded form of its target cross the bridge:
//!
//! - the message is replaced whole by [`REDACTED_MESSAGE`];
//! - the module path and the file are dropped;
//! - the target crosses verbatim if it is not empty, at most
//!   [`MAX_TARGET_LEN`] bytes long and made of ASCII letters and digits, `_`,
//!   `:` and `/`; any other is replaced whole by [`REDACTED_TARGET`].

use vstd::prelude::*;
use vstd::utf8::*;

verus! {

/// Fixed text substituted for every third-party message.
pub const REDACTED_MESSAGE: &'static str = "[third-party message redacted]";

/// Fixed text substituted for a target that is not in the safe representation.
/// Its own shape is outside of it, so it cannot be mistaken for a target that a
/// dependency chose.
pub const REDACTED_TARGET: &'static str = "[third-party target redacted]";

/// How many bytes a target that crosses verbatim may have.
pub const MAX_TARGET_LEN: usize = 128;

/// A byte that a verbatim target may hold.
pub open spec fn safe_byte(b: u8) -> bool {
    ||| 0x30 <= b <= 0x39
    ||| 0x41 <= b <= 0x5a
    ||| 0x61 <= b <= 0x7a
    ||| b == 0x5f
    ||| b == 0x3a
    ||| b == 0x2f
}

/// A character that a verbatim target may hold: a letter, a digit, `_`, `:` or
/// `/`.
pub open spec fn safe_char(c: char) -> bool {
    ||| '0' <= c <= '9'
    ||| 'A' <= c <= 'Z'
    ||| 'a' <= c <= 'z'
    ||| c == '_'
    ||| c == ':'
    ||| c == '/'
}

/// A target that may cross verbatim.
pub open spec fn is_safe_target(target: Seq<char>) -> bool {
    let bytes = encode_utf8(target);
    &&& 0 < bytes.len() <= MAX_TARGET_LEN
    &&& forall|i: int| 0 <= i < bytes.len() ==> safe_byte(#[trigger] bytes[i])
}

/// The target as it is allowed to cross.
pub open spec fn crossing_target(target: Seq<char>) -> Seq<char> {
    if is_safe_target(target) {
        target
    } else {
        REDACTED_TARGET@
    }
}

/// True for the bytes that a verbatim target may hold: ASCII letters and
/// digits, `_` and `:` for module paths, `/` for component targets.
pub fn is_safe_target_byte(byte: u8) -> (r: bool)
    ensures
        r == safe_byte(byte),
{
    (0x30 <= byte && byte <= 0x39) || (0x41 <= byte && byte <= 0x5a) || (0x61 <= byte && byte
        <= 0x7a) || byte == 0x5f || byte == 0x3a || byte == 0x2f
}

/// The target as it is allowed to cross: the dependency's own value when it is
/// in the safe representation, [`REDACTED_TARGET`] otherwise.
pub fn safe_target<'a>(target: &'a str) -> (r: &'a str)
    ensures
        r@ == crossing_target(target@),
{
    let bytes = target.as_bytes();
    if bytes.len() == 0 || bytes.len() > MAX_TARGET_LEN {
        return REDACTED_TARGET;
    }
    let mut i: usize = 0;
    while i < bytes.len()
        invariant
            i <= bytes@.len(),
            bytes@ == encode_utf8(target@),
            forall|j: int| 0 <= j < i ==> safe_byte(#[trigger] bytes@[j]),
        decreases bytes@.len() - i,
    {
        if !is_safe_target_byte(bytes[i]) {
            assert(!safe_byte(encode_utf8(target@)[i as int]));
            return REDACTED_TARGET;
        }
        i += 1;
    }
    target
}

// ---------------------------------------------------------------------------
// The bridge
// ---------------------------------------------------------------------------
/// How verbose a record is.
#[derive(Clone, Copy, Debug, PartialEq, Eq, Structural)]
pub enum Level {
    Error,
    Warn,
    Info,
    Debug,
    Trace,
}

/// How verbose records may be at most.
#[derive(Clone, Copy, Debug, PartialEq, Eq, Structural)]
pub enum LevelFilter {
    Off,
    Error,
    Warn,
    Info,
    Debug,
    Trace,
}

impl Level {
    /// How far up the level stands, errors lowest.
    pub open spec fn verbosity(self) -> int {
        match self {
            Level::Error => 1,
            Level::Warn => 2,
            Level::Info => 3,
            Level::Debug => 4,
            Level::Trace => 5,
        }
    }

    fn rank(self) -> (r: u8)
        ensures
            r == self.verbosity(),
    {
        match self {
            Level::Error => 1,
            Level::Warn => 2,
            Level::Info => 3,
            Level::Debug => 4,
            Level::Trace => 5,
        }
    }
}

impl LevelFilter {
    /// The verbosity up to which records pass.
    pub open spec fn ceiling(self) -> int {
        match self {
            LevelFilter::Off => 0,
            LevelFilter::Error => 1,
            LevelFilter::Warn => 2,
            LevelFilter::Info => 3,
            LevelFilter::Debug => 4,
            LevelFilter::Trace => 5,
        }
    }

    fn rank(self) -> (r: u8)
        ensures
            r == self.ceiling(),
    {
        match self {
            LevelFilter::Off => 0,
            LevelFilter::Error => 1,
            LevelFilter::Warn => 2,
            LevelFilter::Info => 3,
            LevelFilter::Debug => 4,
            LevelFilter::Trace => 5,
        }
    }
}

/// A record as a dependency hands it over. The message is there where it needs
/// no formatting.
pub struct LogRecord<'a> {
    pub level: Level,
    pub target: &'a str,
    pub message: Option<&'a str>,
    pub module: Option<&'a str>,
    pub file: Option<&'a str>,
    pub line: Option<u32>,
}

/// A record as it crosses the bridge: all that crosses stands here.
pub struct BridgedRecord<'a> {
    pub level: Level,
    pub target: &'a str,
    pub message: &'a str,
    pub line: Option<u32>,
}

/// A `BridgedRecord` with its texts as sequences of characters.
pub struct BridgedRecordView {
    pub level: Level,
    pub target: Seq<char>,
    pub message: Seq<char>,
    pub line: Option<u32>,
}

impl<'a> View for BridgedRecord<'a> {
    type V = BridgedRecordView;

    open spec fn view(&self) -> BridgedRecordView {
        BridgedRecordView {
            level: self.level,
            target: self.target@,
            message: self.message@,
            line: self.line,
        }
    }
}

/// What crosses of a record.
pub open spec fn bridged(record: LogRecord<'_>) -> BridgedRecordView {
    BridgedRecordView {
        level: record.level,
        target: crossing_target(record.target@),
        message: REDACTED_MESSAGE@,
        line: record.line,
    }
}

/// The view of a target that may be missing.
pub open spec fn target_view(target: Option<&str>) -> Option<Seq<char>> {
    match target {
        Some(target) => Some(target@),
        None => None,
    }
}

/// The view of a bridged record that may be missing.
pub open spec fn bridged_view(r: Option<BridgedRecord<'_>>) -> Option<BridgedRecordView> {
    match r {
        Some(r) => Some(r@),
        None => None,
    }
}

/// The target under which the subscriber is to be asked about a record, or
/// `None` where the record is too verbose to ask.
pub open spec fn asked_target(level: Level, max: LevelFilter, target: Seq<char>) -> Option<
    Seq<char>,
> {
    if level.verbosity() > max.ceiling() {
        None
    } else {
        Some(crossing_target(target))
    }
}

/// The logger that redacts what dependencies log.
pub struct RedactingLogBridge;

impl RedactingLogBridge {
    /// The first half of deciding whether a record is wanted: one above the
    /// process-wide ceiling `max` is not; of any other the subscriber decides,
    /// asked about the target that is given back, since that is the target the
    /// record will be dispatched under.
    pub fn enabled<'a>(&self, level: Level, max: LevelFilter, target: &'a str) -> (r: Option<
        &'a str,
    >)
        ensures
            target_view(r) == asked_target(level, max, target@),
    {
        if level.rank() > max.rank() {
            return None;
        }
        Some(safe_target(target))
    }

    /// What is dispatched of a record, given what the subscriber answered
    /// about its level and its target as it crosses; nothing where the record
    /// is not wanted.
    pub fn log<'a>(&self, record: &LogRecord<'a>, max: LevelFilter, wanted: bool) -> (r: Option<
        BridgedRecord<'a>,
    >)
        ensures
            bridged_view(r) == (if asked_target(record.level, max, record.target@) is Some
                && wanted {
                Some(bridged(*record))
            } else {
                None
            }),
            r matches Some(crossed) ==> crossed.level == record.level && crossed.line
                == record.line && crossed.message@ == REDACTED_MESSAGE@,
    {
        let target = safe_target(record.target);
        match self.enabled(record.level, max, target) {
            Some(_) => {
                if wanted {
                    Some(
                        BridgedRecord {
                            level: record.level,
                            target,
                            message: REDACTED_MESSAGE,
                            line: record.line,
                        },
                    )
                } else {
                    None
                }
            },
            None => None,
        }
    }
}

// ---------------------------------------------------------------------------
// Laws
// ---------------------------------------------------------------------------
/// A target crosses verbatim exactly if it has from one to [`MAX_TARGET_LEN`]
/// characters, each of them a letter, a digit, `_`, `:` or `/`.
pub proof fn law_safe_targets(target: Seq<char>)
    ensures
        is_safe_target(target) <==> 0 < target.len() <= MAX_TARGET_LEN && forall|i: int|
            0 <= i < target.len() ==> safe_char(#[trigger] target[i]),
{
    lemma_safe_bytes(target);
    if forall|i: int| 0 <= i < target.len() ==> safe_char(#[trigger] target[i]) {
        assert(is_ascii_chars(target)) by {
            assert forall|i: int| 0 <= i < target.len() implies '\0' <= #[trigger] target[i]
                <= '\u{7f}' by {
                assert(safe_char(target[i]));
            }
        }
        is_ascii_chars_encode_utf8(target);
    }
}

proof fn lemma_safe_bytes(target: Seq<char>)
    ensures
        (forall|i: int|
            0 <= i < encode_utf8(target).len() ==> safe_byte(#[trigger] encode_utf8(target)[i]))
            <==> forall|i: int| 0 <= i < target.len() ==> safe_char(#[trigger] target[i]),
    decreases target.len(),
{
    if target.len() > 0 {
        let rest = target.drop_first();
        let bytes = encode_utf8(target);
        let first = encode_scalar(target[0] as u32);
        let n = first.len() as int;
        lemma_safe_bytes(rest);
        lemma_safe_scalar(target[0]);
        assert(bytes =~= first + encode_utf8(rest));
        if forall|i: int| 0 <= i < bytes.len() ==> safe_byte(#[trigger] bytes[i]) {
            assert(safe_byte(bytes[0]));
            assert forall|i: int| 0 <= i < encode_utf8(rest).len() implies safe_byte(
                #[trigger] encode_utf8(rest)[i],
            ) by {
                assert(bytes[n + i] == encode_utf8(rest)[i]);
            }
            assert forall|i: int| 0 <= i < target.len() implies safe_char(#[trigger] target[i]) by {
                if i > 0 {
                    assert(rest[i - 1] == target[i]);
                }
            }
        }
        if forall|i: int| 0 <= i < target.len() ==> safe_char(#[trigger] target[i]) {
            assert(safe_char(target[0]));
            assert forall|i: int| 0 <= i < rest.len() implies safe_char(#[trigger] rest[i]) by {
                assert(target[i + 1] == rest[i]);
            }
            assert forall|i: int| 0 <= i < bytes.len() implies safe_byte(#[trigger] bytes[i]) by {
                if i >= n {
                    assert(bytes[i] == encode_utf8(rest)[i - n]);
                }
            }
        }
    }
}

proof fn lemma_safe_scalar(c: char)
    ensures
        encode_scalar(c as u32).len() > 0,
        safe_byte(encode_scalar(c as u32)[0]) <==> safe_char(c),
        safe_char(c) ==> encode_scalar(c as u32).len() == 1,
{
    let v = c as u32;
    assert(v <= 0x7f ==> (v & 0x7F) as u8 == v) by (bit_vector);
    assert(0xC0 | ((v >> 6) & 0x1F) as u8 >= 0xC0) by (bit_vector);
    assert(0xE0 | ((v >> 12) & 0x0F) as u8 >= 0xC0) by (bit_vector);
    assert(0xF0 | ((v >> 18) & 0x7) as u8 >= 0xC0) by (bit_vector);
}

/// The replacement is not itself in the safe representation.
pub proof fn law_replacement_is_marked()
    ensures
        !is_safe_target(REDACTED_TARGET@),
{
    reveal_strlit("[third-party target redacted]");
    law_safe_targets(REDACTED_TARGET@);
    assert(!safe_char(REDACTED_TARGET@[0]));
}

/// What has crossed once crosses again unchanged: asking about the crossing
/// target and dispatching under it agree.
pub proof fn law_crossing_is_idempotent(target: Seq<char>)
    ensures
        crossing_target(crossing_target(target)) == crossing_target(target),
{
    law_replacement_is_marked();
}

/// A target crosses whole or not at all, and what crosses is either the fixed
/// replacement or a short text of identifier characters.
pub proof fn law_crossing_is_bounded(target: Seq<char>)
    ensures
        crossing_target(target) == target || crossing_target(target) == REDACTED_TARGET@,
        crossing_target(target) != REDACTED_TARGET@ ==> 0 < target.len() <= MAX_TARGET_LEN
            && forall|i: int| 0 <= i < target.len() ==> safe_char(#[trigger] target[i]),
{
    law_safe_targets(target);
}

/// No free text crosses: two records that agree in level, line and the target as
/// it crosses, cross alike, whatever their messages, module paths, files and
/// targets are.
pub proof fn law_no_free_text_crosses(a: LogRecord<'_>, b: LogRecord<'_>)
    requires
        a.level == b.level,
        a.line == b.line,
        crossing_target(a.target@) == crossing_target(b.target@),
    ensures
        bridged(a) == bridged(b),
        bridged(a).message == REDACTED_MESSAGE@,
{
}

/// A record that crosses keeps the level and the line that the dependency gave
/// it, and of its texts nothing but the target.
pub proof fn law_level_and_line_cross(record: LogRecord<'_>)
    ensures
        bridged(record).level == record.level,
        bridged(record).line == record.line,
        bridged(record).target == crossing_target(record.target@),
        bridged(record).message == "[third-party message redacted]"@,
{
}

/// Records that differ in level or line cross as records that differ in it.
pub proof fn law_levels_and_lines_stay_apart(a: LogRecord<'_>, b: LogRecord<'_>)
    requires
        a.level != b.level || a.line != b.line,
    ensures
        bridged(a) != bridged(b),
{
}

/// A record is asked about exactly if the ceiling admits its level: nothing passes
/// where logging is off, and otherwise the ceiling's own level and the graver ones.
pub proof fn law_ceiling(level: Level, max: LevelFilter, target: Seq<char>)
    ensures
        asked_target(level, max, target) is Some <==> match max {
            LevelFilter::Off => false,
            LevelFilter::Error => level is Error,
            LevelFilter::Warn => level is Error || level is Warn,
            LevelFilter::Info => !(level is Debug) && !(level is Trace),
            LevelFilter::Debug => !(level is Trace),
            LevelFilter::Trace => true,
        },
        asked_target(level, max, target) matches Some(asked) ==> asked == crossing_target(target),
{
}

/// A target crosses as it is where it is short and made of letters, digits, `_`,
/// `:` and `/`, code by code, and as the fixed replacement everywhere else.
pub proof fn law_target_crosses_as_it_is_or_not_at_all(target: Seq<char>)
    ensures
        ({
            let plain = 1 <= target.len() <= 128 && forall|i: int|
                0 <= i < target.len() ==> {
                    let v = (#[trigger] target[i]) as u32;
                    48 <= v <= 58 || v == 47 || 65 <= v <= 90 || v == 95 || 97 <= v <= 122
                };
            crossing_target(target) == (if plain {
                target
            } else {
                "[third-party target redacted]"@
            })
        }),
{
    law_safe_targets(target);
    assert forall|i: int| 0 <= i < target.len() implies (safe_char(#[trigger] target[i]) <==> {
        let v = target[i] as u32;
        48 <= v <= 58 || v == 47 || 65 <= v <= 90 || v == 95 || 97 <= v <= 122
    }) by {
        lemma_safe_codes(target[i]);
    }
}

proof fn lemma_safe_codes(c: char)
    ensures
        safe_char(c) <==> {
            let v = c as u32;
            48 <= v <= 58 || v == 47 || 65 <= v <= 90 || v == 95 || 97 <= v <= 122
        },
{
}

/// The bytes of a verbatim target, code by code.
pub proof fn law_safe_bytes(b: u8)
    ensures
        safe_byte(b) <==> 47 <= b <= 58 || 65 <= b <= 90 || b == 95 || 97 <= b <= 122,
{
}

/// A view shows each part of what crosses.
pub proof fn law_views_show_what_crosses<'a>(r: BridgedRecord<'a>, target: &'a str)
    ensures
        bridged_view(Some(r)) == Some(r@),
        bridged_view(None) is None,
        r@.level == r.level,
        r@.line == r.line,
        r@.target == r.target@,
        r@.message == r.message@,
        target_view(Some(target)) == Some(target@),
        target_view(None) is None,
{
}

} // verus!

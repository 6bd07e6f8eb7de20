//! Inline media claim tickets.
//!
//! A channel that receives media it chooses not to download can keep a compact
//! re-download descriptor in the history turn instead of a dead placeholder.
//! The descriptor is a base64-encoded JSON object inside a `[WA-MEDIA:...]`
//! marker: base64 never holds a `]`, so every bracket scanner treats the marker
//! as one opaque token.

use vstd::prelude::*;
use vstd::utf8::*;

use crate::encoding;
use crate::json;
use crate::json::JsonObject;
use crate::text;

verus! {

/// What a marker begins with.
pub const MEDIA_REF_PREFIX: &'static str = "[WA-MEDIA:";

/// What a descriptor says about itself: a stable short id, from the hash of
/// the encrypted file, and the kind.
#[derive(Debug)]
pub struct MediaRefSummary {
    pub id: String,
    pub kind: String,
}

// ---------------------------------------------------------------------------
// Markers in a text
// ---------------------------------------------------------------------------
/// The first marker of `s` at or after `from`: the positions of its first
/// character and of the `]` that closes it.
pub open spec fn next_marker(s: Seq<char>, from: int) -> Option<(int, int)> {
    match text::find_from(s, MEDIA_REF_PREFIX@, from) {
        None => None,
        Some(start) => match text::find_from(s, seq![']'], start + MEDIA_REF_PREFIX@.len()) {
            None => None,
            Some(end) => Some((start, end)),
        },
    }
}

/// The payload of the marker that begins at `start` and closes at `end`.
pub open spec fn payload_at(s: Seq<char>, start: int, end: int) -> Seq<char> {
    s.subrange(start + MEDIA_REF_PREFIX@.len(), end)
}

/// The payloads of the markers of `s` at or after `from`, in order.
pub open spec fn media_refs_from(s: Seq<char>, from: int) -> Seq<Seq<char>>
    decreases s.len() + 1 - from,
{
    if from < 0 {
        Seq::empty()
    } else {
        match next_marker(s, from) {
            None => Seq::empty(),
            Some((start, end)) => {
                proof {
                    lemma_next_marker(s, from);
                }
                seq![payload_at(s, start, end)] + media_refs_from(s, end + 1)
            },
        }
    }
}

/// The payloads of the markers of `s`, in order.
pub open spec fn media_refs(s: Seq<char>) -> Seq<Seq<char>> {
    media_refs_from(s, 0)
}

/// A marker lies within the text, at or after where the search began.
pub proof fn lemma_next_marker(s: Seq<char>, from: int)
    requires
        0 <= from,
    ensures
        next_marker(s, from) matches Some((start, end)) ==> from <= start && start
            + MEDIA_REF_PREFIX@.len() <= end < s.len(),
{
    text::lemma_find_from(s, MEDIA_REF_PREFIX@, from);
    if let Some(start) = text::find_from(s, MEDIA_REF_PREFIX@, from) {
        text::lemma_find_from(s, seq![']'], start + MEDIA_REF_PREFIX@.len());
    }
}

fn find_marker(s: &[char], from: usize) -> (r: Option<(usize, usize)>)
    ensures
        match r {
            Some((start, end)) => next_marker(s@, from as int) == Some((start as int, end as int)),
            None => next_marker(s@, from as int) is None,
        },
        r matches Some((start, end)) ==> from <= start && start + MEDIA_REF_PREFIX@.len() <= end
            < s@.len(),
{
    let prefix = text::chars_of(MEDIA_REF_PREFIX);
    let close = vec![']'];
    assert(close@ =~= seq![']']);
    let n: usize = s.len();
    match text::find(s, prefix.as_slice(), from) {
        None => None,
        Some(start) => match text::find(s, close.as_slice(), start + prefix.len()) {
            None => None,
            Some(end) => Some((start, end)),
        },
    }
}

/// Extract every marker payload from a text, in order of appearance.
pub fn extract_media_refs(content: &str) -> (refs: Vec<String>)
    ensures
        text::texts(refs@) == media_refs(content@),
{
    let chars = text::chars_of(content);
    let prefix_len: usize = text::chars_of(MEDIA_REF_PREFIX).len();
    let total: usize = chars.len();
    let mut refs: Vec<String> = Vec::new();
    let mut cursor: usize = 0;
    assert(text::texts(refs@) =~= Seq::empty());
    loop
        invariant
            chars@ == content@,
            total == chars@.len(),
            prefix_len == MEDIA_REF_PREFIX@.len(),
            cursor <= chars@.len(),
            media_refs(chars@) =~= text::texts(refs@) + media_refs_from(chars@, cursor as int),
        decreases chars@.len() - cursor,
    {
        match find_marker(chars.as_slice(), cursor) {
            Some((start, end)) => {
                let payload = text::string_of(chars.as_slice(), start + prefix_len, end);
                let ghost before = refs@;
                refs.push(payload);
                assert(text::texts(refs@) =~= text::texts(before).push(payload@));
                cursor = end + 1;
            },
            None => {
                return refs;
            },
        }
    }
}

/// The part of `s` from `from` on, with its markers replaced by the replies in
/// order; a marker whose reply is `None` stays as it is.
pub open spec fn with_replies(s: Seq<char>, from: int, replies: Seq<Option<Seq<char>>>) -> Seq<char>
    decreases s.len() + 1 - from,
{
    if from < 0 {
        s
    } else {
        match next_marker(s, from) {
            None => s.skip(from),
            Some((start, end)) => {
                proof {
                    lemma_next_marker(s, from);
                }
                s.subrange(from, start) + (match replies[0] {
                    Some(reply) => reply,
                    None => s.subrange(start, end + 1),
                }) + with_replies(s, end + 1, replies.skip(1))
            },
        }
    }
}

/// The text of a reply that may be missing.
pub open spec fn reply_text(reply: Option<String>) -> Option<Seq<char>> {
    match reply {
        Some(reply) => Some(reply@),
        None => None,
    }
}

/// The texts of a list of replies.
pub open spec fn reply_texts(replies: Seq<Option<String>>) -> Seq<Option<Seq<char>>> {
    replies.map_values(|r: Option<String>| reply_text(r))
}

/// `reply` is what `render` may give for `payload`.
pub open spec fn rendered_by<F: FnMut(&str) -> Option<String>>(
    render: F,
    payload: Seq<char>,
    reply: Option<String>,
) -> bool {
    exists|p: &str| p@ == payload && #[trigger] call_ensures(render, (p,), reply)
}

/// A replacement under way: the text, how far it has been dealt with, and what
/// stands in place of that part.
#[derive(Debug)]
pub struct Replacement {
    chars: Vec<char>,
    cursor: usize,
    out: String,
}

/// A `Replacement` with its parts as sequences.
#[verifier::ext_equal]
pub struct ReplacementView {
    pub text: Seq<char>,
    pub from: int,
    pub out: Seq<char>,
}

impl View for Replacement {
    type V = ReplacementView;

    closed spec fn view(&self) -> ReplacementView {
        ReplacementView { text: self.chars@, from: self.cursor as int, out: self.out@ }
    }
}

impl Replacement {
    #[verifier::type_invariant]
    spec fn well_formed(self) -> bool {
        self.cursor <= self.chars@.len()
    }
}

/// A marker whose payload is handed out, for one reply.
#[derive(Debug)]
pub struct AskedMarker {
    run: Replacement,
    start: usize,
    end: usize,
    payload: String,
}

/// An `AskedMarker` with its parts as sequences.
#[verifier::ext_equal]
pub struct AskedView {
    pub run: ReplacementView,
    pub start: int,
    pub end: int,
    pub payload: Seq<char>,
}

impl View for AskedMarker {
    type V = AskedView;

    closed spec fn view(&self) -> AskedView {
        AskedView {
            run: self.run@,
            start: self.start as int,
            end: self.end as int,
            payload: self.payload@,
        }
    }
}

impl AskedMarker {
    #[verifier::type_invariant]
    spec fn well_formed(self) -> bool {
        self.run@.from <= self.start <= self.end < self.run@.text.len()
    }
}

/// What a replacement does next: ask for the reply to one payload, or end.
#[derive(Debug)]
pub enum ReplaceStep {
    Ask(AskedMarker),
    Done(String),
}

/// A replacement that has dealt with the marker from `start` to `end` by `reply`.
pub open spec fn answered(
    run: ReplacementView,
    start: int,
    end: int,
    reply: Option<Seq<char>>,
) -> ReplacementView {
    ReplacementView {
        text: run.text,
        from: end + 1,
        out: run.out + run.text.subrange(run.from, start) + (match reply {
            Some(reply) => reply,
            None => run.text.subrange(start, end + 1),
        }),
    }
}

impl Replacement {
    /// Starts to replace the markers of a text.
    pub fn new(content: &str) -> (r: Self)
        ensures
            r@ == (ReplacementView { text: content@, from: 0, out: Seq::empty() }),
    {
        let r = Replacement { chars: text::chars_of(content), cursor: 0, out: String::new() };
        assert(r@ =~= ReplacementView { text: content@, from: 0, out: Seq::empty() });
        r
    }

    /// Hands out the payload of the next marker, or the text where there is none.
    pub fn next(self) -> (step: ReplaceStep)
        ensures
            0 <= self@.from <= self@.text.len(),
            match step {
                ReplaceStep::Ask(asked) => {
                    &&& asked@.run == self@
                    &&& next_marker(self@.text, self@.from) == Some((asked@.start, asked@.end))
                    &&& asked@.payload == payload_at(self@.text, asked@.start, asked@.end)
                },
                ReplaceStep::Done(out) => {
                    &&& next_marker(self@.text, self@.from) is None
                    &&& out@ == self@.out + self@.text.skip(self@.from)
                },
            },
    {
        proof {
            use_type_invariant(&self);
        }
        match find_marker(self.chars.as_slice(), self.cursor) {
            Some((start, end)) => {
                let prefix_len: usize = text::chars_of(MEDIA_REF_PREFIX).len();
                let payload = text::string_of(self.chars.as_slice(), start + prefix_len, end);
                ReplaceStep::Ask(AskedMarker { run: self, start, end, payload })
            },
            None => {
                let Replacement { chars, cursor, out } = self;
                let mut out = out;
                let total: usize = chars.len();
                let rest = text::string_of(chars.as_slice(), cursor, total);
                assert(rest@ =~= chars@.skip(cursor as int));
                out.append(rest.as_str());
                ReplaceStep::Done(out)
            },
        }
    }
}

impl AskedMarker {
    /// The payload that a reply is asked for.
    pub fn payload(&self) -> (payload: &str)
        ensures
            payload@ == self@.payload,
    {
        self.payload.as_str()
    }

    /// Takes the reply; without one the marker stays as it is.
    pub fn answer(self, reply: Option<String>) -> (run: Replacement)
        ensures
            run@ == answered(self@.run, self@.start, self@.end, reply_text(reply)),
    {
        proof {
            use_type_invariant(&self);
        }
        let AskedMarker { run, start, end, payload: _ } = self;
        let Replacement { chars, cursor, out } = run;
        let mut out = out;
        let total: usize = chars.len();
        assert(end < total);
        let plain = text::string_of(chars.as_slice(), cursor, start);
        out.append(plain.as_str());
        match reply {
            Some(reply) => {
                out.append(reply.as_str());
            },
            None => {
                let verbatim = text::string_of(chars.as_slice(), start, end + 1);
                out.append(verbatim.as_str());
            },
        }
        Replacement { chars, cursor: end + 1, out }
    }
}

/// The payloads that a replacement hands out, given the replies to them, and the
/// text that it ends with.
pub open spec fn replaced(run: ReplacementView, replies: Seq<Option<Seq<char>>>) -> (
    Seq<Seq<char>>,
    Seq<char>,
)
    decreases run.text.len() + 1 - run.from,
{
    if run.from < 0 {
        (Seq::empty(), run.out)
    } else {
        match next_marker(run.text, run.from) {
            None => (Seq::empty(), run.out + run.text.skip(run.from)),
            Some((start, end)) => {
                proof {
                    lemma_next_marker(run.text, run.from);
                }
                let (asked, out) = replaced(
                    answered(run, start, end, replies[0]),
                    replies.skip(1),
                );
                (seq![payload_at(run.text, start, end)] + asked, out)
            },
        }
    }
}

/// Replace every marker in a text using the supplied renderer. A payload the
/// renderer declines (`None`) is left in place verbatim.
pub fn replace_media_refs<F: FnMut(&str) -> Option<String>>(content: &str, mut render: F) -> (out:
    String)
    requires
        forall|p: &str| media_refs(content@).contains(p@) ==> call_requires(render, (p,)),
    ensures
        exists|replies: Seq<Option<String>>|
            {
                &&& replies.len() == media_refs(content@).len()
                &&& forall|i: int|
                    0 <= i < replies.len() ==> rendered_by(
                        render,
                        media_refs(content@)[i],
                        #[trigger] replies[i],
                    )
                &&& out@ == with_replies(content@, 0, #[trigger] reply_texts(replies))
            },
{
    let mut run = Replacement::new(content);
    let ghost mut replies: Seq<Option<String>> = Seq::empty();
    let ghost refs = media_refs(content@);
    let ghost initial = render;
    proof {
        assert forall|rest: Seq<Option<Seq<char>>>|
            with_replies(content@, 0, #[trigger] (reply_texts(replies) + rest)) == run@.out
                + with_replies(content@, 0, rest) by {
            assert(reply_texts(replies) + rest =~= rest);
            assert(run@.out + with_replies(content@, 0, rest) =~= with_replies(content@, 0, rest));
        }
        assert(refs.skip(0) =~= refs);
    }
    #[verifier::loop_isolation(false)]
    loop
        invariant
            run@.text == content@,
            0 <= run@.from <= content@.len(),
            refs == media_refs(content@),
            replies.len() <= refs.len(),
            refs.skip(replies.len() as int) == media_refs_from(content@, run@.from),
            forall|p: &str| refs.contains(p@) ==> call_requires(initial, (p,)),
            render == initial,
            forall|i: int|
                0 <= i < replies.len() ==> rendered_by(initial, refs[i], #[trigger] replies[i]),
            forall|rest: Seq<Option<Seq<char>>>|
                with_replies(content@, 0, #[trigger] (reply_texts(replies) + rest)) == run@.out
                    + with_replies(content@, run@.from, rest),
        decreases content@.len() - run@.from,
    {
        let ghost before = run@;
        match run.next() {
            ReplaceStep::Ask(asked) => {
                let ghost start = asked@.start;
                let ghost end = asked@.end;
                let ghost old_replies = replies;
                let ghost tail = media_refs_from(content@, before.from);
                proof {
                    lemma_next_marker(content@, before.from);
                    assert(tail.len() == refs.len() - replies.len());
                    assert(tail[0] == asked@.payload);
                    assert(refs[replies.len() as int] == asked@.payload);
                }
                let reply = render(asked.payload());
                proof {
                    replies = replies.push(reply);
                    assert(refs.skip(replies.len() as int) =~= tail.skip(1));
                    assert(tail.skip(1) =~= media_refs_from(content@, end + 1));
                }
                let ghost shown = reply_text(reply);
                run = asked.answer(reply);
                proof {
                    assert forall|rest: Seq<Option<Seq<char>>>|
                        with_replies(content@, 0, #[trigger] (reply_texts(replies) + rest))
                            == run@.out + with_replies(content@, end + 1, rest) by {
                        let more = seq![shown] + rest;
                        assert(reply_texts(replies) + rest =~= reply_texts(old_replies) + more);
                        assert(more.skip(1) =~= rest);
                        assert(more[0] == shown);
                        assert(before.out + with_replies(content@, before.from, more) =~= run@.out
                            + with_replies(content@, end + 1, rest));
                    }
                }
            },
            ReplaceStep::Done(out) => {
                proof {
                    let none = Seq::<Option<Seq<char>>>::empty();
                    assert(reply_texts(replies) + none =~= reply_texts(replies));
                    assert(refs.skip(replies.len() as int).len() == 0);
                }
                return out;
            },
        }
    }
}

// ---------------------------------------------------------------------------
// Descriptors
// ---------------------------------------------------------------------------
impl View for MediaRefSummary {
    type V = (Seq<char>, Seq<char>);

    /// The id and the kind.
    open spec fn view(&self) -> (Seq<char>, Seq<char>) {
        (self.id@, self.kind@)
    }
}

/// The view of a summary that may be missing.
pub open spec fn summary_view(r: Option<MediaRefSummary>) -> Option<(Seq<char>, Seq<char>)> {
    match r {
        Some(summary) => Some(summary@),
        None => None,
    }
}

/// The first eight bytes of a hash, where they are whole characters.
pub open spec fn short_id(hash: Seq<char>) -> Option<Seq<char>> {
    let bytes = encode_utf8(hash);
    if bytes.len() < 8 || !is_char_boundary(bytes, 8) {
        None
    } else {
        Some(decode_utf8(bytes.subrange(0, 8)))
    }
}

/// The id and the kind that a descriptor gives: the start of the text `es` and
/// the text `k`. Without either text, or with an `es` too short for an id, it
/// is no descriptor.
pub open spec fn descriptor_summary(doc: Seq<(Seq<char>, json::JsonFieldView)>) -> Option<
    (Seq<char>, Seq<char>),
> {
    match (json::text_member(doc, "k"@), json::text_member(doc, "es"@)) {
        (Some(kind), Some(hash)) => match short_id(hash) {
            Some(id) => Some((id, kind)),
            None => None,
        },
        _ => None,
    }
}

/// What a payload says about itself: the summary of the JSON object whose
/// base64 text it is, white space at its ends aside.
pub open spec fn media_ref_summary(payload: Seq<char>) -> Option<(Seq<char>, Seq<char>)> {
    match encoding::base64_bytes(text::trimmed(payload)) {
        None => None,
        Some(raw) => match json::json_members(raw) {
            None => None,
            Some(doc) => descriptor_summary(doc),
        },
    }
}

/// Identify the descriptor `doc`.
pub fn summarize_descriptor(doc: &JsonObject) -> (r: Option<MediaRefSummary>)
    ensures
        summary_view(r) == descriptor_summary(doc@),
{
    let kind = match doc.text("k") {
        Some(kind) => kind,
        None => {
            return None;
        },
    };
    let hash = match doc.text("es") {
        Some(hash) => hash.as_str(),
        None => {
            return None;
        },
    };
    if hash.as_bytes().len() < 8 || !hash.is_char_boundary(8) {
        return None;
    }
    let (id, _) = hash.split_at(8);
    proof {
        encode_utf8_decode_utf8(id@);
    }
    Some(MediaRefSummary { id: id.to_owned(), kind: kind.clone() })
}

/// Decode a payload far enough to identify it. Returns `None` on anything that
/// is not a well-formed descriptor, lookalikes typed by a user among it.
pub fn summarize_media_ref(payload: &str) -> (r: Option<MediaRefSummary>)
    ensures
        summary_view(r) == media_ref_summary(payload@),
{
    let trimmed = text::trim(payload);
    let raw = match encoding::decode_base64(trimmed.as_str()) {
        Some(raw) => raw,
        None => {
            return None;
        },
    };
    match json::parse_json(raw.as_slice()) {
        Some(doc) => summarize_descriptor(&doc),
        None => None,
    }
}

// ---------------------------------------------------------------------------
// Laws
// ---------------------------------------------------------------------------
proof fn lemma_find_from_shift(s: Seq<char>, pat: Seq<char>, k: int, from: int)
    requires
        0 <= k <= s.len(),
        0 <= from,
    ensures
        text::find_from(s, pat, k + from) == match text::find_from(s.skip(k), pat, from) {
            Some(i) => Some(k + i),
            None => None,
        },
    decreases s.len() + 1 - k - from,
{
    if k + from + pat.len() <= s.len() {
        assert(s.skip(k).subrange(from, from + pat.len()) =~= s.subrange(
            k + from,
            k + from + pat.len(),
        ));
        lemma_find_from_shift(s, pat, k, from + 1);
    }
}

proof fn lemma_next_marker_shift(s: Seq<char>, k: int, from: int)
    requires
        0 <= k <= s.len(),
        0 <= from,
    ensures
        next_marker(s, k + from) == match next_marker(s.skip(k), from) {
            Some((start, end)) => Some((k + start, k + end)),
            None => None,
        },
{
    let t = s.skip(k);
    lemma_find_from_shift(s, MEDIA_REF_PREFIX@, k, from);
    text::lemma_find_from(t, MEDIA_REF_PREFIX@, from);
    if let Some(start) = text::find_from(t, MEDIA_REF_PREFIX@, from) {
        lemma_find_from_shift(s, seq![']'], k, start + MEDIA_REF_PREFIX@.len());
    }
}

proof fn lemma_media_refs_shift(s: Seq<char>, k: int, from: int)
    requires
        0 <= k <= s.len(),
        0 <= from,
    ensures
        media_refs_from(s, k + from) == media_refs_from(s.skip(k), from),
    decreases s.len() + 1 - k - from,
{
    let t = s.skip(k);
    lemma_next_marker_shift(s, k, from);
    lemma_next_marker(t, from);
    if let Some((start, end)) = next_marker(t, from) {
        assert(payload_at(s, k + start, k + end) =~= payload_at(t, start, end));
        lemma_media_refs_shift(s, k, end + 1);
    }
}

/// A text in which the marker prefix does not occur holds no markers.
pub proof fn law_plain_text_has_no_refs(s: Seq<char>)
    requires
        forall|j: int| !text::matches_at(s, MEDIA_REF_PREFIX@, j),
    ensures
        media_refs(s) == Seq::<Seq<char>>::empty(),
{
    text::lemma_find_from(s, MEDIA_REF_PREFIX@, 0);
}

/// The first marker of a text stands where the text before it ends.
proof fn lemma_first_marker(before: Seq<char>, payload: Seq<char>, after: Seq<char>)
    requires
        forall|j: int| !text::matches_at(before, MEDIA_REF_PREFIX@, j),
        !payload.contains(']'),
    ensures
        next_marker(before + MEDIA_REF_PREFIX@ + payload + seq![']'] + after, 0) == Some(
            (
                before.len() as int,
                before.len() as int + MEDIA_REF_PREFIX@.len() + payload.len(),
            ),
        ),
{
    reveal_strlit("[WA-MEDIA:");
    let prefix = MEDIA_REF_PREFIX@;
    let s = before + prefix + payload + seq![']'] + after;
    let start = before.len() as int;
    let end = start + prefix.len() + payload.len();
    assert(s.subrange(start, start + prefix.len()) =~= prefix);
    assert forall|j: int| 0 <= j < start implies !text::matches_at(s, prefix, j) by {
        if text::matches_at(s, prefix, j) {
            let here = s.subrange(j, j + prefix.len());
            if j + prefix.len() <= before.len() {
                assert(before.subrange(j, j + prefix.len()) =~= here);
                assert(text::matches_at(before, prefix, j));
            } else {
                let k = start - j;
                assert(s[start] == prefix[0]);
                assert(here[k] == s[j + k]);
                assert(prefix[k] == '[');
                assert(prefix[k] != '[');
            }
        }
    }
    text::lemma_find_from_is(s, prefix, 0, start);
    assert(s.subrange(end, end + 1) =~= seq![']']);
    assert forall|j: int| start + prefix.len() <= j < end implies !text::matches_at(
        s,
        seq![']'],
        j,
    ) by {
        if text::matches_at(s, seq![']'], j) {
            let i = j - (start + prefix.len());
            assert(s.subrange(j, j + 1)[0] == s[j]);
            assert(payload[i] == s[j]);
            assert(payload.contains(']'));
        }
    }
    text::lemma_find_from_is(s, seq![']'], start + prefix.len(), end);
}

/// A marker is one opaque token: after a text without markers, a marker whose
/// payload holds no `]` gives that payload first, and the rest of the text
/// gives what it gives by itself.
pub proof fn law_marker_is_one_token(before: Seq<char>, payload: Seq<char>, after: Seq<char>)
    requires
        forall|j: int| !text::matches_at(before, MEDIA_REF_PREFIX@, j),
        !payload.contains(']'),
    ensures
        media_refs(before + MEDIA_REF_PREFIX@ + payload + seq![']'] + after) == seq![payload]
            + media_refs(after),
{
    let s = before + MEDIA_REF_PREFIX@ + payload + seq![']'] + after;
    let start = before.len() as int;
    let end = start + MEDIA_REF_PREFIX@.len() + payload.len();
    lemma_first_marker(before, payload, after);
    assert(payload_at(s, start, end) =~= payload);
    lemma_media_refs_shift(s, end + 1, 0);
    assert(s.skip(end + 1) =~= after);
}

/// A ticket reads back: the marker that carries the base64 text of a
/// descriptor is found as one payload, and that payload identifies itself as
/// the descriptor does.
pub proof fn law_ticket_reads_back(before: Seq<char>, raw: Seq<u8>, after: Seq<char>)
    requires
        forall|j: int| !text::matches_at(before, MEDIA_REF_PREFIX@, j),
    ensures
        media_refs(
            before + MEDIA_REF_PREFIX@ + encoding::base64_text(raw) + seq![']'] + after,
        ) == seq![encoding::base64_text(raw)] + media_refs(after),
        media_ref_summary(encoding::base64_text(raw)) == match json::json_members(raw) {
            Some(doc) => descriptor_summary(doc),
            None => None,
        },
{
    let payload = encoding::base64_text(raw);
    let f = text::is_white();
    encoding::law_base64_alphabet(raw);
    assert(!payload.contains(']')) by {
        if payload.contains(']') {
            let i = choose|i: int| 0 <= i < payload.len() && payload[i] == ']';
            assert(encoding::base64_char(payload[i]));
        }
    }
    law_marker_is_one_token(before, payload, after);
    if payload.len() > 0 {
        assert(encoding::base64_char(payload[0]));
        assert(encoding::base64_char(payload[payload.len() - 1]));
        assert(!f(payload[0]));
        assert(!f(payload.last()));
    }
    assert(text::trimmed(payload) == payload);
    encoding::law_base64_reads_back(raw);
}

/// Replacing with a renderer that declines every payload leaves the text as it
/// was, and so does replacing in a text without markers.
pub proof fn law_declined_markers_survive(s: Seq<char>, replies: Seq<Option<Seq<char>>>)
    requires
        replies.len() == media_refs(s).len(),
        forall|i: int| 0 <= i < replies.len() ==> #[trigger] replies[i] is None,
    ensures
        with_replies(s, 0, replies) == s,
{
    law_markers_given_back_change_nothing(s, replies);
}

/// Each payload is handed out once, in order of appearance, and its reply stands
/// in place of its marker: what a replacement asks for is what `media_refs` lists,
/// and what it ends with is the text with the replies put in.
pub proof fn law_each_payload_is_asked_once(
    run: ReplacementView,
    replies: Seq<Option<Seq<char>>>,
)
    requires
        0 <= run.from <= run.text.len(),
    ensures
        replaced(run, replies).0 == media_refs_from(run.text, run.from),
        replaced(run, replies).1 == run.out + with_replies(run.text, run.from, replies),
    decreases run.text.len() - run.from,
{
    lemma_next_marker(run.text, run.from);
    if let Some((start, end)) = next_marker(run.text, run.from) {
        let next = answered(run, start, end, replies[0]);
        law_each_payload_is_asked_once(next, replies.skip(1));
        assert(replaced(run, replies).1 =~= run.out + with_replies(run.text, run.from, replies));
    }
}

/// A marker around a payload.
pub open spec fn marker(payload: Seq<char>) -> Seq<char> {
    MEDIA_REF_PREFIX@ + payload + seq![']']
}

proof fn lemma_echoed(s: Seq<char>, from: int, replies: Seq<Option<Seq<char>>>)
    requires
        0 <= from <= s.len(),
        replies.len() == media_refs_from(s, from).len(),
        forall|i: int|
            0 <= i < replies.len() ==> (#[trigger] replies[i] is None || replies[i] == Some(
                marker(media_refs_from(s, from)[i]),
            )),
    ensures
        with_replies(s, from, replies) == s.skip(from),
    decreases s.len() - from,
{
    lemma_next_marker(s, from);
    if let Some((start, end)) = next_marker(s, from) {
        let refs = media_refs_from(s, from);
        let rest = media_refs_from(s, end + 1);
        let prefix = MEDIA_REF_PREFIX@;
        assert(refs[0] == payload_at(s, start, end));
        assert(refs.skip(1) =~= rest);
        text::lemma_find_from(s, prefix, from);
        text::lemma_find_from(s, seq![']'], start + prefix.len());
        assert(s.subrange(end, end + 1)[0] == ']');
        assert(s.subrange(start, end + 1) =~= marker(payload_at(s, start, end))) by {
            assert(s.subrange(start, start + prefix.len()) == prefix);
            assert(s.subrange(start, end + 1) =~= s.subrange(start, start + prefix.len())
                + payload_at(s, start, end) + s.subrange(end, end + 1));
        }
        assert(replies[0] is None || replies[0] == Some(marker(refs[0])));
        assert forall|i: int| 0 <= i < replies.skip(1).len() implies (#[trigger] replies.skip(
            1,
        )[i] is None || replies.skip(1)[i] == Some(marker(rest[i]))) by {
            assert(replies[i + 1] is None || replies[i + 1] == Some(marker(refs[i + 1])));
            assert(rest[i] == refs[i + 1]);
        }
        lemma_echoed(s, end + 1, replies.skip(1));
        assert(s.skip(from) =~= s.subrange(from, start) + s.subrange(start, end + 1) + s.skip(
            end + 1,
        ));
    }
}

/// A renderer that declines a payload or gives its marker back changes nothing,
/// whichever it does for each of them.
pub proof fn law_markers_given_back_change_nothing(s: Seq<char>, replies: Seq<Option<Seq<char>>>)
    requires
        replies.len() == media_refs(s).len(),
        forall|i: int|
            0 <= i < replies.len() ==> (#[trigger] replies[i] is None || replies[i] == Some(
                marker(media_refs(s)[i]),
            )),
    ensures
        with_replies(s, 0, replies) == s,
{
    lemma_echoed(s, 0, replies);
    assert(s.skip(0) =~= s);
}

proof fn lemma_with_replies_shift(
    s: Seq<char>,
    k: int,
    from: int,
    replies: Seq<Option<Seq<char>>>,
)
    requires
        0 <= k <= s.len(),
        0 <= from <= s.len() - k,
    ensures
        with_replies(s, k + from, replies) == with_replies(s.skip(k), from, replies),
    decreases s.len() - k - from,
{
    let t = s.skip(k);
    lemma_next_marker_shift(s, k, from);
    lemma_next_marker(t, from);
    if let Some((start, end)) = next_marker(t, from) {
        assert(s.subrange(k + from, k + start) =~= t.subrange(from, start));
        assert(s.subrange(k + start, k + end + 1) =~= t.subrange(start, end + 1));
        lemma_with_replies_shift(s, k, end + 1, replies.skip(1));
    } else {
        assert(s.skip(k + from) =~= t.skip(from));
    }
}

/// Markers are replaced one by one: after a text without markers, the first reply
/// stands in place of the first marker, or the marker stays where there is none,
/// and the rest of the text gives what it gives by itself with the other replies.
pub proof fn law_markers_are_replaced_one_by_one(
    before: Seq<char>,
    payload: Seq<char>,
    after: Seq<char>,
    reply: Option<Seq<char>>,
    rest: Seq<Option<Seq<char>>>,
)
    requires
        forall|j: int| !text::matches_at(before, MEDIA_REF_PREFIX@, j),
        !payload.contains(']'),
    ensures
        with_replies(before + marker(payload) + after, 0, seq![reply] + rest) == before + (
        match reply {
            Some(reply) => reply,
            None => marker(payload),
        }) + with_replies(after, 0, rest),
{
    let s = before + marker(payload) + after;
    let start = before.len() as int;
    let end = start + MEDIA_REF_PREFIX@.len() + payload.len();
    lemma_first_marker(before, payload, after);
    assert(s =~= before + MEDIA_REF_PREFIX@ + payload + seq![']'] + after);
    assert((seq![reply] + rest).skip(1) =~= rest);
    assert(s.subrange(0, start) =~= before);
    assert(s.subrange(start, end + 1) =~= marker(payload));
    lemma_with_replies_shift(s, end + 1, 0, rest);
    assert(s.skip(end + 1) =~= after);
}

/// An id is eight bytes long, and it is what the hash begins with.
pub proof fn law_id_is_start_of_hash(hash: Seq<char>)
    ensures
        short_id(hash) matches Some(id) ==> encode_utf8(id).len() == 8 && encode_utf8(
            id,
        ).is_prefix_of(encode_utf8(hash)),
{
    let bytes = encode_utf8(hash);
    if short_id(hash) is Some {
        encode_utf8_valid_utf8(hash);
        valid_utf8_split(bytes, 8);
        decode_utf8_encode_utf8(bytes.subrange(0, 8));
    }
}

/// A marker that is never closed is none: behind a text without markers, nothing
/// after the prefix is found where no `]` follows.
pub proof fn law_unclosed_marker_is_none(before: Seq<char>, after: Seq<char>)
    requires
        forall|j: int| !text::matches_at(before, MEDIA_REF_PREFIX@, j),
        !after.contains(']'),
    ensures
        media_refs(before + "[WA-MEDIA:"@ + after) == Seq::<Seq<char>>::empty(),
{
    let s = before + MEDIA_REF_PREFIX@ + after;
    reveal_strlit("[WA-MEDIA:");
    text::lemma_find_from(s, MEDIA_REF_PREFIX@, 0);
    if let Some(start) = text::find_from(s, MEDIA_REF_PREFIX@, 0) {
        let from = start + MEDIA_REF_PREFIX@.len();
        let prefix = MEDIA_REF_PREFIX@;
        let n = before.len() as int;
        if start < n {
            let here = s.subrange(start, start + prefix.len());
            if start + prefix.len() <= n {
                assert(before.subrange(start, start + prefix.len()) =~= here);
                assert(text::matches_at(before, prefix, start));
            } else {
                assert(s[n] == prefix[0]);
                assert(here[n - start] == s[n]);
                assert(prefix[n - start] != '[');
            }
        }
        text::lemma_find_from(s, seq![']'], from);
        if let Some(end) = text::find_from(s, seq![']'], from) {
            assert(s.subrange(end, end + 1)[0] == ']');
            assert(s[end] == after[end - n - prefix.len()]);
        }
    }
}

/// A marker that is found is the prefix, a payload that holds no `]`, and a `]`;
/// and no prefix stands between where the search began and the marker. Where none is
/// found, no prefix is followed by a `]`.
pub proof fn law_marker_is_prefix_payload_and_bracket(s: Seq<char>, from: int)
    requires
        0 <= from <= s.len(),
    ensures
        next_marker(s, from) matches Some((start, end)) ==> {
            &&& from <= start <= end < s.len()
            &&& s.subrange(start, end + 1) == "[WA-MEDIA:"@ + payload_at(s, start, end) + seq![']']
            &&& !payload_at(s, start, end).contains(']')
            &&& forall|j: int| from <= j < start ==> !text::matches_at(s, "[WA-MEDIA:"@, j)
        },
        next_marker(s, from) is None ==> forall|i: int, j: int|
            from <= i && i + 10 <= j < s.len() && #[trigger] text::matches_at(
                s,
                "[WA-MEDIA:"@,
                i,
            ) ==> #[trigger] s[j] != ']',
{
    reveal_strlit("[WA-MEDIA:");
    let prefix = MEDIA_REF_PREFIX@;
    lemma_next_marker(s, from);
    text::lemma_find_from(s, prefix, from);
    if let Some(start) = text::find_from(s, prefix, from) {
        text::lemma_find_from(s, seq![']'], start + prefix.len());
        if let Some((_, end)) = next_marker(s, from) {
            let payload = payload_at(s, start, end);
            assert(s.subrange(end, end + 1)[0] == ']');
            assert(s.subrange(start, start + prefix.len()) == prefix);
            assert(s.subrange(start, end + 1) =~= s.subrange(start, start + prefix.len()) + payload
                + seq![']']);
            if payload.contains(']') {
                let k = choose|k: int| 0 <= k < payload.len() && payload[k] == ']';
                let at = start + prefix.len() + k;
                assert(s.subrange(at, at + 1) =~= seq![']']);
                assert(text::matches_at(s, seq![']'], at));
            }
        } else {
            assert forall|i: int, j: int|
                from <= i && i + 10 <= j < s.len() && #[trigger] text::matches_at(
                    s,
                    "[WA-MEDIA:"@,
                    i,
                ) implies #[trigger] s[j] != ']' by {
                assert(start <= i);
                if s[j] == ']' {
                    assert(s.subrange(j, j + 1) =~= seq![']']);
                    assert(text::matches_at(s, seq![']'], j));
                }
            }
        }
    }
}

/// What is found, and what replies make of it, from a position on is what the text
/// from there gives by itself.
pub proof fn law_only_what_follows_counts(s: Seq<char>, from: int, replies: Seq<Option<Seq<char>>>)
    requires
        0 <= from <= s.len(),
    ensures
        media_refs_from(s, from) == media_refs(s.skip(from)),
        with_replies(s, from, replies) == with_replies(s.skip(from), 0, replies),
{
    lemma_media_refs_shift(s, from, 0);
    lemma_with_replies_shift(s, from, 0, replies);
}

/// Declining a marker loses nothing: what is done and what is left are the same
/// text as before. A reply takes the place of the marker and of nothing else.
pub proof fn law_reply_takes_the_place_of_the_marker(
    run: ReplacementView,
    start: int,
    end: int,
    reply: Seq<char>,
)
    requires
        0 <= run.from <= start <= end < run.text.len(),
    ensures
        ({
            let declined = answered(run, start, end, None);
            let replied = answered(run, start, end, Some(reply));
            &&& declined.text == run.text
            &&& replied.text == run.text
            &&& declined.from == end + 1
            &&& replied.from == end + 1
            &&& declined.out + run.text.skip(declined.from) == run.out + run.text.skip(run.from)
            &&& replied.out == run.out + run.text.subrange(run.from, start) + reply
        }),
{
    let declined = answered(run, start, end, None);
    assert(declined.out + run.text.skip(declined.from) =~= run.out + run.text.skip(run.from));
}

/// A reply that counts is one that the renderer gave for that payload.
pub proof fn law_replies_are_the_renderers<F: FnMut(&str) -> Option<String>>(
    render: F,
    payload: Seq<char>,
    reply: Option<String>,
)
    ensures
        rendered_by(render, payload, reply) ==> exists|p: &str|
            p@ == payload && #[trigger] call_ensures(render, (p,), reply),
{
}

/// A view shows each reply, one for one, and each part of a summary.
pub proof fn law_views_show_replies_and_summaries(
    replies: Seq<Option<String>>,
    summary: MediaRefSummary,
)
    ensures
        reply_texts(replies).len() == replies.len(),
        forall|i: int|
            0 <= i < replies.len() ==> (#[trigger] reply_texts(replies)[i] matches Some(s) <==> (
            replies[i] matches Some(r) && r@ == reply_texts(replies)[i]->Some_0)),
        forall|i: int|
            0 <= i < replies.len() && replies[i] is None ==> #[trigger] reply_texts(
                replies,
            )[i] is None,
        summary_view(Some(summary)) == Some((summary.id@, summary.kind@)),
        summary_view(None) is None,
{
}

proof fn lemma_encode_split(a: Seq<char>, b: Seq<char>)
    ensures
        encode_utf8(a + b) == encode_utf8(a) + encode_utf8(b),
        is_char_boundary(encode_utf8(a + b), encode_utf8(a).len() as int),
    decreases a.len(),
{
    let whole = a + b;
    encode_utf8_valid_utf8(whole);
    if a.len() == 0 {
        assert(whole =~= b);
        assert(encode_utf8(a) + encode_utf8(b) =~= encode_utf8(b));
        is_char_boundary_start_end_of_seq(encode_utf8(whole));
    } else {
        let rest = a.drop_first();
        assert(whole.drop_first() =~= rest + b);
        lemma_encode_split(rest, b);
        assert(encode_utf8(whole) =~= encode_utf8(a) + encode_utf8(b));
        encode_utf8_first_scalar(whole);
        let bytes = encode_utf8(whole);
        assert(pop_first_scalar(bytes) =~= encode_utf8(rest + b));
    }
}

/// An id is the start of the hash that takes eight bytes; there is one exactly
/// where whole characters of the hash take just that.
pub proof fn law_id_is_the_start_that_takes_eight_bytes(hash: Seq<char>, id: Seq<char>)
    ensures
        short_id(hash) == Some(id) <==> id.is_prefix_of(hash) && encode_utf8(id).len() == 8,
{
    let bytes = encode_utf8(hash);
    encode_utf8_valid_utf8(hash);
    if id.is_prefix_of(hash) && encode_utf8(id).len() == 8 {
        let rest = hash.skip(id.len() as int);
        assert(hash =~= id + rest);
        lemma_encode_split(id, rest);
        assert(bytes.subrange(0, 8) =~= encode_utf8(id));
        encode_utf8_decode_utf8(id);
    }
    if short_id(hash) == Some(id) {
        law_id_is_start_of_hash(hash);
        valid_utf8_split(bytes, 8);
        decode_utf8_split(bytes, 8);
        encode_utf8_decode_utf8(hash);
        let rest = decode_utf8(bytes.subrange(8, bytes.len() as int));
        assert(hash =~= id + rest);
        assert(hash.take(id.len() as int) =~= id);
    }
}

/// A descriptor identifies itself exactly where it has a text for its kind and a
/// text for its hash that is long enough: by the start of the one and the whole of
/// the other.
pub proof fn law_descriptor_gives_id_and_kind(
    doc: Seq<(Seq<char>, json::JsonFieldView)>,
    id: Seq<char>,
    kind: Seq<char>,
)
    ensures
        descriptor_summary(doc) == Some((id, kind)) <==> {
            &&& json::member(doc, "k"@) == Some(json::JsonFieldView::Text(kind))
            &&& json::member(doc, "es"@) matches Some(json::JsonFieldView::Text(hash))
            &&& id.is_prefix_of(hash)
            &&& encode_utf8(id).len() == 8
        },
{
    if let Some(json::JsonFieldView::Text(hash)) = json::member(doc, "es"@) {
        law_id_is_the_start_that_takes_eight_bytes(hash, id);
    }
}

/// A payload identifies itself as the descriptor does whose bytes it spells, with
/// or without white space around it; and a payload that spells no bytes does not.
pub proof fn law_payload_is_its_descriptor(before: Seq<char>, raw: Seq<u8>, after: Seq<char>)
    requires
        forall|j: int| 0 <= j < before.len() ==> text::white_space(#[trigger] before[j]),
        forall|j: int| 0 <= j < after.len() ==> text::white_space(#[trigger] after[j]),
    ensures
        media_ref_summary(before + encoding::base64_text(raw) + after) == (match json::json_members(
            raw,
        ) {
            Some(doc) => descriptor_summary(doc),
            None => None,
        }),
{
    let spelled = encoding::base64_text(raw);
    encoding::law_base64_alphabet(raw);
    if spelled.len() > 0 {
        assert(encoding::base64_char(spelled[0]));
        assert(encoding::base64_char(spelled[spelled.len() - 1]));
    }
    text::law_padding_is_trimmed(before, spelled, after);
    encoding::law_base64_reads_back(raw);
}

/// A payload that identifies itself spells the bytes of a descriptor, white space
/// aside.
pub proof fn law_nothing_else_identifies_itself(payload: Seq<char>)
    requires
        media_ref_summary(payload) is Some,
    ensures
        exists|raw: Seq<u8>|
            text::trimmed(payload) == encoding::base64_text(raw) && (#[trigger] json::json_members(
                raw,
            ) matches Some(doc) && descriptor_summary(doc) == media_ref_summary(payload)),
{
    let raw = encoding::base64_bytes(text::trimmed(payload))->Some_0;
    encoding::law_base64_bytes(text::trimmed(payload), raw);
    assert(json::json_members(raw) is Some);
}

} // verus!

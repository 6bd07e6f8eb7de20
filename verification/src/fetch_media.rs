//! Redeem media claim tickets from the current chat's history.
//!
//! Channels that skip media downloads leave a `[WA-MEDIA:...]` descriptor in
//! the history row. The tool finds those descriptors in the persisted session,
//! picks one by short id or recency, and asks the owning channel to download
//! and render it. Loading the session and asking the channel are left to the
//! caller: `begin` says which session and which channel, `select` which
//! tickets, and `report` puts the replies together.

use vstd::prelude::*;

use crate::json;
use crate::json::{JsonField, JsonObject};
use crate::media_ref;
use crate::media_ref::{extract_media_refs, summarize_media_ref, MediaRefSummary};
use crate::text;

verus! {

/// How far back in the persisted session the marker scan reaches. Tickets older
/// than this have scrolled out of the conversation anyway.
pub const SCAN_TAIL_ROWS: usize = 80;

/// What the tool is for, as the model reads it.
pub const TOOL_DESCRIPTION: &'static str =
    "Retrieve media from this conversation's recent history that was not downloaded at receive time (voice notes, images from group messages). History shows such items as '[undownloaded audio — id XXXXXXXX ...]'. Pass that id, or omit it to redeem the most recent item(s). Returns a transcription for audio and the image itself for images.";

// ---------------------------------------------------------------------------
// Selection
// ---------------------------------------------------------------------------
/// A payload found in the history, with what it says about itself.
pub struct Ticket {
    pub payload: String,
    pub summary: Option<MediaRefSummary>,
}

/// A payload and the id and kind that it gives.
pub type TicketView = (Seq<char>, Option<(Seq<char>, Seq<char>)>);

impl View for Ticket {
    type V = TicketView;

    open spec fn view(&self) -> TicketView {
        (self.payload@, media_ref::summary_view(self.summary))
    }
}

/// The views of a list of tickets.
pub open spec fn ticket_views(tickets: Seq<Ticket>) -> Seq<TicketView> {
    tickets.map_values(|t: Ticket| t@)
}

/// The payloads in the rows, in order of appearance.
pub open spec fn history_refs(rows: Seq<Seq<char>>) -> Seq<Seq<char>>
    decreases rows.len(),
{
    if rows.len() == 0 {
        Seq::empty()
    } else {
        history_refs(rows.drop_last()) + media_ref::media_refs(rows.last())
    }
}

/// The tickets in the rows, in order of appearance.
pub open spec fn history_tickets(rows: Seq<Seq<char>>) -> Seq<TicketView> {
    history_refs(rows).map_values(|p: Seq<char>| (p, media_ref::media_ref_summary(p)))
}

/// A ticket that identifies itself, with an id that begins with `id` where one
/// is asked for.
pub open spec fn wanted(
    ticket: TicketView,
    id: Option<Seq<char>>,
) -> bool {
    match ticket.1 {
        None => false,
        Some((short, _)) => match id {
            None => true,
            Some(id) => id.is_prefix_of(short),
        },
    }
}

/// The wanted tickets, newest first.
pub open spec fn newest_wanted(
    tickets: Seq<TicketView>,
    id: Option<Seq<char>>,
) -> Seq<TicketView> {
    tickets.reverse().filter(
        |t: TicketView| wanted(t, id),
    )
}

/// The payloads of the `last` newest wanted tickets, newest first; all of them
/// where there are no more.
pub open spec fn picked(
    tickets: Seq<TicketView>,
    id: Option<Seq<char>>,
    last: nat,
) -> Seq<Seq<char>> {
    let all = newest_wanted(tickets, id);
    (if last < all.len() { all.take(last as int) } else { all }).map_values(
        |t: TicketView| t.0,
    )
}

/// The view of an id that may be missing.
pub open spec fn id_view(id: Option<&str>) -> Option<Seq<char>> {
    match id {
        Some(id) => Some(id@),
        None => None,
    }
}

/// Collect the tickets in the rows, in order of appearance.
pub fn collect_tickets(rows: &[String]) -> (tickets: Vec<Ticket>)
    ensures
        ticket_views(tickets@) == history_tickets(text::texts(rows@)),
{
    let mut tickets: Vec<Ticket> = Vec::new();
    let mut r: usize = 0;
    assert(ticket_views(tickets@) =~= history_tickets(text::texts(rows@.take(0))));
    while r < rows.len()
        invariant
            r <= rows@.len(),
            ticket_views(tickets@) == history_tickets(text::texts(rows@.take(r as int))),
        decreases rows@.len() - r,
    {
        let refs = extract_media_refs(rows[r].as_str());
        let ghost done = ticket_views(tickets@);
        let mut k: usize = 0;
        assert(ticket_views(tickets@) =~= done + text::texts(refs@).take(0).map_values(
            |p: Seq<char>| (p, media_ref::media_ref_summary(p)),
        ));
        while k < refs.len()
            invariant
                k <= refs@.len(),
                ticket_views(tickets@) == done + text::texts(refs@).take(k as int).map_values(
                    |p: Seq<char>| (p, media_ref::media_ref_summary(p)),
                ),
            decreases refs@.len() - k,
        {
            let summary = summarize_media_ref(refs[k].as_str());
            let ticket = Ticket { payload: refs[k].clone(), summary };
            let ghost before = tickets@;
            tickets.push(ticket);
            k += 1;
            proof {
                assert(ticket_views(tickets@) =~= ticket_views(before).push(ticket@));
                assert(text::texts(refs@).take(k as int).map_values(
                    |p: Seq<char>| (p, media_ref::media_ref_summary(p)),
                ) =~= text::texts(refs@).take(k - 1).map_values(
                    |p: Seq<char>| (p, media_ref::media_ref_summary(p)),
                ).push(ticket@));
            }
        }
        r += 1;
        proof {
            let now = text::texts(rows@.take(r as int));
            assert(now.drop_last() =~= text::texts(rows@.take(r - 1)));
            assert(now.last() == rows@[r - 1]@);
            assert(text::texts(refs@).take(k as int) =~= text::texts(refs@));
            assert(history_tickets(now) =~= history_tickets(now.drop_last())
                + media_ref::media_refs(now.last()).map_values(
                |p: Seq<char>| (p, media_ref::media_ref_summary(p)),
            ));
        }
    }
    assert(rows@.take(r as int) =~= rows@);
    tickets
}

/// Pick from tickets in order of appearance the `last` newest wanted ones,
/// newest first.
pub fn pick_tickets(tickets: &[Ticket], id: Option<&str>, last: usize) -> (found: Vec<String>)
    ensures
        text::texts(found@) == picked(ticket_views(tickets@), id_view(id), last as nat),
{
    let ghost views = ticket_views(tickets@);
    let ghost rev = views.reverse();
    let ghost w = |t: TicketView| wanted(t, id_view(id));
    let ghost name = |t: TicketView| t.0;
    let mut found: Vec<String> = Vec::new();
    if last == 0 {
        assert(text::texts(found@) =~= picked(views, id_view(id), 0));
        return found;
    }
    let mut n: usize = tickets.len();
    assert(rev.take(0).filter(w) =~= Seq::empty()) by {
        reveal_with_fuel(Seq::filter, 1);
    }
    assert(text::texts(found@) =~= rev.take(0).filter(w).map_values(name));
    while n > 0
        invariant
            n <= tickets@.len(),
            views == ticket_views(tickets@),
            rev == views.reverse(),
            w == (|t: TicketView| wanted(t, id_view(id))),
            name == (|t: TicketView| t.0),
            text::texts(found@) == rev.take(tickets@.len() - n).filter(w).map_values(name),
            found@.len() < last,
        decreases n,
    {
        n -= 1;
        let ticket = &tickets[n];
        let ghost done = rev.take(tickets@.len() - n);
        proof {
            reveal_with_fuel(Seq::filter, 2);
            assert(done.drop_last() =~= rev.take(tickets@.len() - n - 1));
            assert(done.last() == ticket@);
        }
        let take: bool = match &ticket.summary {
            None => false,
            Some(summary) => match id {
                None => true,
                Some(id) => {
                    let short = text::chars_of(summary.id.as_str());
                    let start = text::chars_of(id);
                    text::starts_with(short.as_slice(), start.as_slice())
                },
            },
        };
        assert(take == w(ticket@));
        if take {
            let ghost before = found@;
            found.push(ticket.payload.clone());
            proof {
                assert(text::texts(found@) =~= text::texts(before).push(ticket@.0));
                assert(done.filter(w).map_values(name) =~= text::texts(found@));
            }
            if found.len() >= last {
                proof {
                    let all = rev.filter(w);
                    Seq::filter_distributes_over_add(
                        rev.take(tickets@.len() - n),
                        rev.skip(tickets@.len() - n),
                        w,
                    );
                    assert(rev =~= rev.take(tickets@.len() - n) + rev.skip(tickets@.len() - n));
                    let m = last as int;
                    assert(found@.len() == m);
                    assert(done.filter(w).len() == m) by {
                        assert(text::texts(found@).len() == m);
                    }
                    assert(all.take(m) =~= done.filter(w));
                    if all.len() == m {
                        assert(all.take(m) =~= all);
                    }
                }
                return found;
            }
        } else {
            assert(done.filter(w) =~= done.drop_last().filter(w));
        }
    }
    assert(rev.take(tickets@.len() as int) =~= rev);
    assert(text::texts(found@).len() == found@.len());
    found
}

/// Select descriptors from history rows (oldest-first input), newest first.
/// `id` narrows to tickets whose short id starts with it; otherwise the most
/// recent `last` tickets are taken.
pub fn select_media_refs(rows: &[String], id: Option<&str>, last: usize) -> (found: Vec<String>)
    ensures
        text::texts(found@) == picked(
            history_tickets(text::texts(rows@)),
            id_view(id),
            last as nat,
        ),
{
    let tickets = collect_tickets(rows);
    pick_tickets(tickets.as_slice(), id, last)
}

/// Every selected payload stands in the history, identifies itself and has the
/// id that was asked for; at most `last` are selected, and fewer only where there
/// are no more.
pub proof fn law_selection(rows: Seq<Seq<char>>, id: Option<Seq<char>>, last: nat)
    ensures
        picked(history_tickets(rows), id, last).len() <= last,
        picked(history_tickets(rows), id, last).len() < last ==> picked(
            history_tickets(rows),
            id,
            last,
        ).len() == newest_wanted(history_tickets(rows), id).len(),
        forall|i: int|
            0 <= i < picked(history_tickets(rows), id, last).len() ==> {
                let p = #[trigger] picked(history_tickets(rows), id, last)[i];
                &&& history_refs(rows).contains(p)
                &&& media_ref::media_ref_summary(p) matches Some((short, _))
                &&& id matches Some(id) ==> id.is_prefix_of(short)
            },
{
    let tickets = history_tickets(rows);
    let rev = tickets.reverse();
    let w = |t: TicketView| wanted(t, id);
    let all = newest_wanted(tickets, id);
    let out = picked(tickets, id, last);
    assert forall|i: int| 0 <= i < out.len() implies {
        let p = #[trigger] out[i];
        &&& history_refs(rows).contains(p)
        &&& media_ref::media_ref_summary(p) matches Some((short, _))
        &&& id matches Some(id) ==> id.is_prefix_of(short)
    } by {
        assert(out[i] == all[i].0);
        rev.lemma_filter_pred(w, i);
        assert(all.contains(all[i]));
        rev.lemma_filter_contains_rev(w, all[i]);
        let j = choose|j: int| 0 <= j < rev.len() && rev[j] == all[i];
        assert(tickets[tickets.len() - 1 - j] == all[i]);
        assert(history_refs(rows)[tickets.len() - 1 - j] == all[i].0);
    }
}

/// Newest first: the wanted tickets of the newer rows come before those of the
/// older rows.
pub proof fn law_newest_first(older: Seq<TicketView>, newer: Seq<TicketView>, id: Option<Seq<char>>)
    ensures
        newest_wanted(older + newer, id) == newest_wanted(newer, id) + newest_wanted(older, id),
{
    let w = |t: TicketView| wanted(t, id);
    assert((older + newer).reverse() =~= newer.reverse() + older.reverse());
    Seq::filter_distributes_over_add(newer.reverse(), older.reverse(), w);
}

/// The rows of a longer history give their tickets in the order of the rows.
pub proof fn law_history_in_order(older: Seq<Seq<char>>, newer: Seq<Seq<char>>)
    ensures
        history_tickets(older + newer) == history_tickets(older) + history_tickets(newer),
    decreases newer.len(),
{
    if newer.len() == 0 {
        assert(older + newer =~= older);
        assert(history_tickets(older) + history_tickets(newer) =~= history_tickets(older));
    } else {
        law_history_in_order(older, newer.drop_last());
        assert((older + newer).drop_last() =~= older + newer.drop_last());
        assert((older + newer).last() == newer.last());
        let f = |p: Seq<char>| (p, media_ref::media_ref_summary(p));
        let newest = media_ref::media_refs(newer.last()).map_values(f);
        assert(history_tickets(older + newer) =~= history_tickets(older + newer.drop_last())
            + newest);
        assert(history_tickets(newer) =~= history_tickets(newer.drop_last()) + newest);
    }
}

// ---------------------------------------------------------------------------
// The tool
// ---------------------------------------------------------------------------
/// What the tool hands back to the conversation.
#[derive(Debug)]
pub struct ToolResult {
    pub success: bool,
    pub output: String,
    pub error: Option<String>,
}

/// A `ToolResult` with its texts as sequences of characters.
pub struct ToolResultView {
    pub success: bool,
    pub output: Seq<char>,
    pub error: Option<Seq<char>>,
}

/// The view of a text that may be missing.
pub open spec fn text_view(s: Option<String>) -> Option<Seq<char>> {
    match s {
        Some(s) => Some(s@),
        None => None,
    }
}

impl View for ToolResult {
    type V = ToolResultView;

    open spec fn view(&self) -> ToolResultView {
        ToolResultView {
            success: self.success,
            output: self.output@,
            error: text_view(self.error),
        }
    }
}

/// A result that says no more than what went wrong.
pub open spec fn refusal(error: Seq<char>) -> ToolResultView {
    ToolResultView { success: false, output: Seq::empty(), error: Some(error) }
}

fn refuse(error: String) -> (r: ToolResult)
    ensures
        r@ == refusal(error@),
{
    ToolResult { success: false, output: String::new(), error: Some(error) }
}

/// What is to be fetched: the session to scan, the channel to fetch through,
/// the id that was asked for and how many tickets at most.
#[derive(Debug)]
pub struct FetchPlan {
    pub session_key: String,
    pub channel: String,
    pub id: Option<String>,
    pub last: usize,
}

/// A `FetchPlan` with its texts as sequences of characters.
pub struct FetchPlanView {
    pub session_key: Seq<char>,
    pub channel: Seq<char>,
    pub id: Option<Seq<char>>,
    pub last: nat,
}

impl View for FetchPlan {
    type V = FetchPlanView;

    open spec fn view(&self) -> FetchPlanView {
        FetchPlanView {
            session_key: self.session_key@,
            channel: self.channel@,
            id: text_view(self.id),
            last: self.last as nat,
        }
    }
}

/// The name of the channel that was asked for; that of the conversation's own
/// channel where the argument is left out. Empty where the argument is no text,
/// or is left out of a conversation without a channel.
pub open spec fn asked_channel(
    args: Seq<(Seq<char>, json::JsonFieldView)>,
    own_channel: Option<Seq<char>>,
) -> Seq<char> {
    match json::member(args, "channel"@) {
        Some(json::JsonFieldView::Text(name)) => text::trimmed(name),
        Some(_) => Seq::empty(),
        None => match own_channel {
            Some(name) => name,
            None => Seq::empty(),
        },
    }
}

/// A channel that is given stands, even where it names none: the conversation's
/// own channel makes no difference then.
pub proof fn law_given_channel_stands(
    args: Seq<(Seq<char>, json::JsonFieldView)>,
    own_channel: Option<Seq<char>>,
    other: Option<Seq<char>>,
)
    requires
        json::member(args, "channel"@) is Some,
    ensures
        asked_channel(args, own_channel) == asked_channel(args, other),
{
}

/// The id that was asked for, if one was.
pub open spec fn asked_id(args: Seq<(Seq<char>, json::JsonFieldView)>) -> Option<Seq<char>> {
    match json::text_member(args, "id"@) {
        Some(id) => if text::trimmed(id).len() == 0 {
            None
        } else {
            Some(text::trimmed(id))
        },
        None => None,
    }
}

/// How many tickets were asked for: one unless the arguments say otherwise,
/// and from one to five in any case.
pub open spec fn asked_count(args: Seq<(Seq<char>, json::JsonFieldView)>) -> nat {
    match json::number_member(args, "last"@) {
        Some(v) => if (v as usize) < 1 {
            1
        } else if (v as usize) > 5 {
            5
        } else {
            (v as usize) as nat
        },
        None => 1,
    }
}

/// The active channel that goes by `name`: the channel of that name, or else
/// the one whose name is the part of `name` before its first dot.
pub open spec fn channel_for(active: Seq<Seq<char>>, name: Seq<char>) -> Option<Seq<char>> {
    if active.contains(name) {
        Some(name)
    } else {
        match text::find_from(name, seq!['.'], 0) {
            Some(dot) => if active.contains(name.take(dot)) {
                Some(name.take(dot))
            } else {
                None
            },
            None => None,
        }
    }
}

/// Says that there is no channel of that name, and which there are.
pub open spec fn unknown_channel(active: Seq<Seq<char>>, name: Seq<char>) -> Seq<char> {
    "channel '"@ + name + "' not found; active channels: "@ + text::joined(active, ", "@)
}

/// What a call of the tool sets out to do, or why it is refused: the security
/// policy comes first, then the need for a session, then the channel.
pub open spec fn planned(
    active: Seq<Seq<char>>,
    permission: Result<(), Seq<char>>,
    session_key: Option<Seq<char>>,
    own_channel: Option<Seq<char>>,
    args: Seq<(Seq<char>, json::JsonFieldView)>,
) -> Result<FetchPlanView, ToolResultView> {
    match permission {
        Err(error) => Err(refusal(error)),
        Ok(_) => match session_key {
            None => Err(refusal("fetch_media only works inside a conversation turn"@)),
            Some(session_key) => match channel_for(active, asked_channel(args, own_channel)) {
                None => Err(refusal(unknown_channel(active, asked_channel(args, own_channel)))),
                Some(channel) => Ok(
                    FetchPlanView {
                        session_key,
                        channel,
                        id: asked_id(args),
                        last: asked_count(args),
                    },
                ),
            },
        },
    }
}

/// The newest rows of the history, as many as the scan reaches.
pub open spec fn scanned(history: Seq<Seq<char>>) -> Seq<Seq<char>> {
    if history.len() <= SCAN_TAIL_ROWS {
        history
    } else {
        history.skip(history.len() - SCAN_TAIL_ROWS)
    }
}

/// Rows that have scrolled out of the scan make no difference.
pub proof fn law_scan_reaches_no_further(older: Seq<Seq<char>>, recent: Seq<Seq<char>>)
    requires
        recent.len() >= SCAN_TAIL_ROWS,
    ensures
        scanned(older + recent) == scanned(recent),
        scanned(recent).len() == SCAN_TAIL_ROWS,
{
    assert(scanned(older + recent) =~= scanned(recent));
}

/// Says that there is nothing to fetch.
pub open spec fn nothing_found(id: Option<Seq<char>>) -> Seq<char> {
    match id {
        Some(id) => "no undownloaded media with id '"@ + id + "' in recent history"@,
        None => "no undownloaded media in recent history"@,
    }
}

/// What is made of the tickets among the scanned rows: their payloads, or that
/// there are none.
pub open spec fn selection(
    tickets: Seq<TicketView>,
    id: Option<Seq<char>>,
    last: nat,
) -> Result<Seq<Seq<char>>, ToolResultView> {
    let found = picked(tickets, id, last);
    if found.len() == 0 {
        Err(refusal(nothing_found(id)))
    } else {
        Ok(found)
    }
}

/// What a channel answered for a payload: what it rendered, or why it failed.
pub struct FetchedMedia {
    pub payload: String,
    pub reply: Result<String, String>,
}

/// A reply under the label of its ticket.
pub struct LabelledReply {
    pub label: String,
    pub reply: Result<String, String>,
}

/// The view of a reply.
pub open spec fn reply_view(reply: Result<String, String>) -> Result<Seq<char>, Seq<char>> {
    match reply {
        Ok(s) => Ok(s@),
        Err(e) => Err(e@),
    }
}

impl View for FetchedMedia {
    type V = (Seq<char>, Result<Seq<char>, Seq<char>>);

    open spec fn view(&self) -> (Seq<char>, Result<Seq<char>, Seq<char>>) {
        (self.payload@, reply_view(self.reply))
    }
}

impl View for LabelledReply {
    type V = (Seq<char>, Result<Seq<char>, Seq<char>>);

    open spec fn view(&self) -> (Seq<char>, Result<Seq<char>, Seq<char>>) {
        (self.label@, reply_view(self.reply))
    }
}

/// The label of a ticket: its kind and its id.
pub open spec fn label(summary: Option<(Seq<char>, Seq<char>)>) -> Seq<char> {
    match summary {
        Some((id, kind)) => kind + " "@ + id,
        None => "media"@,
    }
}

/// The paragraph that reports one reply.
pub open spec fn paragraph(entry: (Seq<char>, Result<Seq<char>, Seq<char>>)) -> Seq<char> {
    match entry.1 {
        Ok(rendered) => "["@ + entry.0 + "]\n"@ + rendered + "\n\n"@,
        Err(error) => "["@ + entry.0 + "] retrieval failed: "@ + error + "\n\n"@,
    }
}

/// The paragraphs that report the replies, in order.
pub open spec fn paragraphs(entries: Seq<(Seq<char>, Result<Seq<char>, Seq<char>>)>) -> Seq<char>
    decreases entries.len(),
{
    if entries.len() == 0 {
        Seq::empty()
    } else {
        paragraphs(entries.drop_last()) + paragraph(entries.last())
    }
}

/// What is reported of the replies: a success where one of them is.
pub open spec fn reported(
    entries: Seq<(Seq<char>, Result<Seq<char>, Seq<char>>)>,
) -> ToolResultView {
    ToolResultView {
        success: exists|i: int| 0 <= i < entries.len() && #[trigger] entries[i].1 is Ok,
        output: text::trimmed_end(paragraphs(entries)),
        error: None,
    }
}

/// The entries with each payload replaced by its label.
pub open spec fn labelled(
    entries: Seq<(Seq<char>, Result<Seq<char>, Seq<char>>)>,
) -> Seq<(Seq<char>, Result<Seq<char>, Seq<char>>)> {
    entries.map_values(
        |e: (Seq<char>, Result<Seq<char>, Seq<char>>)|
            (label(media_ref::media_ref_summary(e.0)), e.1),
    )
}

/// The label of a ticket.
pub fn media_label(summary: &Option<MediaRefSummary>) -> (s: String)
    ensures
        s@ == label(media_ref::summary_view(*summary)),
{
    match summary {
        Some(summary) => {
            let mut s = summary.kind.clone();
            s.append(" ");
            s.append(summary.id.as_str());
            s
        },
        None => "media".to_owned(),
    }
}

fn is_active(active: &[String], name: &[char]) -> (r: bool)
    ensures
        r == text::texts(active@).contains(name@),
{
    let mut i: usize = 0;
    while i < active.len()
        invariant
            i <= active@.len(),
            forall|j: int| 0 <= j < i ==> text::texts(active@)[j] != name@,
        decreases active@.len() - i,
    {
        let chars = text::chars_of(active[i].as_str());
        if text::same_chars(chars.as_slice(), name) {
            assert(text::texts(active@)[i as int] == name@);
            return true;
        }
        i += 1;
    }
    false
}

fn find_channel(active: &[String], name: &str) -> (r: Option<String>)
    ensures
        text_view(r) == channel_for(text::texts(active@), name@),
{
    let chars = text::chars_of(name);
    if is_active(active, chars.as_slice()) {
        return Some(name.to_owned());
    }
    let dot = vec!['.'];
    assert(dot@ =~= seq!['.']);
    match text::find(chars.as_slice(), dot.as_slice(), 0) {
        Some(i) => {
            let bare = text::string_of(chars.as_slice(), 0, i);
            assert(chars@.take(i as int) =~= bare@);
            let bare_chars = text::chars_of(bare.as_str());
            if is_active(active, bare_chars.as_slice()) {
                Some(bare)
            } else {
                None
            }
        },
        None => None,
    }
}

/// The tool that redeems media claim tickets, with the names of the channels
/// that are active.
pub struct FetchMediaTool {
    pub channels: Vec<String>,
}

/// The view of the outcome of `begin`.
pub open spec fn plan_view(r: Result<FetchPlan, ToolResult>) -> Result<
    FetchPlanView,
    ToolResultView,
> {
    match r {
        Ok(plan) => Ok(plan@),
        Err(result) => Err(result@),
    }
}

/// The view of the outcome of `select`.
pub open spec fn selection_view(r: Result<Vec<String>, ToolResult>) -> Result<
    Seq<Seq<char>>,
    ToolResultView,
> {
    match r {
        Ok(found) => Ok(text::texts(found@)),
        Err(result) => Err(result@),
    }
}

/// The view of what the security policy said.
pub open spec fn permission_view(permission: Result<(), String>) -> Result<(), Seq<char>> {
    match permission {
        Ok(_) => Ok(()),
        Err(error) => Err(error@),
    }
}

impl FetchMediaTool {
    pub fn new(channels: Vec<String>) -> (tool: FetchMediaTool)
        ensures
            tool.channels == channels,
    {
        FetchMediaTool { channels }
    }

    /// The name that the tool goes by.
    pub fn name(&self) -> (s: &'static str)
        ensures
            s@ == "fetch_media"@,
    {
        "fetch_media"
    }

    /// What the tool is for, as the model reads it.
    pub fn description(&self) -> (s: &'static str)
        ensures
            s@ == TOOL_DESCRIPTION@,
    {
        TOOL_DESCRIPTION
    }

    /// Decide what a call of the tool fetches. `permission` is what the
    /// security policy says, `session_key` names the session of the current
    /// turn and `own_channel` the channel that it runs on.
    pub fn begin(
        &self,
        permission: Result<(), String>,
        session_key: Option<String>,
        own_channel: Option<String>,
        args: &JsonObject,
    ) -> (r: Result<FetchPlan, ToolResult>)
        ensures
            plan_view(r) == planned(
                text::texts(self.channels@),
                permission_view(permission),
                text_view(session_key),
                text_view(own_channel),
                args@,
            ),
    {
        if let Err(error) = permission {
            return Err(refuse(error));
        }
        let session_key = match session_key {
            Some(session_key) => session_key,
            None => {
                return Err(
                    refuse("fetch_media only works inside a conversation turn".to_owned()),
                );
            },
        };
        let name = match args.get("channel") {
            Some(JsonField::Text(name)) => text::trim(name.as_str()),
            Some(_) => String::new(),
            None => match own_channel {
                Some(name) => name,
                None => String::new(),
            },
        };
        let channel = match find_channel(self.channels.as_slice(), name.as_str()) {
            Some(channel) => channel,
            None => {
                let known = text::join(self.channels.as_slice(), ", ");
                let mut error = "channel '".to_owned();
                error.append(name.as_str());
                error.append("' not found; active channels: ");
                error.append(known.as_str());
                return Err(refuse(error));
            },
        };
        let id = match args.text("id") {
            Some(id) => {
                let id = text::trim(id.as_str());
                if id.as_str().is_empty() {
                    None
                } else {
                    Some(id)
                }
            },
            None => None,
        };
        let last: usize = match args.number("last") {
            Some(v) => {
                let v: usize = v as usize;
                if v < 1 {
                    1
                } else if v > 5 {
                    5
                } else {
                    v
                }
            },
            None => 1,
        };
        Ok(FetchPlan { session_key, channel, id, last })
    }

    /// Choose the payloads to fetch from tickets in order of appearance.
    pub fn select_from(&self, plan: &FetchPlan, tickets: &[Ticket]) -> (r: Result<
        Vec<String>,
        ToolResult,
    >)
        ensures
            selection_view(r) == selection(ticket_views(tickets@), plan@.id, plan@.last),
    {
        let id = match &plan.id {
            Some(id) => Some(id.as_str()),
            None => None,
        };
        let found = pick_tickets(tickets, id, plan.last);
        assert(text::texts(found@).len() == found@.len());
        if found.len() == 0 {
            let error = match id {
                Some(id) => {
                    let mut error = "no undownloaded media with id '".to_owned();
                    error.append(id);
                    error.append("' in recent history");
                    error
                },
                None => "no undownloaded media in recent history".to_owned(),
            };
            return Err(refuse(error));
        }
        Ok(found)
    }

    /// Choose the payloads to fetch from the rows of the session, oldest first.
    pub fn select(&self, plan: &FetchPlan, history: &[String]) -> (r: Result<
        Vec<String>,
        ToolResult,
    >)
        ensures
            selection_view(r) == selection(
                history_tickets(scanned(text::texts(history@))),
                plan@.id,
                plan@.last,
            ),
    {
        let start: usize = history.len().saturating_sub(SCAN_TAIL_ROWS);
        let rows = vstd::slice::slice_subrange(history, start, history.len());
        assert(text::texts(rows@) =~= scanned(text::texts(history@)));
        let tickets = collect_tickets(rows);
        self.select_from(plan, tickets.as_slice())
    }

    /// Put labelled replies together.
    pub fn report_labelled(&self, entries: &[LabelledReply]) -> (r: ToolResult)
        ensures
            r@ == reported(entries@.map_values(|e: LabelledReply| e@)),
    {
        let ghost views = entries@.map_values(|e: LabelledReply| e@);
        let mut output = String::new();
        let mut failures: usize = 0;
        let mut i: usize = 0;
        while i < entries.len()
            invariant
                i <= entries@.len(),
                failures <= i,
                views == entries@.map_values(|e: LabelledReply| e@),
                output@ == paragraphs(views.take(i as int)),
                failures == i <==> forall|j: int| 0 <= j < i ==> #[trigger] views[j].1 is Err,
            decreases entries@.len() - i,
        {
            assert(views.take(i + 1).drop_last() =~= views.take(i as int));
            assert(views.take(i + 1).last() == entries@[i as int]@);
            assert(views[i as int] == entries@[i as int]@);
            output.append("[");
            output.append(entries[i].label.as_str());
            match &entries[i].reply {
                Ok(rendered) => {
                    output.append("]\n");
                    output.append(rendered.as_str());
                    output.append("\n\n");
                },
                Err(error) => {
                    failures += 1;
                    output.append("] retrieval failed: ");
                    output.append(error.as_str());
                    output.append("\n\n");
                },
            }
            i += 1;
        }
        assert(views.take(i as int) =~= views);
        ToolResult {
            success: failures < entries.len(),
            output: text::trim_end(output.as_str()),
            error: None,
        }
    }

    /// Put together what the channel answered for the selected payloads.
    pub fn report(&self, fetched: &[FetchedMedia]) -> (r: ToolResult)
        ensures
            r@ == reported(labelled(fetched@.map_values(|e: FetchedMedia| e@))),
    {
        let mut entries: Vec<LabelledReply> = Vec::new();
        let mut i: usize = 0;
        while i < fetched.len()
            invariant
                i <= fetched@.len(),
                entries@.len() == i,
                forall|j: int|
                    0 <= j < i ==> #[trigger] entries@[j]@ == labelled(
                        fetched@.map_values(|e: FetchedMedia| e@),
                    )[j],
            decreases fetched@.len() - i,
        {
            let summary = summarize_media_ref(fetched[i].payload.as_str());
            let label = media_label(&summary);
            let reply = match &fetched[i].reply {
                Ok(rendered) => Ok(rendered.clone()),
                Err(error) => Err(error.clone()),
            };
            entries.push(LabelledReply { label, reply });
            i += 1;
        }
        assert(entries@.map_values(|e: LabelledReply| e@) =~= labelled(
            fetched@.map_values(|e: FetchedMedia| e@),
        ));
        self.report_labelled(entries.as_slice())
    }
}

// ---------------------------------------------------------------------------
// Laws of the selection
// ---------------------------------------------------------------------------
/// What is scanned is the end of the history, in the history's own order: eighty
/// rows, or the whole history where it has no more.
pub proof fn law_scan_is_the_end_of_the_history(history: Seq<Seq<char>>)
    ensures
        scanned(history).is_suffix_of(history),
        scanned(history).len() == (if history.len() < 80 {
            history.len()
        } else {
            80
        }),
        forall|i: int|
            0 <= i < scanned(history).len() ==> #[trigger] scanned(history)[i] == history[history.len()
                - scanned(history).len() + i],
{
    let kept = scanned(history);
    assert(history.skip(history.len() - kept.len()) =~= kept);
}

/// The tickets of a row are its payloads, in their order, each with what it says
/// about itself.
pub proof fn law_tickets_of_a_row(row: Seq<char>)
    ensures
        history_tickets(seq![row]).len() == media_ref::media_refs(row).len(),
        forall|i: int|
            0 <= i < media_ref::media_refs(row).len() ==> #[trigger] history_tickets(seq![row])[i]
                == (
                media_ref::media_refs(row)[i],
                media_ref::media_ref_summary(media_ref::media_refs(row)[i]),
            ),
        history_tickets(Seq::empty()).len() == 0,
{
    let rows = seq![row];
    assert(rows.drop_last() =~= Seq::empty());
    reveal_with_fuel(history_refs, 2);
    assert(history_refs(rows) =~= media_ref::media_refs(row));
}

/// Whether a payload is one that was asked for: it identifies itself, and where an
/// id was given its own begins with it.
pub open spec fn answers(payload: Seq<char>, id: Option<Seq<char>>) -> bool {
    media_ref::media_ref_summary(payload) matches Some((short, _)) && (id matches Some(asked)
        ==> asked.len() <= short.len() && short.take(asked.len() as int) == asked)
}

/// A ticket is wanted exactly where its payload is one that was asked for.
pub proof fn law_wanted(payload: Seq<char>, id: Option<Seq<char>>)
    ensures
        wanted((payload, media_ref::media_ref_summary(payload)), id) <==> answers(payload, id),
{
    if let Some((short, _)) = media_ref::media_ref_summary(payload) {
        if let Some(asked) = id {
            if asked.len() <= short.len() {
                assert(short.take(asked.len() as int) =~= short.subrange(0, asked.len() as int));
            }
        }
    }
}

/// One ticket by itself is in or out by whether it is wanted.
pub proof fn law_one_ticket(ticket: TicketView, id: Option<Seq<char>>)
    ensures
        newest_wanted(seq![ticket], id) == (if wanted(ticket, id) {
            seq![ticket]
        } else {
            Seq::empty()
        }),
        newest_wanted(Seq::empty(), id) == Seq::<TicketView>::empty(),
{
    let w = |t: TicketView| wanted(t, id);
    let one = seq![ticket];
    assert(one.reverse() =~= one);
    assert(Seq::<TicketView>::empty().reverse() =~= Seq::empty());
    reveal_with_fuel(Seq::filter, 2);
    assert(one.drop_last() =~= Seq::empty());
    assert(one.filter(w) =~= (if wanted(ticket, id) {
        seq![ticket]
    } else {
        Seq::empty()
    }));
}

/// What is picked are the first of the wanted tickets, newest first, as many as
/// were asked for and no fewer than there are.
pub proof fn law_picks_from_the_newest_on(
    tickets: Seq<TicketView>,
    id: Option<Seq<char>>,
    last: nat,
)
    ensures
        picked(tickets, id, last).len() == (if newest_wanted(tickets, id).len() < last {
            newest_wanted(tickets, id).len()
        } else {
            last
        }),
        forall|i: int|
            0 <= i < picked(tickets, id, last).len() ==> #[trigger] picked(tickets, id, last)[i]
                == newest_wanted(tickets, id)[i].0,
{
}

/// The newest wanted ticket is the last that is wanted in order of appearance.
pub proof fn law_newest_is_the_last_wanted(tickets: Seq<TicketView>, id: Option<Seq<char>>, k: int)
    requires
        0 <= k < tickets.len(),
        wanted(tickets[k], id),
        forall|j: int| k < j < tickets.len() ==> !wanted(#[trigger] tickets[j], id),
    ensures
        newest_wanted(tickets, id).len() > 0,
        newest_wanted(tickets, id)[0] == tickets[k],
{
    let older = tickets.take(k);
    let later = tickets.skip(k + 1);
    lemma_none_wanted(later, id);
    law_one_ticket(tickets[k], id);
    law_newest_first(older, seq![tickets[k]], id);
    law_newest_first(older + seq![tickets[k]], later, id);
    assert(tickets =~= older + seq![tickets[k]] + later);
}

proof fn lemma_none_wanted(tickets: Seq<TicketView>, id: Option<Seq<char>>)
    requires
        forall|j: int| 0 <= j < tickets.len() ==> !wanted(#[trigger] tickets[j], id),
    ensures
        newest_wanted(tickets, id) == Seq::<TicketView>::empty(),
    decreases tickets.len(),
{
    if tickets.len() == 0 {
        assert(tickets =~= Seq::empty());
        law_one_ticket((Seq::empty(), None), id);
    } else {
        let front = tickets.drop_last();
        assert forall|j: int| 0 <= j < front.len() implies !wanted(#[trigger] front[j], id) by {
            assert(front[j] == tickets[j]);
        }
        lemma_none_wanted(front, id);
        law_one_ticket(tickets.last(), id);
        law_newest_first(front, seq![tickets.last()], id);
        assert(front + seq![tickets.last()] =~= tickets);
        assert(!wanted(tickets[tickets.len() - 1], id));
    }
}

proof fn lemma_ticket_is_of_a_row(rows: Seq<Seq<char>>, j: int) -> (r: (int, int))
    requires
        0 <= j < history_tickets(rows).len(),
    ensures
        0 <= r.0 < rows.len(),
        0 <= r.1 < media_ref::media_refs(rows[r.0]).len(),
        history_tickets(rows)[j] == (
            media_ref::media_refs(rows[r.0])[r.1],
            media_ref::media_ref_summary(media_ref::media_refs(rows[r.0])[r.1]),
        ),
    decreases rows.len(),
{
    let front = rows.drop_last();
    let n = history_refs(front).len() as int;
    if j < n {
        assert(history_tickets(rows)[j] == history_tickets(front)[j]);
        let r = lemma_ticket_is_of_a_row(front, j);
        assert(front[r.0] == rows[r.0]);
        r
    } else {
        assert(history_refs(rows)[j] == media_ref::media_refs(rows.last())[j - n]);
        (rows.len() - 1, j - n)
    }
}

/// With the newest rows at hand, the first payload that is selected is the last of
/// the history that was asked for: whatever stands before it in its row and in
/// older rows, where what stands after it was not asked for. With one to select it
/// is the only one.
pub proof fn law_last_payload_is_selected_first(
    older: Seq<Seq<char>>,
    row: Seq<char>,
    newer: Seq<Seq<char>>,
    k: int,
    id: Option<Seq<char>>,
    last: nat,
)
    requires
        newer.len() < 80,
        last >= 1,
        0 <= k < media_ref::media_refs(row).len(),
        answers(media_ref::media_refs(row)[k], id),
        forall|j: int|
            k < j < media_ref::media_refs(row).len() ==> !answers(
                #[trigger] media_ref::media_refs(row)[j],
                id,
            ),
        forall|r: int, j: int|
            0 <= r < newer.len() && 0 <= j < media_ref::media_refs(newer[r]).len() ==> !answers(
                #[trigger] media_ref::media_refs(newer[r])[j],
                id,
            ),
    ensures
        selection(history_tickets(scanned(older.push(row) + newer)), id, last) matches Ok(found)
            && found.len() >= 1 && found[0] == media_ref::media_refs(row)[k] && (last == 1
            ==> found.len() == 1),
{
    let history = older.push(row) + newer;
    let kept = scanned(history);
    let skipped = history.len() - kept.len();
    law_scan_is_the_end_of_the_history(history);
    let before = older.skip(skipped);
    assert(kept =~= before + seq![row] + newer);
    law_history_in_order(before, seq![row]);
    law_history_in_order(before + seq![row], newer);
    law_tickets_of_a_row(row);
    let a = history_tickets(before);
    let b = history_tickets(seq![row]);
    let c = history_tickets(newer);
    let all = a + b + c;
    assert(history_tickets(kept) == all);
    let at = a.len() + k;
    law_wanted(media_ref::media_refs(row)[k], id);
    assert(all[at] == b[k]);
    assert forall|j: int| at < j < all.len() implies !wanted(#[trigger] all[j], id) by {
        if j < a.len() + b.len() {
            let i = j - a.len();
            assert(all[j] == b[i]);
            law_wanted(media_ref::media_refs(row)[i], id);
        } else {
            let i = j - a.len() - b.len();
            assert(all[j] == c[i]);
            let (r, p) = lemma_ticket_is_of_a_row(newer, i);
            law_wanted(media_ref::media_refs(newer[r])[p], id);
        }
    }
    law_newest_is_the_last_wanted(all, id, at as int);
    law_picks_from_the_newest_on(all, id, last);
}

/// A selection is what was picked, and a refusal exactly where that is nothing.
pub proof fn law_selection_or_refusal(tickets: Seq<TicketView>, id: Option<Seq<char>>, last: nat)
    ensures
        match selection(tickets, id, last) {
            Ok(found) => found.len() > 0 && found == picked(tickets, id, last),
            Err(refused) => {
                &&& picked(tickets, id, last).len() == 0
                &&& !refused.success
                &&& refused.output.len() == 0
                &&& refused.error matches Some(error) && (match id {
                    Some(id) => error == "no undownloaded media with id '"@ + id
                        + "' in recent history"@,
                    None => error == "no undownloaded media in recent history"@,
                })
            },
        },
{
}

// ---------------------------------------------------------------------------
// Laws of the arguments
// ---------------------------------------------------------------------------
/// The channel is what the arguments say, white space aside, and the
/// conversation's own only where they say nothing.
pub proof fn law_channel_of_the_arguments(
    args: Seq<(Seq<char>, json::JsonFieldView)>,
    own_channel: Seq<char>,
)
    ensures
        json::member(args, "channel"@) matches Some(json::JsonFieldView::Text(name))
            ==> asked_channel(args, Some(own_channel)) == text::trimmed(name) && asked_channel(
            args,
            None,
        ) == text::trimmed(name),
        json::member(args, "channel"@) matches Some(other) && !(other is Text) ==> asked_channel(
            args,
            Some(own_channel),
        ).len() == 0,
        json::member(args, "channel"@) is None ==> asked_channel(args, Some(own_channel))
            == own_channel && asked_channel(args, None).len() == 0,
{
}

/// An id is asked for exactly where the arguments give a text that is not blank,
/// and it is that text, white space aside.
pub proof fn law_id_of_the_arguments(
    args: Seq<(Seq<char>, json::JsonFieldView)>,
    id: Seq<char>,
)
    ensures
        asked_id(args) == Some(id) <==> id.len() > 0 && (json::member(args, "id"@) matches Some(
            json::JsonFieldView::Text(given),
        ) && text::trimmed(given) == id),
{
}

/// A number from one to five counts as it is; there is always at least one ticket
/// asked for and never more than five, and one where no number is given.
pub proof fn law_count_of_the_arguments(
    args: Seq<(Seq<char>, json::JsonFieldView)>,
    n: u64,
)
    ensures
        1 <= asked_count(args) <= 5,
        json::member(args, "last"@) == Some(json::JsonFieldView::Number(Some(n))) ==> {
            &&& 1 <= n <= 5 ==> asked_count(args) == n
            &&& n == 0 ==> asked_count(args) == 1
            &&& 5 < n <= usize::MAX ==> asked_count(args) == 5
        },
        !(json::member(args, "last"@) matches Some(json::JsonFieldView::Number(Some(_))))
            ==> asked_count(args) == 1,
{
}

/// A channel is found exactly where one is active under the whole name, or else
/// under the part of it before its first dot; and what is found is active.
pub proof fn law_channel_by_name(active: Seq<Seq<char>>, name: Seq<char>, bare: Seq<char>, rest: Seq<char>)
    requires
        !bare.contains('.'),
    ensures
        active.contains(name) ==> channel_for(active, name) == Some(name),
        !active.contains(name) && !name.contains('.') ==> channel_for(active, name) is None,
        !active.contains(bare.push('.') + rest) ==> channel_for(active, bare.push('.') + rest) == (
        if active.contains(bare) {
            Some(bare)
        } else {
            None
        }),
        channel_for(active, name) matches Some(found) ==> active.contains(found)
            && found.is_prefix_of(name),
{
    let dot = seq!['.'];
    text::lemma_find_from(name, dot, 0);
    if let Some(i) = text::find_from(name, dot, 0) {
        assert(name.subrange(i, i + 1)[0] == '.');
        assert(name[i] == '.');
        assert(name.take(i).is_prefix_of(name)) by {
            assert(name.take(i) =~= name.subrange(0, i));
        }
    }
    assert(name.is_prefix_of(name)) by {
        assert(name.subrange(0, name.len() as int) =~= name);
    }
    let whole = bare.push('.') + rest;
    let at = bare.len() as int;
    assert(whole.subrange(at, at + 1) =~= dot);
    assert forall|j: int| 0 <= j < at implies !text::matches_at(whole, dot, j) by {
        if text::matches_at(whole, dot, j) {
            assert(whole.subrange(j, j + 1)[0] == '.');
            assert(bare[j] == '.');
        }
    }
    text::lemma_find_from_is(whole, dot, 0, at);
    assert(whole.take(at) =~= bare);
}

/// A call is refused by the security policy first, in its words, then outside of a
/// conversation, then for a channel that is not there, by its name and with those
/// that are; and every other call is planned with what its arguments say.
pub proof fn law_plan_or_refusal(
    active: Seq<Seq<char>>,
    permission: Result<(), Seq<char>>,
    session_key: Option<Seq<char>>,
    own_channel: Option<Seq<char>>,
    args: Seq<(Seq<char>, json::JsonFieldView)>,
)
    ensures
        ({
            let plan = planned(active, permission, session_key, own_channel, args);
            let name = asked_channel(args, own_channel);
            let refused = plan matches Err(r) && !r.success && r.output.len() == 0 && r.error is Some;
            &&& plan is Err ==> refused
            &&& permission matches Err(error) ==> plan is Err && plan->Err_0.error == Some(error)
            &&& permission is Ok && session_key is None ==> plan is Err && plan->Err_0.error == Some(
                "fetch_media only works inside a conversation turn"@,
            )
            &&& permission is Ok && session_key is Some && channel_for(active, name) is None
                ==> plan is Err && plan->Err_0.error == Some(
                "channel '"@ + name + "' not found; active channels: "@ + text::joined(
                    active,
                    ", "@,
                ),
            )
            &&& permission is Ok && session_key is Some && channel_for(active, name) is Some ==> {
                &&& plan matches Ok(p)
                &&& p.session_key == session_key->Some_0
                &&& p.channel == channel_for(active, name)->Some_0
                &&& p.id == asked_id(args)
                &&& p.last == asked_count(args)
            }
        }),
{
}

// ---------------------------------------------------------------------------
// Laws of the report
// ---------------------------------------------------------------------------
/// A label is the kind, a space and the id, each of them whole.
pub proof fn law_label(id: Seq<char>, kind: Seq<char>)
    ensures
        label(Some((id, kind))).len() == kind.len() + 1 + id.len(),
        kind.is_prefix_of(label(Some((id, kind)))),
        label(Some((id, kind)))[kind.len() as int] == ' ',
        id.is_suffix_of(label(Some((id, kind)))),
        label(None) == "media"@,
{
    reveal_strlit(" ");
    let s = label(Some((id, kind)));
    assert(s.take(kind.len() as int) =~= kind);
    assert(s.skip(s.len() - id.len()) =~= id);
}

/// A paragraph holds the whole of its label and of what was rendered, or of the
/// reason why nothing was, and ends with an empty line.
pub proof fn law_paragraph_holds_label_and_reply(name: Seq<char>, reply: Seq<char>)
    ensures
        paragraph((name, Ok(reply))) == seq!['['] + name + seq![']', '\n'] + reply + seq![
            '\n',
            '\n',
        ],
        paragraph((name, Err(reply))) == seq!['['] + name + "] retrieval failed: "@ + reply + seq![
            '\n',
            '\n',
        ],
{
    reveal_strlit("[");
    reveal_strlit("]\n");
    reveal_strlit("\n\n");
    assert("["@ =~= seq!['[']);
    assert("]\n"@ =~= seq![']', '\n']);
    assert("\n\n"@ =~= seq!['\n', '\n']);
}

/// Different replies under one label make different paragraphs.
pub proof fn law_replies_stay_apart(name: Seq<char>, reply: Seq<char>, other: Seq<char>)
    requires
        reply != other,
    ensures
        paragraph((name, Ok(reply))) != paragraph((name, Ok(other))),
        paragraph((name, Err(reply))) != paragraph((name, Err(other))),
{
    let n = name.len() as int;
    law_paragraph_holds_label_and_reply(name, reply);
    law_paragraph_holds_label_and_reply(name, other);
    let x = paragraph((name, Ok(reply)));
    let y = paragraph((name, Ok(other)));
    if x == y {
        assert(x.subrange(n + 3, x.len() - 2) =~= reply);
        assert(y.subrange(n + 3, y.len() - 2) =~= other);
    }
    let x = paragraph((name, Err(reply)));
    let y = paragraph((name, Err(other)));
    let m = n + 1 + "] retrieval failed: "@.len();
    if x == y {
        assert(x.subrange(m, x.len() - 2) =~= reply);
        assert(y.subrange(m, y.len() - 2) =~= other);
    }
}

/// The paragraphs come in the order of the replies, one for each.
pub proof fn law_paragraphs_in_order(
    first: Seq<(Seq<char>, Result<Seq<char>, Seq<char>>)>,
    entry: (Seq<char>, Result<Seq<char>, Seq<char>>),
    rest: Seq<(Seq<char>, Result<Seq<char>, Seq<char>>)>,
)
    ensures
        paragraphs(Seq::empty()) == Seq::<char>::empty(),
        paragraphs(seq![entry]) == paragraph(entry),
        paragraphs(first + rest) == paragraphs(first) + paragraphs(rest),
    decreases rest.len(),
{
    let one = seq![entry];
    assert(one.drop_last() =~= Seq::empty());
    reveal_with_fuel(paragraphs, 2);
    assert(paragraphs(one) =~= paragraph(entry));
    if rest.len() == 0 {
        assert(first + rest =~= first);
        assert(paragraphs(first) + paragraphs(rest) =~= paragraphs(first));
    } else {
        law_paragraphs_in_order(first, entry, rest.drop_last());
        assert((first + rest).drop_last() =~= first + rest.drop_last());
        assert((first + rest).last() == rest.last());
        assert(paragraphs(first + rest) =~= paragraphs(first) + paragraphs(rest));
    }
}

/// Each reply is reported, under the label of its own payload.
pub proof fn law_labels_are_those_of_the_payloads(
    entries: Seq<(Seq<char>, Result<Seq<char>, Seq<char>>)>,
)
    ensures
        labelled(entries).len() == entries.len(),
        forall|i: int|
            0 <= i < entries.len() ==> (#[trigger] labelled(entries)[i]).0 == label(
                media_ref::media_ref_summary(entries[i].0),
            ) && labelled(entries)[i].1 == entries[i].1,
{
}

/// A report succeeds exactly where some reply did, carries no error of its own, and
/// says all of the paragraphs but for white space at the end.
pub proof fn law_report(entries: Seq<(Seq<char>, Result<Seq<char>, Seq<char>>)>)
    ensures
        reported(entries).success <==> exists|i: int|
            0 <= i < entries.len() && (#[trigger] entries[i]).1 is Ok,
        reported(entries).error is None,
        reported(entries).output.is_prefix_of(paragraphs(entries)),
        forall|j: int|
            reported(entries).output.len() <= j < paragraphs(entries).len() ==> text::white_space(
                #[trigger] paragraphs(entries)[j],
            ),
        reported(entries).output.len() > 0 ==> !text::white_space(reported(entries).output.last()),
{
    text::law_trim_end_takes_off_white_space_alone(paragraphs(entries));
}

/// A view shows each part of what it is of.
pub proof fn law_views_show_each_part(
    ticket: Ticket,
    tickets: Seq<Ticket>,
    result: ToolResult,
    plan: FetchPlan,
    fetched: FetchedMedia,
    entry: LabelledReply,
    s: String,
)
    ensures
        ticket@.0 == ticket.payload@,
        ticket@.1 == media_ref::summary_view(ticket.summary),
        ticket_views(tickets).len() == tickets.len(),
        forall|i: int| 0 <= i < tickets.len() ==> #[trigger] ticket_views(tickets)[i] == tickets[i]@,
        result@.success == result.success,
        result@.output == result.output@,
        result@.error == text_view(result.error),
        plan@.session_key == plan.session_key@,
        plan@.channel == plan.channel@,
        plan@.id == text_view(plan.id),
        plan@.last == plan.last,
        fetched@.0 == fetched.payload@,
        fetched@.1 == reply_view(fetched.reply),
        entry@.0 == entry.label@,
        entry@.1 == reply_view(entry.reply),
        text_view(Some(s)) == Some(s@),
        text_view(None) is None,
        reply_view(Ok(s)) == Ok::<_, Seq<char>>(s@),
        reply_view(Err(s)) == Err::<Seq<char>, _>(s@),
        permission_view(Err(s)) == Err::<(), _>(s@),
        permission_view(Ok(())) is Ok,
        plan_view(Ok(plan)) == Ok::<_, ToolResultView>(plan@),
        plan_view(Err(result)) == Err::<FetchPlanView, _>(result@),
        selection_view(Err(result)) == Err::<Seq<Seq<char>>, _>(result@),
{
}

/// A view shows the payloads that were selected, one for one.
pub proof fn law_views_show_the_selection(found: Vec<String>, id: &str)
    ensures
        selection_view(Ok(found)) == Ok::<_, ToolResultView>(text::texts(found@)),
        id_view(Some(id)) == Some(id@),
        id_view(None) is None,
{
}

} // verus!

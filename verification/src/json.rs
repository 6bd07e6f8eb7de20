//! What the media layer reads of a JSON object: its members, with the text and
//! the numbers among their values.

use vstd::prelude::*;

verus! {

/// The value of one member of a JSON object. Of a number only its value as an
/// unsigned 64-bit integer is kept, where it has one; of lists and nested
/// objects only that they are there.
#[derive(Debug)]
pub enum JsonField {
    Null,
    Bool(bool),
    Number(Option<u64>),
    Text(String),
    Array,
    Object,
}

/// A `JsonField` with its text as a sequence of characters.
pub enum JsonFieldView {
    Null,
    Bool(bool),
    Number(Option<u64>),
    Text(Seq<char>),
    Array,
    Object,
}

impl View for JsonField {
    type V = JsonFieldView;

    open spec fn view(&self) -> JsonFieldView {
        match self {
            JsonField::Null => JsonFieldView::Null,
            JsonField::Bool(b) => JsonFieldView::Bool(*b),
            JsonField::Number(n) => JsonFieldView::Number(*n),
            JsonField::Text(s) => JsonFieldView::Text(s@),
            JsonField::Array => JsonFieldView::Array,
            JsonField::Object => JsonFieldView::Object,
        }
    }
}

/// One member of a JSON object.
#[derive(Debug)]
pub struct JsonMember {
    pub name: String,
    pub value: JsonField,
}

impl View for JsonMember {
    type V = (Seq<char>, JsonFieldView);

    open spec fn view(&self) -> (Seq<char>, JsonFieldView) {
        (self.name@, self.value@)
    }
}

/// A JSON object: its members in order.
#[derive(Debug)]
pub struct JsonObject {
    pub members: Vec<JsonMember>,
}

impl View for JsonObject {
    type V = Seq<(Seq<char>, JsonFieldView)>;

    open spec fn view(&self) -> Seq<(Seq<char>, JsonFieldView)> {
        self.members@.map_values(|m: JsonMember| m@)
    }
}

/// The value of the first member called `name`.
pub open spec fn member(doc: Seq<(Seq<char>, JsonFieldView)>, name: Seq<char>) -> Option<
    JsonFieldView,
>
    decreases doc.len(),
{
    if doc.len() == 0 {
        None
    } else if doc[0].0 == name {
        Some(doc[0].1)
    } else {
        member(doc.skip(1), name)
    }
}

/// The value of the member called `name`, where it is text.
pub open spec fn text_member(doc: Seq<(Seq<char>, JsonFieldView)>, name: Seq<char>) -> Option<
    Seq<char>,
> {
    match member(doc, name) {
        Some(JsonFieldView::Text(s)) => Some(s),
        _ => None,
    }
}

/// The value of the member called `name`, where it is an unsigned integer.
pub open spec fn number_member(doc: Seq<(Seq<char>, JsonFieldView)>, name: Seq<char>) -> Option<
    u64,
> {
    match member(doc, name) {
        Some(JsonFieldView::Number(n)) => n,
        _ => None,
    }
}

impl JsonObject {
    /// The value of the first member called `name`.
    pub fn get(&self, name: &str) -> (r: Option<&JsonField>)
        ensures
            match r {
                Some(v) => member(self@, name@) == Some(v@),
                None => member(self@, name@) is None,
            },
    {
        let mut i: usize = 0;
        assert(self@.skip(0) =~= self@);
        while i < self.members.len()
            invariant
                i <= self.members@.len(),
                member(self@, name@) == member(self@.skip(i as int), name@),
            decreases self.members@.len() - i,
        {
            assert(self@.skip(i as int)[0] == self.members@[i as int]@);
            if crate::text::same_text(self.members[i].name.as_str(), name) {
                return Some(&self.members[i].value);
            }
            assert(self@.skip(i as int).skip(1) =~= self@.skip(i + 1));
            i += 1;
        }
        None
    }

    /// The value of the member called `name`, where it is text.
    pub fn text(&self, name: &str) -> (r: Option<&String>)
        ensures
            match r {
                Some(s) => text_member(self@, name@) == Some(s@),
                None => text_member(self@, name@) is None,
            },
    {
        match self.get(name) {
            Some(JsonField::Text(s)) => Some(s),
            _ => None,
        }
    }

    /// The value of the member called `name`, where it is an unsigned integer.
    pub fn number(&self, name: &str) -> (r: Option<u64>)
        ensures
            r == number_member(self@, name@),
    {
        match self.get(name) {
            Some(JsonField::Number(n)) => *n,
            _ => None,
        }
    }
}

/// A JSON document: an object, or anything else.
#[derive(Debug)]
pub enum JsonDocument {
    Object(JsonObject),
    Other,
}

/// A `JsonDocument` with the members of its object as what they hold.
pub enum JsonDocumentView {
    Object(Seq<(Seq<char>, JsonFieldView)>),
    Other,
}

impl View for JsonDocument {
    type V = JsonDocumentView;

    open spec fn view(&self) -> JsonDocumentView {
        match self {
            JsonDocument::Object(doc) => JsonDocumentView::Object(doc@),
            JsonDocument::Other => JsonDocumentView::Other,
        }
    }
}

/// What `serde_json::from_slice` reads `raw` as; `None` where it is not JSON.
pub uninterp spec fn json_document(raw: Seq<u8>) -> Option<JsonDocumentView>;

/// `serde_json::from_slice`, read as a `serde_json::Value` whose top-level
/// members are moved out where it is an object. The result is a function of the
/// bytes alone.
#[verifier::external_body]
fn json_value(raw: &[u8]) -> (r: Result<JsonDocument, serde_json::Error>)
    ensures
        match r {
            Ok(doc) => json_document(raw@) == Some(doc@),
            Err(_) => json_document(raw@) is None,
        },
{
    let serde_json::Value::Object(top) = serde_json::from_slice(raw)? else {
        return Ok(JsonDocument::Other);
    };
    let field = |v: serde_json::Value| match v {
        serde_json::Value::Null => JsonField::Null,
        serde_json::Value::Bool(b) => JsonField::Bool(b),
        serde_json::Value::Number(n) => JsonField::Number(n.as_u64()),
        serde_json::Value::String(s) => JsonField::Text(s),
        serde_json::Value::Array(_) => JsonField::Array,
        serde_json::Value::Object(_) => JsonField::Object,
    };
    let members = top.into_iter().map(|(name, v)| JsonMember { name, value: field(v) }).collect();
    Ok(JsonDocument::Object(JsonObject { members }))
}

/// The error of `serde_json`; it is carried, never looked at.
#[verifier::external_type_specification]
#[verifier::external_body]
pub struct ExJsonError(serde_json::Error);

/// The members of a document: those of its object, and none where it is no
/// object.
pub open spec fn document_members(doc: JsonDocumentView) -> Seq<(Seq<char>, JsonFieldView)> {
    match doc {
        JsonDocumentView::Object(members) => members,
        JsonDocumentView::Other => Seq::empty(),
    }
}

impl JsonDocument {
    /// The object with the members of the document.
    pub fn into_object(self) -> (r: JsonObject)
        ensures
            r@ == document_members(self@),
    {
        match self {
            JsonDocument::Object(doc) => doc,
            JsonDocument::Other => {
                let none = JsonObject { members: Vec::new() };
                assert(none@ =~= Seq::empty());
                none
            },
        }
    }
}

/// The members of the JSON document that `raw` is; `None` where it is none.
pub open spec fn json_members(raw: Seq<u8>) -> Option<Seq<(Seq<char>, JsonFieldView)>> {
    match json_document(raw) {
        Some(doc) => Some(document_members(doc)),
        None => None,
    }
}

/// Reads a JSON document.
pub fn parse_json(raw: &[u8]) -> (r: Option<JsonObject>)
    ensures
        match r {
            Some(doc) => json_members(raw@) == Some(doc@),
            None => json_members(raw@) is None,
        },
{
    match json_value(raw) {
        Ok(doc) => Some(doc.into_object()),
        Err(_) => None,
    }
}

// ---------------------------------------------------------------------------
// Laws
// ---------------------------------------------------------------------------
/// A member is the first of its name, whatever stands behind it; there is none
/// exactly where no member has the name.
pub proof fn law_first_member_counts(
    before: Seq<(Seq<char>, JsonFieldView)>,
    name: Seq<char>,
    value: JsonFieldView,
    after: Seq<(Seq<char>, JsonFieldView)>,
)
    requires
        forall|i: int| 0 <= i < before.len() ==> (#[trigger] before[i]).0 != name,
    ensures
        member(before, name) is None,
        member(before + seq![(name, value)] + after, name) == Some(value),
    decreases before.len(),
{
    let doc = before + seq![(name, value)] + after;
    if before.len() == 0 {
        assert(doc[0] == (name, value));
    } else {
        assert(doc[0] == before[0]);
        let rest = before.skip(1);
        assert forall|i: int| 0 <= i < rest.len() implies (#[trigger] rest[i]).0 != name by {
            assert(rest[i] == before[i + 1]);
        }
        law_first_member_counts(rest, name, value, after);
        assert(doc.skip(1) =~= rest + seq![(name, value)] + after);
    }
}

/// A member that is found is one of the document.
pub proof fn law_member_is_of_the_document(
    doc: Seq<(Seq<char>, JsonFieldView)>,
    name: Seq<char>,
)
    ensures
        member(doc, name) matches Some(value) ==> doc.contains((name, value)),
        member(doc, name) is None ==> forall|i: int|
            0 <= i < doc.len() ==> (#[trigger] doc[i]).0 != name,
    decreases doc.len(),
{
    if doc.len() > 0 {
        if doc[0].0 == name {
            assert(doc[0] == (name, doc[0].1));
        } else {
            let rest = doc.skip(1);
            law_member_is_of_the_document(rest, name);
            if let Some(value) = member(rest, name) {
                let i = choose|i: int| 0 <= i < rest.len() && rest[i] == (name, value);
                assert(doc[i + 1] == (name, value));
            } else {
                assert forall|i: int| 0 <= i < doc.len() implies (#[trigger] doc[i]).0 != name by {
                    if i > 0 {
                        assert(rest[i - 1] == doc[i]);
                    }
                }
            }
        }
    }
}

/// A text or a number is read of a member exactly where the member is one, and it
/// is read whole.
pub proof fn law_members_by_type(
    doc: Seq<(Seq<char>, JsonFieldView)>,
    name: Seq<char>,
    s: Seq<char>,
    n: u64,
)
    ensures
        text_member(doc, name) == Some(s) <==> member(doc, name) == Some(JsonFieldView::Text(s)),
        number_member(doc, name) == Some(n) <==> member(doc, name) == Some(
            JsonFieldView::Number(Some(n)),
        ),
{
}

/// The members of a document are those of its object; a document that is no object
/// has none, and what is no JSON is no document.
pub proof fn law_document_members(raw: Seq<u8>, members: Seq<(Seq<char>, JsonFieldView)>)
    ensures
        json_document(raw) == Some(JsonDocumentView::Object(members)) ==> json_members(raw) == Some(
            members,
        ),
        json_document(raw) == Some(JsonDocumentView::Other) ==> (json_members(raw) matches Some(
            none,
        ) && none.len() == 0),
        json_document(raw) is None <==> json_members(raw) is None,
{
}

/// A view shows each member with its name and its value, none left out.
pub proof fn law_views_show_each_member(doc: JsonObject, field: JsonField)
    ensures
        doc@.len() == doc.members@.len(),
        forall|i: int|
            0 <= i < doc@.len() ==> (#[trigger] doc@[i]).0 == doc.members@[i].name@ && doc@[i].1
                == doc.members@[i].value@,
        field matches JsonField::Text(s) ==> field@ == JsonFieldView::Text(s@),
        field matches JsonField::Number(n) ==> field@ == JsonFieldView::Number(n),
        field matches JsonField::Bool(b) ==> field@ == JsonFieldView::Bool(b),
        field is Null <==> field@ is Null,
        field is Array <==> field@ is Array,
        field is Object <==> field@ is Object,
        field is Text <==> field@ is Text,
        field is Number <==> field@ is Number,
{
}

} // verus!

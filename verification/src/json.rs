use serde_json::Value as Document;
use vstd::prelude::*;

verus! {

/// A JSON document as a tree of plain values. A number keeps the text of its
/// literal; an object keeps its members in the order of the source text.
#[derive(Debug, PartialEq, Eq)]
pub enum JsonValue {
    Null,
    Bool(bool),
    Number(String),
    String(String),
    Array(Vec<JsonValue>),
    Object(Vec<(String, JsonValue)>),
}

/// What a [`JsonValue`] stands for.
pub enum JsonTree {
    Null,
    Bool(bool),
    Number(Seq<char>),
    String(Seq<char>),
    Array(Seq<JsonTree>),
    Object(Seq<(Seq<char>, JsonTree)>),
}

/// What a [`JsonValue`] stands for.
pub open spec fn json_view(j: JsonValue) -> JsonTree
    decreases j, 0nat,
{
    match j {
        JsonValue::Null => JsonTree::Null,
        JsonValue::Bool(b) => JsonTree::Bool(b),
        JsonValue::Number(text) => JsonTree::Number(text@),
        JsonValue::String(text) => JsonTree::String(text@),
        JsonValue::Array(items) => JsonTree::Array(array_view(items@, items@.len())),
        JsonValue::Object(members) => JsonTree::Object(members_view(members@, members@.len())),
    }
}

/// What the first `n` items of an array stand for, in their order.
pub open spec fn array_view(items: Seq<JsonValue>, n: nat) -> Seq<JsonTree>
    decreases items, n,
{
    if n == 0 || n > items.len() {
        Seq::empty()
    } else {
        array_view(items, (n - 1) as nat).push(json_view(items[n - 1]))
    }
}

/// What the first `n` members of an object stand for, in their order.
pub open spec fn members_view(members: Seq<(String, JsonValue)>, n: nat) -> Seq<
    (Seq<char>, JsonTree),
>
    decreases members, n,
{
    if n == 0 || n > members.len() {
        Seq::empty()
    } else {
        members_view(members, (n - 1) as nat).push(
            (members[n - 1].0@, json_view(members[n - 1].1)),
        )
    }
}

impl View for JsonValue {
    type V = JsonTree;

    open spec fn view(&self) -> JsonTree {
        json_view(*self)
    }
}

/// The view of an array has one entry for each item, at the item's place.
pub proof fn lemma_array_view(items: Seq<JsonValue>, n: nat)
    requires
        n <= items.len(),
    ensures
        array_view(items, n).len() == n,
        forall|i: int| 0 <= i < n ==> (#[trigger] array_view(items, n)[i]) == items[i]@,
    decreases n,
{
    if n > 0 {
        lemma_array_view(items, (n - 1) as nat);
    }
}

/// The view of an object has one entry for each member, at the member's place.
pub proof fn lemma_members_view(members: Seq<(String, JsonValue)>, n: nat)
    requires
        n <= members.len(),
    ensures
        members_view(members, n).len() == n,
        forall|i: int|
            0 <= i < n ==> (#[trigger] members_view(members, n)[i]) == (
                members[i].0@,
                members[i].1@,
            ),
    decreases n,
{
    if n > 0 {
        lemma_members_view(members, (n - 1) as nat);
    }
}

/// `serde_json::Value`, the parser's own tree.
#[verifier::external_type_specification]
#[verifier::external_body]
pub struct ExJsonDocument(Document);

/// `serde_json::Error`, the parser's report of a text that is not JSON.
#[verifier::external_type_specification]
#[verifier::external_body]
pub struct ExJsonError(serde_json::Error);

/// What the parser makes of a text: the tree, where the text is JSON, and
/// else what its error holds.
pub uninterp spec fn json_document(text: Seq<char>) -> Result<JsonTree, Seq<char>>;

/// What an error of the parser holds: its message with the line and the
/// column, as the error prints them.
pub uninterp spec fn json_error_text(error: serde_json::Error) -> Seq<char>;

/// What a tree of the parser holds.
pub uninterp spec fn json_content(doc: Document) -> JsonTree;

/// `serde_json::from_str` at `serde_json::Value`: the parser's tree for a text
/// that is JSON, its error for any other; both depend on the text alone.
/// With the features that the parser is built with here, a number keeps the
/// text of its literal and an object the order of its members.
#[verifier::external_body]
pub(crate) fn json_from_str(text: &str) -> (r: Result<Document, serde_json::Error>)
    ensures
        match r {
            Ok(doc) => json_document(text@) == Ok::<JsonTree, Seq<char>>(json_content(doc)),
            Err(e) => json_document(text@) == Err::<JsonTree, Seq<char>>(json_error_text(e)),
        },
{
    serde_json::from_str::<Document>(text)
}

/// `serde_json::Value`, taken apart variant by variant, with
/// `Number::as_str` for the text of a number: the [`JsonValue`] that holds
/// what the parser's tree holds.
#[verifier::external_body]
pub(crate) fn json_tree_of(doc: Document) -> (tree: JsonValue)
    ensures
        tree@ == json_content(doc),
{
    match doc {
        Document::Null => JsonValue::Null,
        Document::Bool(b) => JsonValue::Bool(b),
        Document::Number(n) => JsonValue::Number(n.as_str().to_owned()),
        Document::String(s) => JsonValue::String(s),
        Document::Array(a) => JsonValue::Array(a.into_iter().map(json_tree_of).collect()),
        Document::Object(o) => JsonValue::Object(
            o.into_iter().map(|(k, v)| (k, json_tree_of(v))).collect(),
        ),
    }
}

} // verus!

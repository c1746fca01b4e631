//! JSON documents as the storage and model-index code reads them.
use crate::text::same_text;
use vstd::prelude::*;

verus! {

/// A parsed JSON value. A number is kept as the `u64` it denotes when it is a non-negative
/// integer (`None` for negative or fractional numbers); object members are in the parser's
/// key order, one member per key.
#[derive(Debug)]
pub enum JsonValue {
    /// `null`
    Null,
    /// `true` or `false`
    Bool(bool),
    /// A number, by its non-negative integer value when it has one.
    Number(Option<u64>),
    /// A string.
    Str(String),
    /// An array.
    Array(Vec<JsonValue>),
    /// An object's members.
    Object(Vec<(String, JsonValue)>),
}

/// Abstract JSON value: strings as character sequences.
pub enum JsonView {
    Null,
    Bool(bool),
    Number(Option<u64>),
    Str(Seq<char>),
    Array(Seq<JsonView>),
    Object(Seq<(Seq<char>, JsonView)>),
}

/// The abstract value of `v`.
pub open spec fn json_view(v: JsonValue) -> JsonView
    decreases v,
{
    match v {
        JsonValue::Null => JsonView::Null,
        JsonValue::Bool(b) => JsonView::Bool(b),
        JsonValue::Number(n) => JsonView::Number(n),
        JsonValue::Str(s) => JsonView::Str(s@),
        JsonValue::Array(items) => JsonView::Array(items_view(items@)),
        JsonValue::Object(members) => JsonView::Object(members_view(members@)),
    }
}

/// The abstract values of `items`.
pub open spec fn items_view(items: Seq<JsonValue>) -> Seq<JsonView>
    decreases items,
{
    if items.len() == 0 {
        Seq::empty()
    } else {
        seq![json_view(items[0])] + items_view(items.subrange(1, items.len() as int))
    }
}

/// The abstract members of `members`.
pub open spec fn members_view(members: Seq<(String, JsonValue)>) -> Seq<(Seq<char>, JsonView)>
    decreases members,
{
    if members.len() == 0 {
        Seq::empty()
    } else {
        seq![(members[0].0@, json_view(members[0].1))] + members_view(
            members.subrange(1, members.len() as int),
        )
    }
}

/// `serde_json::Value` is converted into [`JsonValue`] as soon as it is parsed.
#[verifier::external_type_specification]
#[verifier::external_body]
pub struct ExSerdeValue(serde_json::Value);

/// The document that `serde_json::from_slice::<serde_json::Value>` parses from `bytes`, or
/// `None` when it rejects them.
pub uninterp spec fn json_document(bytes: Seq<u8>) -> Option<JsonView>;

/// One-for-one conversion of a parsed `serde_json::Value` into a [`JsonValue`]: each variant
/// to the same variant, a number to `Number::as_u64`, members in the map's own order.
#[verifier::external_body]
fn tree_of(v: serde_json::Value) -> JsonValue {
    match v {
        serde_json::Value::Null => JsonValue::Null,
        serde_json::Value::Bool(b) => JsonValue::Bool(b),
        serde_json::Value::Number(n) => JsonValue::Number(n.as_u64()),
        serde_json::Value::String(s) => JsonValue::Str(s),
        serde_json::Value::Array(a) => JsonValue::Array(a.into_iter().map(tree_of).collect()),
        serde_json::Value::Object(o) => JsonValue::Object(o.into_iter().map(|(k, v)| (k, tree_of(v))).collect()),
    }
}

/// Parse a JSON document (`serde_json::from_slice::<serde_json::Value>`).
///
/// The contract names the parsed document `json_document(bytes)`; which texts serde_json
/// accepts, and how it orders and merges object members, is not restated here.
#[verifier::external_body]
pub(crate) fn parse_json(bytes: &[u8]) -> (r: Option<JsonValue>)
    ensures
        match r {
            Some(v) => json_document(bytes@) == Some(json_view(v)),
            None => json_document(bytes@) is None,
        },
{
    serde_json::from_slice::<serde_json::Value>(bytes).ok().map(tree_of)
}

/// The value of the first member of `members` whose key is `key`.
pub open spec fn member(members: Seq<(Seq<char>, JsonView)>, key: Seq<char>) -> Option<JsonView>
    decreases members.len(),
{
    if members.len() == 0 {
        None
    } else if members[0].0 == key {
        Some(members[0].1)
    } else {
        member(members.drop_first(), key)
    }
}

/// `Value::get(key)` of an object: its member's value.
pub open spec fn get(v: JsonView, key: Seq<char>) -> Option<JsonView> {
    match v {
        JsonView::Object(members) => member(members, key),
        _ => None,
    }
}

proof fn lemma_members_view(members: Seq<(String, JsonValue)>, i: int)
    requires
        0 <= i < members.len(),
    ensures
        members_view(members).len() == members.len(),
        members_view(members)[i] == (members[i].0@, json_view(members[i].1)),
    decreases members.len(),
{
    if i > 0 {
        lemma_members_view(members.subrange(1, members.len() as int), i - 1);
    } else {
        lemma_members_len(members.subrange(1, members.len() as int));
    }
}

proof fn lemma_members_len(members: Seq<(String, JsonValue)>)
    ensures
        members_view(members).len() == members.len(),
    decreases members.len(),
{
    if members.len() > 0 {
        lemma_members_len(members.subrange(1, members.len() as int));
    }
}

/// The abstract members of `members`, entry by entry.
pub proof fn lemma_members_view_all(members: Seq<(String, JsonValue)>)
    ensures
        members_view(members).len() == members.len(),
        forall|i: int|
            0 <= i < members.len() ==> #[trigger] members_view(members)[i] == (
                members[i].0@,
                json_view(members[i].1),
            ),
{
    lemma_members_len(members);
    assert forall|i: int| 0 <= i < members.len() implies #[trigger] members_view(members)[i] == (
        members[i].0@,
        json_view(members[i].1),
    ) by {
        lemma_members_view(members, i);
    }
}

proof fn lemma_items_view(items: Seq<JsonValue>, i: int)
    requires
        0 <= i < items.len(),
    ensures
        items_view(items).len() == items.len(),
        items_view(items)[i] == json_view(items[i]),
    decreases items.len(),
{
    if i > 0 {
        lemma_items_view(items.subrange(1, items.len() as int), i - 1);
    } else {
        lemma_items_len(items.subrange(1, items.len() as int));
    }
}

proof fn lemma_items_len(items: Seq<JsonValue>)
    ensures
        items_view(items).len() == items.len(),
    decreases items.len(),
{
    if items.len() > 0 {
        lemma_items_len(items.subrange(1, items.len() as int));
    }
}

/// The abstract items of `items`, entry by entry.
pub proof fn lemma_items_view_all(items: Seq<JsonValue>)
    ensures
        items_view(items).len() == items.len(),
        forall|i: int| 0 <= i < items.len() ==> #[trigger] items_view(items)[i] == json_view(items[i]),
{
    lemma_items_len(items);
    assert forall|i: int| 0 <= i < items.len() implies #[trigger] items_view(items)[i] == json_view(
        items[i],
    ) by {
        lemma_items_view(items, i);
    }
}

/// Index of the first member of `members` whose key is `key`.
pub fn find_member(members: &Vec<(String, JsonValue)>, key: &str) -> (r: Option<usize>)
    ensures
        match member(members_view(members@), key@) {
            Some(v) => r matches Some(i) && i < members@.len() && json_view(members@[i as int].1) == v,
            None => r is None,
        },
{
    proof {
        lemma_members_view_all(members@);
    }
    let ghost mv = members_view(members@);
    assert(mv.skip(0) =~= mv);
    let mut i: usize = 0;
    while i < members.len()
        invariant
            i <= members@.len(),
            mv == members_view(members@),
            mv.len() == members@.len(),
            forall|k: int| 0 <= k < members@.len() ==> #[trigger] mv[k] == (members@[k].0@, json_view(members@[k].1)),
            member(mv, key@) == member(mv.skip(i as int), key@),
        decreases members@.len() - i,
    {
        assert(mv.skip(i as int)[0] == mv[i as int]);
        if same_text(members[i].0.as_str(), key) {
            return Some(i);
        }
        assert(mv.skip(i as int).drop_first() =~= mv.skip(i + 1));
        i += 1;
    }
    None
}


/// Members of every object in `v`, nested values included.
pub open spec fn member_total(v: JsonView) -> nat
    decreases v,
{
    match v {
        JsonView::Object(ms) => ms.len() + members_total(ms),
        JsonView::Array(items) => items_total(items),
        _ => 0,
    }
}

/// Members of every object inside the values of `ms`.
pub open spec fn members_total(ms: Seq<(Seq<char>, JsonView)>) -> nat
    decreases ms,
{
    if ms.len() == 0 {
        0
    } else {
        member_total(ms[0].1) + members_total(ms.subrange(1, ms.len() as int))
    }
}

/// Members of every object inside `items`.
pub open spec fn items_total(items: Seq<JsonView>) -> nat
    decreases items,
{
    if items.len() == 0 {
        0
    } else {
        member_total(items[0]) + items_total(items.subrange(1, items.len() as int))
    }
}

/// Colons of `b` from `i` on that stand outside strings, scanning with the string state
/// `in_str` (inside a string) and `esc` (the next string byte is escaped).
pub open spec fn colons_from(b: Seq<u8>, i: int, in_str: bool, esc: bool) -> nat
    decreases b.len() - i,
{
    if i < 0 || i >= b.len() {
        0
    } else if in_str {
        if esc {
            colons_from(b, i + 1, true, false)
        } else if b[i] == 0x5c {
            colons_from(b, i + 1, true, true)
        } else if b[i] == 0x22 {
            colons_from(b, i + 1, false, false)
        } else {
            colons_from(b, i + 1, true, false)
        }
    } else if b[i] == 0x22 {
        colons_from(b, i + 1, true, false)
    } else if b[i] == 0x3a {
        1 + colons_from(b, i + 1, false, false)
    } else {
        colons_from(b, i + 1, false, false)
    }
}

/// Object members a JSON text writes: its colons outside strings (in valid JSON, exactly one
/// per member of every object).
pub open spec fn text_members(b: Seq<u8>) -> nat {
    colons_from(b, 0, false, false)
}

/// The object members a JSON text writes.
fn count_text_members(bytes: &[u8]) -> (r: usize)
    ensures
        r == text_members(bytes@),
{
    let mut count: usize = 0;
    let mut in_str = false;
    let mut esc = false;
    let mut i: usize = 0;
    while i < bytes.len()
        invariant
            i <= bytes@.len(),
            count <= i,
            !in_str ==> !esc,
            count + colons_from(bytes@, i as int, in_str, esc) == text_members(bytes@),
        decreases bytes@.len() - i,
    {
        let c = bytes[i];
        if in_str {
            if esc {
                esc = false;
            } else if c == 0x5c {
                esc = true;
            } else if c == 0x22 {
                in_str = false;
            }
        } else if c == 0x22 {
            in_str = true;
        } else if c == 0x3a {
            count += 1;
        }
        i += 1;
    }
    count
}

/// The object members of a parsed value, or `None` when there are more than `usize::MAX`.
fn tree_members(v: &JsonValue) -> (r: Option<usize>)
    ensures
        match r {
            Some(t) => t == member_total(json_view(*v)),
            None => member_total(json_view(*v)) > usize::MAX,
        },
    decreases v,
{
    match v {
        JsonValue::Object(ms) => {
            proof {
                lemma_members_view_all(ms@);
            }
            let ghost mv = members_view(ms@);
            assert(mv.subrange(0, mv.len() as int) =~= mv);
            let mut acc: usize = ms.len();
            let mut i: usize = 0;
            while i < ms.len()
                invariant
                    i <= ms@.len(),
                    mv == members_view(ms@),
                    mv.len() == ms@.len(),
                    forall|k: int| 0 <= k < ms@.len() ==> #[trigger] mv[k] == (ms@[k].0@, json_view(ms@[k].1)),
                    json_view(*v) == JsonView::Object(mv),
                    *v == JsonValue::Object(*ms),
                    acc + members_total(mv.subrange(i as int, mv.len() as int)) == member_total(json_view(*v)),
                decreases ms@.len() - i,
            {
                let ghost rest = mv.subrange(i as int, mv.len() as int);
                assert(rest[0] == mv[i as int]);
                assert(rest.subrange(1, rest.len() as int) =~= mv.subrange(i + 1, mv.len() as int));
                proof {
                    assert((*v)->Object_0 == *ms);
                    assert(decreases_to!(*v => (*v)->Object_0));
                    assert(decreases_to!(*ms => ms@));
                    assert(decreases_to!(ms@ => ms@[i as int]));
                    assert(decreases_to!(ms@[i as int] => ms@[i as int].1));
                }
                let t = match tree_members(&ms[i].1) {
                    Some(t) => t,
                    None => {
                        return None;
                    },
                };
                acc = match acc.checked_add(t) {
                    Some(x) => x,
                    None => {
                        return None;
                    },
                };
                i += 1;
            }
            Some(acc)
        },
        JsonValue::Array(items) => {
            proof {
                lemma_items_view_all(items@);
            }
            let ghost iv = items_view(items@);
            assert(iv.subrange(0, iv.len() as int) =~= iv);
            let mut acc: usize = 0;
            let mut i: usize = 0;
            while i < items.len()
                invariant
                    i <= items@.len(),
                    iv == items_view(items@),
                    iv.len() == items@.len(),
                    forall|k: int| 0 <= k < items@.len() ==> #[trigger] iv[k] == json_view(items@[k]),
                    json_view(*v) == JsonView::Array(iv),
                    *v == JsonValue::Array(*items),
                    acc + items_total(iv.subrange(i as int, iv.len() as int)) == member_total(json_view(*v)),
                decreases items@.len() - i,
            {
                let ghost rest = iv.subrange(i as int, iv.len() as int);
                assert(rest[0] == iv[i as int]);
                assert(rest.subrange(1, rest.len() as int) =~= iv.subrange(i + 1, iv.len() as int));
                proof {
                    assert((*v)->Array_0 == *items);
                    assert(decreases_to!(*v => (*v)->Array_0));
                    assert(decreases_to!(*items => items@));
                    assert(decreases_to!(items@ => items@[i as int]));
                }
                let t = match tree_members(&items[i]) {
                    Some(t) => t,
                    None => {
                        return None;
                    },
                };
                acc = match acc.checked_add(t) {
                    Some(x) => x,
                    None => {
                        return None;
                    },
                };
                i += 1;
            }
            Some(acc)
        },
        _ => Some(0),
    }
}

/// Whether the parsed document `doc` of the JSON text `bytes` kept every member the text
/// writes. The parser keeps one member per key, so in a valid JSON text this fails exactly when
/// some object repeats a key.
pub fn members_all_kept(bytes: &[u8], doc: &JsonValue) -> (r: bool)
    ensures
        r == (text_members(bytes@) == member_total(json_view(*doc))),
{
    let written = count_text_members(bytes);
    match tree_members(doc) {
        Some(kept) => written == kept,
        None => false,
    }
}
} // verus!

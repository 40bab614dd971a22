//! JSON values as plain data. The text is read and written by `serde_json`.
use crate::text::{same_text, str_view};
use vstd::prelude::*;

verus! {

/// `serde_json::Value`, the outside crate's own JSON value.
#[verifier::external_type_specification]
#[verifier::external_body]
pub struct ExValue(serde_json::Value);

/// A JSON value. An object lists its members; no two have the same name when
/// the value was read from text.
pub enum Json {
    Null,
    Bool(bool),
    Integer(i128),
    /// A number that is not an integer, in decimal. A text that spells no finite
    /// number is written as null.
    Real(String),
    Text(String),
    List(Vec<Json>),
    Object(Vec<(String, Json)>),
}

/// A JSON value as mathematics.
pub ghost enum JsonView {
    Null,
    Bool(bool),
    Integer(int),
    Real(Seq<char>),
    Text(Seq<char>),
    List(Seq<JsonView>),
    Object(Seq<(Seq<char>, JsonView)>),
}

impl View for Json {
    type V = JsonView;

    open spec fn view(&self) -> JsonView
        decreases self,
    {
        match self {
            Json::Null => JsonView::Null,
            Json::Bool(b) => JsonView::Bool(*b),
            Json::Integer(i) => JsonView::Integer(*i as int),
            Json::Real(t) => JsonView::Real(t@),
            Json::Text(t) => JsonView::Text(t@),
            Json::List(items) => JsonView::List(
                Seq::new(
                    items@.len(),
                    |i: int|
                        if 0 <= i < items@.len() {
                            items@[i].view()
                        } else {
                            JsonView::Null
                        },
                ),
            ),
            Json::Object(members) => JsonView::Object(
                Seq::new(
                    members@.len(),
                    |i: int|
                        if 0 <= i < members@.len() {
                            (members@[i].0@, members@[i].1.view())
                        } else {
                            (Seq::empty(), JsonView::Null)
                        },
                ),
            ),
        }
    }
}

impl JsonView {
    /// The member of an object that has the given name, if there is one.
    pub open spec fn get(self, name: Seq<char>) -> Option<JsonView> {
        match self {
            JsonView::Object(members) => member(members, name),
            _ => None,
        }
    }

    /// The text of a text value.
    pub open spec fn as_text(self) -> Option<Seq<char>> {
        match self {
            JsonView::Text(t) => Some(t),
            _ => None,
        }
    }

    /// The items of a list.
    pub open spec fn as_list(self) -> Option<Seq<JsonView>> {
        match self {
            JsonView::List(items) => Some(items),
            _ => None,
        }
    }
}

/// The value of the first member with the given name.
pub open spec fn member(members: Seq<(Seq<char>, JsonView)>, name: Seq<char>) -> Option<JsonView>
    decreases members.len(),
{
    if members.len() == 0 {
        None
    } else if members[0].0 == name {
        Some(members[0].1)
    } else {
        member(members.drop_first(), name)
    }
}

/// The text of an optional value, when it is there and is a text.
pub open spec fn text_in(value: Option<JsonView>) -> Option<Seq<char>> {
    match value {
        Some(v) => v.as_text(),
        None => None,
    }
}

/// The items of an optional value, when it is there and is a list.
pub open spec fn list_in(value: Option<JsonView>) -> Option<Seq<JsonView>> {
    match value {
        Some(v) => v.as_list(),
        None => None,
    }
}

/// The view of an optional value.
pub open spec fn seen(value: Option<&Json>) -> Option<JsonView> {
    match value {
        Some(v) => Some(v@),
        None => None,
    }
}

/// A text value, or null where there is none.
pub open spec fn text_or_null(s: Option<Seq<char>>) -> JsonView {
    match s {
        Some(t) => JsonView::Text(t),
        None => JsonView::Null,
    }
}

/// How many characters the texts in a value hold, member names left out.
pub open spec fn text_size(value: JsonView) -> nat
    decreases value,
{
    match value {
        JsonView::Text(t) => t.len(),
        JsonView::List(items) => list_size(items),
        JsonView::Object(members) => member_size(members),
        _ => 0,
    }
}

/// How many characters the texts in the values of a list hold.
pub open spec fn list_size(items: Seq<JsonView>) -> nat
    decreases items,
{
    if items.len() == 0 {
        0
    } else {
        list_size(items.drop_last()) + text_size(items.last())
    }
}

/// How many characters the texts in the members of an object hold.
pub open spec fn member_size(members: Seq<(Seq<char>, JsonView)>) -> nat
    decreases members,
{
    if members.len() == 0 {
        0
    } else {
        text_size(members[0].1) + member_size(members.drop_first())
    }
}

/// No member of a value holds more text than the value.
pub proof fn lemma_member_size(value: JsonView, name: Seq<char>)
    ensures
        value.get(name) matches Some(v) ==> text_size(v) <= text_size(value),
{
    match value {
        JsonView::Object(members) => lemma_found_size(members, name),
        _ => {},
    }
}

proof fn lemma_found_size(members: Seq<(Seq<char>, JsonView)>, name: Seq<char>)
    ensures
        member(members, name) matches Some(v) ==> text_size(v) <= member_size(members),
    decreases members.len(),
{
    if members.len() > 0 {
        lemma_found_size(members.drop_first(), name);
    }
}

/// The value that `serde_json::from_slice` reads from bytes, or `None` where it
/// reports an error.
pub uninterp spec fn parsed_json(bytes: Seq<u8>) -> Option<JsonView>;

/// The compact text that `serde_json` writes for a value.
pub uninterp spec fn rendered_json(value: JsonView) -> Seq<char>;

/// The same value, as plain data: the variants of `serde_json::Value` one for one,
/// and a number by `Number::as_i128` where it is an integer, by its text where not.
#[verifier::external_body]
fn lift(value: serde_json::Value) -> Json {
    match value {
        serde_json::Value::Null => Json::Null,
        serde_json::Value::Bool(b) => Json::Bool(b),
        serde_json::Value::Number(n) => match n.as_i128() {
            Some(i) => Json::Integer(i),
            None => Json::Real(n.to_string()),
        },
        serde_json::Value::String(s) => Json::Text(s),
        serde_json::Value::Array(items) => Json::List(items.into_iter().map(lift).collect()),
        serde_json::Value::Object(members) => Json::Object(
            members.into_iter().map(|m| (m.0, lift(m.1))).collect(),
        ),
    }
}

/// The same value, as `serde_json` holds it: the variants of `serde_json::Value` one
/// for one, and a number by `Number::from_i128`, or by `Number::from_f64` of the
/// number that its text spells.
#[verifier::external_body]
fn lower(value: &Json) -> serde_json::Value {
    match value {
        Json::Null => serde_json::Value::Null,
        Json::Bool(b) => (*b).into(),
        Json::Integer(i) => serde_json::Number::from_i128(*i).into(),
        Json::Real(t) => t.parse().ok().and_then(serde_json::Number::from_f64).into(),
        Json::Text(t) => t.as_str().into(),
        Json::List(items) => items.iter().map(lower).collect(),
        Json::Object(members) => members.iter().map(|m| (m.0.clone(), lower(&m.1))).collect(),
    }
}

/// `serde_json::from_slice`: whether bytes are a JSON text, and which value they
/// spell, is a function of the bytes. The texts in the value are read from separate
/// stretches of the bytes, at least one byte for each character.
#[verifier::external_body]
pub(crate) fn parse_json(bytes: &[u8]) -> (r: Option<Json>)
    ensures
        match r {
            Some(v) => parsed_json(bytes@) == Some(v@),
            None => parsed_json(bytes@) is None,
        },
        r matches Some(v) ==> text_size(v@) <= bytes@.len(),
{
    serde_json::from_slice(bytes).ok().map(lift)
}

/// `serde_json::Value::to_string`: the compact text of a value is a function of
/// the value. A null is written `null`, a truth value `true` or `false`.
#[verifier::external_body]
pub(crate) fn render_json(value: &Json) -> (r: String)
    ensures
        r@ == rendered_json(value@),
        value is Null ==> r@ == "null"@,
        value matches Json::Bool(b) ==> r@ == if *b { "true"@ } else { "false"@ },
{
    lower(value).to_string()
}

impl Json {
    /// A text value.
    pub fn text(s: &str) -> (r: Json)
        ensures
            r@ == JsonView::Text(s@),
    {
        Json::Text(s.to_owned())
    }

    /// A text value, or null where there is none.
    pub fn text_or_null(s: Option<&str>) -> (r: Json)
        ensures
            r@ == text_or_null(str_view(s)),
    {
        match s {
            Some(t) => Json::text(t),
            None => Json::Null,
        }
    }

    /// A list of values.
    pub fn list(items: Vec<Json>) -> (r: Json)
        ensures
            r@ == JsonView::List(views(items@)),
    {
        let r = Json::List(items);
        assert(r@->List_0 =~= views(items@));
        r
    }

    /// An object with the given members.
    pub fn object(members: Vec<(String, Json)>) -> (r: Json)
        ensures
            r@ == JsonView::Object(member_views(members@)),
    {
        let r = Json::Object(members);
        proof {
            reveal_with_fuel(<Json as View>::view, 2);
            assert(r@->Object_0 =~= member_views(members@));
        }
        r
    }

    /// The member of an object that has the given name, if there is one.
    pub fn get(&self, name: &str) -> (r: Option<&Json>)
        ensures
            seen(r) == self@.get(name@),
    {
        match self {
            Json::Object(members) => {
                let ghost all = member_views(members@);
                assert(self@->Object_0 =~= all);
                let mut i: usize = 0;
                assert(all.skip(0) =~= all);
                while i < members.len()
                    invariant
                        i <= members@.len(),
                        self@ == JsonView::Object(all),
                        all == member_views(members@),
                        member(all, name@) == member(all.skip(i as int), name@),
                    decreases members@.len() - i,
                {
                    if same_text(members[i].0.as_str(), name) {
                        return Some(&members[i].1);
                    }
                    assert(all.skip(i as int).drop_first() =~= all.skip(i + 1));
                    i += 1;
                }
                None
            },
            _ => None,
        }
    }

    /// The text of a text value.
    pub fn as_str(&self) -> (r: Option<&str>)
        ensures
            match r {
                Some(t) => self@.as_text() == Some(t@),
                None => self@.as_text() is None,
            },
    {
        match self {
            Json::Text(t) => Some(t.as_str()),
            _ => None,
        }
    }

    /// The items of a list.
    pub fn as_array(&self) -> (r: Option<&Vec<Json>>)
        ensures
            match r {
                Some(items) => self@ == JsonView::List(views(items@)),
                None => self@.as_list() is None,
            },
    {
        match self {
            Json::List(items) => {
                assert(self@->List_0 =~= views(items@));
                Some(items)
            },
            _ => None,
        }
    }
}

/// The views of the members of an object.
pub open spec fn member_views(members: Seq<(String, Json)>) -> Seq<(Seq<char>, JsonView)> {
    members.map_values(|m: (String, Json)| (m.0@, m.1@))
}

/// The views of a list of values.
pub open spec fn views(items: Seq<Json>) -> Seq<JsonView> {
    items.map_values(|j: Json| j@)
}

/// A member is found by its name, wherever it stands: the first of that name counts,
/// and members of other names bear on it in no way.
pub proof fn law_member_is_found_by_name(
    before: Seq<(Seq<char>, JsonView)>,
    name: Seq<char>,
    value: JsonView,
    after: Seq<(Seq<char>, JsonView)>,
)
    requires
        forall|i: int| 0 <= i < before.len() ==> (#[trigger] before[i]).0 != name,
    ensures
        JsonView::Object(before + seq![(name, value)] + after).get(name) == Some(value),
        JsonView::Object(before).get(name) is None,
    decreases before.len(),
{
    let all = before + seq![(name, value)] + after;
    if before.len() > 0 {
        let rest = before.drop_first();
        assert(all[0] == before[0]);
        assert(all.drop_first() =~= rest + seq![(name, value)] + after);
        assert forall|i: int| 0 <= i < rest.len() implies (#[trigger] rest[i]).0 != name by {
            assert(rest[i] == before[i + 1]);
        }
        law_member_is_found_by_name(rest, name, value, after);
    } else {
        assert(all[0] == (name, value));
    }
}

/// Only objects have members, only texts a text and only lists items.
pub proof fn law_values_are_told_apart(value: JsonView, name: Seq<char>)
    ensures
        !(value is Object) ==> value.get(name) is None,
        value.as_text() == if value is Text { Some(value->Text_0) } else { None },
        value.as_list() == if value is List { Some(value->List_0) } else { None },
{
}

/// The view of a value shows all of it: what it is, and its items or members each in
/// its place.
pub proof fn law_json_view(value: Json, i: int)
    ensures
        value is Null ==> value@ is Null,
        value matches Json::Bool(b) ==> value@ == JsonView::Bool(b),
        value matches Json::Integer(n) ==> value@ == JsonView::Integer(n as int),
        value matches Json::Real(t) ==> value@ == JsonView::Real(t@),
        value matches Json::Text(t) ==> value@ == JsonView::Text(t@),
        value matches Json::List(items) ==> (value@ matches JsonView::List(all) && all.len()
            == items@.len() && (0 <= i < items@.len() ==> all[i] == items@[i]@)),
        value matches Json::Object(members) ==> (value@ matches JsonView::Object(all) && all.len()
            == members@.len() && (0 <= i < members@.len() ==> all[i] == (
            members@[i].0@,
            members@[i].1@,
        ))),
{
    reveal_with_fuel(<Json as View>::view, 2);
}

/// The views of items and members are theirs, each in its place, and that of a value
/// that may be missing is the value's.
pub proof fn law_json_views(
    items: Seq<Json>,
    members: Seq<(String, Json)>,
    value: &Json,
    text: Seq<char>,
    i: int,
)
    ensures
        views(items).len() == items.len(),
        0 <= i < items.len() ==> views(items)[i] == items[i]@,
        member_views(members).len() == members.len(),
        0 <= i < members.len() ==> member_views(members)[i] == (members[i].0@, members[i].1@),
        seen(Some(value)) == Some(value@),
        seen(None) is None,
        text_or_null(Some(text)) == JsonView::Text(text),
        text_or_null(None) is Null,
{
}

} // verus!

//! JSON values as the model's replies and requests use them.

use crate::text::{same, text_before};
use vstd::prelude::*;

verus! {

/// A parsed value of the `serde_json` crate.
#[verifier::external_type_specification]
#[verifier::external_body]
pub struct ExValue(serde_json::Value);

/// A parse error of the `serde_json` crate.
#[verifier::external_type_specification]
#[verifier::external_body]
pub struct ExError(serde_json::Error);

/// A number of the `serde_json` crate.
#[verifier::external_type_specification]
#[verifier::external_body]
pub struct ExNumber(serde_json::Number);

/// Copies a number of the `serde_json` crate, whose `Clone` is derived.
pub assume_specification[ <serde_json::Number as Clone>::clone ](
    n: &serde_json::Number,
) -> (r: serde_json::Number)
    ensures
        r == *n,
;

/// A JSON value.
#[derive(Debug, PartialEq, Eq)]
pub enum Json {
    Null,
    Bool(bool),
    /// A number that is an unsigned integer.
    Unsigned(u64),
    /// Any other number, carried through unread.
    Number(serde_json::Number),
    Text(String),
    Array(Vec<Json>),
    /// The members of an object, in order.
    Object(Vec<(String, Json)>),
}

/// What a [`Json`] stands for.
pub enum JsonView {
    Null,
    Bool(bool),
    Unsigned(u64),
    Number(serde_json::Number),
    Text(Seq<char>),
    Array(Seq<JsonView>),
    Object(Seq<(Seq<char>, JsonView)>),
}

/// The mathematical value of a JSON value.
pub open spec fn json_view(j: Json) -> JsonView
    decreases j,
{
    match j {
        Json::Null => JsonView::Null,
        Json::Bool(b) => JsonView::Bool(b),
        Json::Unsigned(n) => JsonView::Unsigned(n),
        Json::Number(n) => JsonView::Number(n),
        Json::Text(s) => JsonView::Text(s@),
        Json::Array(a) => JsonView::Array(
            Seq::new(
                a@.len(),
                |i: int|
                    if 0 <= i < a@.len() {
                        json_view(a@[i])
                    } else {
                        JsonView::Null
                    },
            ),
        ),
        Json::Object(o) => JsonView::Object(
            Seq::new(
                o@.len(),
                |i: int|
                    if 0 <= i < o@.len() {
                        (o@[i].0@, json_view(o@[i].1))
                    } else {
                        (Seq::empty(), JsonView::Null)
                    },
            ),
        ),
    }
}

impl View for Json {
    type V = JsonView;

    open spec fn view(&self) -> JsonView {
        json_view(*self)
    }
}

/// The first member with a key, from position `i` on.
pub open spec fn member_from(o: Seq<(Seq<char>, JsonView)>, key: Seq<char>, i: int) -> Option<
    JsonView,
>
    decreases o.len() - i,
{
    if i < 0 || i >= o.len() {
        None
    } else if o[i].0 == key {
        Some(o[i].1)
    } else {
        member_from(o, key, i + 1)
    }
}

impl JsonView {
    /// The member of an object with the given key.
    pub open spec fn get(self, key: Seq<char>) -> Option<JsonView> {
        match self {
            JsonView::Object(o) => member_from(o, key, 0),
            _ => None,
        }
    }

    /// The text of a string.
    pub open spec fn as_text(self) -> Option<Seq<char>> {
        match self {
            JsonView::Text(s) => Some(s),
            _ => None,
        }
    }

    /// The elements of an array.
    pub open spec fn as_array(self) -> Option<Seq<JsonView>> {
        match self {
            JsonView::Array(a) => Some(a),
            _ => None,
        }
    }

    /// The value of an unsigned integer.
    pub open spec fn as_unsigned(self) -> Option<u64> {
        match self {
            JsonView::Unsigned(n) => Some(n),
            _ => None,
        }
    }

    /// The member with a key, when it is a string.
    pub open spec fn text_at(self, key: Seq<char>) -> Option<Seq<char>> {
        match self.get(key) {
            Some(v) => v.as_text(),
            None => None,
        }
    }

    /// The member with a key, when it is an array.
    pub open spec fn array_at(self, key: Seq<char>) -> Option<Seq<JsonView>> {
        match self.get(key) {
            Some(v) => v.as_array(),
            None => None,
        }
    }

    /// The string at a key, or the empty text.
    pub open spec fn text_or_empty(self, key: Seq<char>) -> Seq<char> {
        match self.text_at(key) {
            Some(s) => s,
            None => Seq::empty(),
        }
    }
}

/// The views of a sequence of values.
pub open spec fn json_views(a: Seq<Json>) -> Seq<JsonView> {
    Seq::new(a.len(), |i: int| a[i]@)
}

impl Json {
    /// The member of an object with the given key.
    pub fn get(&self, key: &str) -> (r: Option<&Json>)
        ensures
            match r {
                Some(v) => self@.get(key@) == Some(v@),
                None => self@.get(key@) is None,
            },
    {
        match self {
            Json::Object(o) => {
                let ghost view = self@->Object_0;
                let mut i: usize = 0;
                while i < o.len()
                    invariant
                        i <= o@.len(),
                        *self == Json::Object(*o),
                        view == self@->Object_0,
                        self@.get(key@) == member_from(view, key@, i as int),
                        view.len() == o@.len(),
                    decreases o@.len() - i,
                {
                    let member = &o[i];
                    assert(view[i as int] == (member.0@, member.1@));
                    if same(member.0.as_str(), key) {
                        return Some(&member.1);
                    }
                    i += 1;
                }
                None
            },
            _ => None,
        }
    }

    /// The text of a string.
    pub fn as_text(&self) -> (r: Option<&str>)
        ensures
            match r {
                Some(s) => self@.as_text() == Some(s@),
                None => self@.as_text() is None,
            },
    {
        match self {
            Json::Text(s) => Some(s.as_str()),
            _ => None,
        }
    }

    /// The elements of an array.
    pub fn as_array(&self) -> (r: Option<&Vec<Json>>)
        ensures
            match r {
                Some(a) => self@.as_array() == Some(json_views(a@)),
                None => self@.as_array() is None,
            },
    {
        match self {
            Json::Array(a) => {
                assert(self@->Array_0 =~= json_views(a@));
                Some(a)
            },
            _ => None,
        }
    }

    /// The value of an unsigned integer.
    pub fn as_unsigned(&self) -> (r: Option<u64>)
        ensures
            r == self@.as_unsigned(),
    {
        match self {
            Json::Unsigned(n) => Some(*n),
            _ => None,
        }
    }

    /// The member with a key, when it is a string.
    pub fn text_at(&self, key: &str) -> (r: Option<&str>)
        ensures
            match r {
                Some(s) => self@.text_at(key@) == Some(s@),
                None => self@.text_at(key@) is None,
            },
    {
        match self.get(key) {
            Some(v) => v.as_text(),
            None => None,
        }
    }

    /// The member with a key, when it is an array.
    pub fn array_at(&self, key: &str) -> (r: Option<&Vec<Json>>)
        ensures
            match r {
                Some(a) => self@.array_at(key@) == Some(json_views(a@)),
                None => self@.array_at(key@) is None,
            },
    {
        match self.get(key) {
            Some(v) => v.as_array(),
            None => None,
        }
    }

    /// The string at a key, or the empty text.
    pub fn text_or_empty(&self, key: &str) -> (r: String)
        ensures
            r@ == self@.text_or_empty(key@),
    {
        match self.text_at(key) {
            Some(s) => s.to_owned(),
            None => String::new(),
        }
    }
}

impl Clone for Json {
    fn clone(&self) -> (r: Self)
        ensures
            r@ == self@,
        decreases self,
    {
        match self {
            Json::Null => Json::Null,
            Json::Bool(b) => Json::Bool(*b),
            Json::Unsigned(n) => Json::Unsigned(*n),
            Json::Number(n) => Json::Number(n.clone()),
            Json::Text(s) => Json::Text(s.clone()),
            Json::Array(a) => {
                let mut out: Vec<Json> = Vec::new();
                let mut i: usize = 0;
                while i < a.len()
                    invariant
                        i <= a@.len(),
                        out@.len() == i,
                        *self == Json::Array(*a),
                        forall|k: int| 0 <= k < i ==> (#[trigger] out@[k])@ == a@[k]@,
                    decreases a@.len() - i,
                {
                    let item = &a[i];
                    assert(decreases_to!(self => self->Array_0@[i as int]));
                    out.push(item.clone());
                    i += 1;
                }
                let r = Json::Array(out);
                assert(r@->Array_0 =~= self@->Array_0);
                r
            },
            Json::Object(o) => {
                let mut out: Vec<(String, Json)> = Vec::new();
                let mut i: usize = 0;
                while i < o.len()
                    invariant
                        i <= o@.len(),
                        out@.len() == i,
                        *self == Json::Object(*o),
                        forall|k: int|
                            0 <= k < i ==> (#[trigger] out@[k]).0@ == o@[k].0@ && out@[k].1@
                                == o@[k].1@,
                    decreases o@.len() - i,
                {
                    let member = &o[i];
                    assert(decreases_to!(self => self->Object_0@[i as int].1));
                    out.push((member.0.clone(), member.1.clone()));
                    i += 1;
                }
                let r = Json::Object(out);
                assert(r@->Object_0 =~= self@->Object_0);
                r
            },
        }
    }
}

/// How deeply arrays and objects are nested.
pub open spec fn depth(v: JsonView) -> nat
    decreases v, 1int,
{
    match v {
        JsonView::Array(a) => 1 + array_depth(a, 0),
        JsonView::Object(o) => 1 + object_depth(o, 0),
        _ => 0,
    }
}

/// The greatest depth of the elements from position `i` on.
pub open spec fn array_depth(a: Seq<JsonView>, i: int) -> nat
    decreases a, 0int, a.len() - i,
{
    if 0 <= i < a.len() {
        let here = depth(a[i]);
        let rest = array_depth(a, i + 1);
        if here > rest {
            here
        } else {
            rest
        }
    } else {
        0
    }
}

/// The greatest depth of the members from position `i` on.
pub open spec fn object_depth(o: Seq<(Seq<char>, JsonView)>, i: int) -> nat
    decreases o, 0int, o.len() - i,
{
    if 0 <= i < o.len() {
        let here = depth(o[i].1);
        let rest = object_depth(o, i + 1);
        if here > rest {
            here
        } else {
            rest
        }
    } else {
        0
    }
}

/// Whether a tree holds no number besides unsigned integers, and the keys of
/// each of its objects are in strictly ascending order.
pub open spec fn plain(v: JsonView) -> bool
    decreases v,
{
    match v {
        JsonView::Number(_) => false,
        JsonView::Array(a) => forall|i: int| 0 <= i < a.len() ==> plain(#[trigger] a[i]),
        JsonView::Object(o) => {
            &&& forall|i: int, j: int|
                0 <= i < j < o.len() ==> text_before(#[trigger] o[i].0, #[trigger] o[j].0)
            &&& forall|i: int| 0 <= i < o.len() ==> plain((#[trigger] o[i]).1)
        },
        _ => true,
    }
}

/// The value that `serde_json::from_str` reads out of a text.
pub uninterp spec fn read_json(s: Seq<char>) -> Option<JsonView>;

/// Whether a character is one of the blanks that may stand around JSON.
pub open spec fn json_blank(c: char) -> bool {
    c == ' ' || c == '\n' || c == '\t' || c == '\r'
}

/// Whether a text has the outline of JSON, by its first and its last character:
/// what starts with a brace ends with one, and a brace stands nowhere but in an
/// object, an array or a string.
pub open spec fn json_outline(s: Seq<char>) -> bool {
    &&& s.len() > 0
    &&& s[0] == '{' && !json_blank(s.last()) ==> s.last() == '}'
    &&& s.contains('{') && !json_blank(s[0]) ==> s[0] == '{' || s[0] == '[' || s[0] == '"'
}

/// The value of a text, if it is JSON.
pub open spec fn json_of(s: Seq<char>) -> Option<JsonView> {
    if json_outline(s) {
        read_json(s)
    } else {
        None
    }
}

/// The tree of nulls, booleans, numbers, strings, arrays and objects that a
/// `serde_json::Value` holds.
pub uninterp spec fn value_tree(v: serde_json::Value) -> JsonView;

/// The tree that a `serde_json::Value` built from `v` holds: the members of
/// each object in the order of `serde_json`'s map, one for each key.
pub uninterp spec fn ordered_tree(v: JsonView) -> JsonView;

/// The text that `serde_json::Value`'s `to_string` writes for a tree.
pub uninterp spec fn json_text(v: JsonView) -> Seq<char>;

/// The text written for a JSON value.
pub open spec fn rendered(v: JsonView) -> Seq<char> {
    json_text(ordered_tree(v))
}

/// Calls `serde_json::from_str` for a `Value`. Which texts are JSON, and what
/// each of them holds, is only named, but for a text without the outline of JSON
/// never being it: the first character that is no blank tells what is read, only
/// an object, an array or a string has braces in it, an object ends with one, and
/// nothing but blanks may follow.
#[verifier::external_body]
fn parse_value(s: &str) -> (r: Result<serde_json::Value, serde_json::Error>)
    ensures
        match r {
            Ok(v) => json_outline(s@) && read_json(s@) == Some(value_tree(v)),
            Err(_) => !json_outline(s@) || read_json(s@) is None,
        },
{
    serde_json::from_str::<serde_json::Value>(s)
}

/// Takes a `serde_json::Value` apart, variant by variant; members of an object
/// come in the order in which its map is walked.
#[verifier::external_body]
fn from_value(v: serde_json::Value) -> (r: Json)
    ensures
        r@ == value_tree(v),
{
    match v {
        serde_json::Value::Null => Json::Null,
        serde_json::Value::Bool(b) => Json::Bool(b),
        serde_json::Value::Number(n) => match n.as_u64() {
            Some(u) => Json::Unsigned(u),
            None => Json::Number(n),
        },
        serde_json::Value::String(s) => Json::Text(s),
        serde_json::Value::Array(a) => Json::Array(a.into_iter().map(from_value).collect()),
        serde_json::Value::Object(o) => {
            Json::Object(o.into_iter().map(|(k, v)| (k, from_value(v))).collect())
        },
    }
}

/// Builds a `serde_json::Value`, variant by variant. The map of an object
/// orders its members by key and keeps one of each, so the tree is only
/// promised to stay as it is when it is already so ordered.
#[verifier::external_body]
fn to_value(j: &Json) -> (r: serde_json::Value)
    ensures
        plain(j@) ==> value_tree(r) == j@,
        value_tree(r) == ordered_tree(j@),
{
    match j {
        Json::Null => serde_json::Value::Null,
        Json::Bool(b) => serde_json::Value::Bool(*b),
        Json::Unsigned(n) => serde_json::Value::Number((*n).into()),
        Json::Number(n) => serde_json::Value::Number(n.clone()),
        Json::Text(s) => serde_json::Value::String(s.clone()),
        Json::Array(a) => serde_json::Value::Array(a.iter().map(to_value).collect()),
        Json::Object(o) => serde_json::Value::Object(
            o.iter().map(|(k, v)| (k.clone(), to_value(v))).collect(),
        ),
    }
}

/// Calls `to_string` of `serde_json::Value`. The text is only named, and reads
/// back as the same tree unless it holds other numbers than unsigned integers
/// or is nested more deeply than `serde_json` reads.
#[verifier::external_body]
fn value_text(v: &serde_json::Value) -> (r: String)
    ensures
        r@ == json_text(value_tree(*v)),
        plain(value_tree(*v)) && depth(value_tree(*v)) < 128 ==> json_outline(r@) && read_json(r@)
            == Some(value_tree(*v)),
{
    v.to_string()
}

/// Reads a JSON text.
pub fn parse(s: &str) -> (r: Option<Json>)
    ensures
        match r {
            Some(j) => json_of(s@) == Some(j@),
            None => json_of(s@) is None,
        },
{
    match parse_value(s) {
        Ok(v) => Some(from_value(v)),
        Err(_) => None,
    }
}

/// Writes a JSON text.
pub fn render(j: &Json) -> (r: String)
    ensures
        r@ == rendered(j@),
        plain(j@) ==> r@ == json_text(j@),
        plain(j@) && depth(j@) < 128 ==> json_of(r@) == Some(j@),
{
    let v = to_value(j);
    value_text(&v)
}

/// The views of the members of an object.
pub open spec fn members(o: Seq<(String, Json)>) -> Seq<(Seq<char>, JsonView)> {
    Seq::new(o.len(), |i: int| (o[i].0@, o[i].1@))
}

/// An object, from its members.
pub fn object(o: Vec<(String, Json)>) -> (r: Json)
    ensures
        r@ == JsonView::Object(members(o@)),
{
    let r = Json::Object(o);
    assert(r@->Object_0 =~= members(o@));
    r
}

/// An array, from its elements.
pub fn array(a: Vec<Json>) -> (r: Json)
    ensures
        r@ == JsonView::Array(json_views(a@)),
{
    let r = Json::Array(a);
    assert(r@->Array_0 =~= json_views(a@));
    r
}

/// A string.
pub fn text(s: &str) -> (r: Json)
    ensures
        r@ == JsonView::Text(s@),
{
    Json::Text(s.to_owned())
}

/// A member is found by its key at whatever place it stands, the first of them where
/// a key occurs twice; it is read as a text or as an array where it is one, and a
/// key that does not occur is not found.
pub proof fn law_a_member_is_found_by_its_key(
    o: Seq<(Seq<char>, JsonView)>,
    key: Seq<char>,
    i: int,
)
    requires
        0 <= i <= o.len(),
        forall|k: int| 0 <= k < i ==> (#[trigger] o[k]).0 != key,
        i < o.len() ==> o[i].0 == key,
    ensures
        ({
            let v = JsonView::Object(o);
            &&& i == o.len() ==> v.get(key) is None && v.text_at(key) is None && v.array_at(
                key,
            ) is None && v.text_or_empty(key).len() == 0
            &&& i < o.len() ==> v.get(key) == Some(o[i].1)
            &&& i < o.len() ==> match o[i].1 {
                JsonView::Text(s) => v.text_at(key) == Some(s) && v.text_or_empty(key) == s
                    && v.array_at(key) is None,
                JsonView::Array(a) => v.array_at(key) == Some(a) && v.text_at(key) is None
                    && v.text_or_empty(key).len() == 0,
                _ => v.text_at(key) is None && v.array_at(key) is None && v.text_or_empty(
                    key,
                ).len() == 0,
            }
        }),
{
    lemma_member_from(o, key, 0, i);
}

proof fn lemma_member_from(o: Seq<(Seq<char>, JsonView)>, key: Seq<char>, j: int, i: int)
    requires
        0 <= j <= i <= o.len(),
        forall|k: int| 0 <= k < i ==> (#[trigger] o[k]).0 != key,
        i < o.len() ==> o[i].0 == key,
    ensures
        member_from(o, key, j) == (if i < o.len() {
            Some(o[i].1)
        } else {
            None
        }),
    decreases i - j,
{
    if j < i {
        assert(o[j].0 != key);
        lemma_member_from(o, key, j + 1, i);
    }
}

/// Only an object has members, and only an unsigned integer is a number that
/// counts.
pub proof fn law_other_values_have_no_members(v: JsonView, key: Seq<char>)
    ensures
        !(v is Object) ==> v.get(key) is None && v.text_at(key) is None && v.array_at(key) is None
            && v.text_or_empty(key).len() == 0,
        v is Unsigned ==> v.as_unsigned() == Some(v->Unsigned_0),
        !(v is Unsigned) ==> v.as_unsigned() is None,
        v is Text ==> v.as_text() == Some(v->Text_0),
        !(v is Text) ==> v.as_text() is None,
        v is Array ==> v.as_array() == Some(v->Array_0),
        !(v is Array) ==> v.as_array() is None,
{
}

} // verus!

//! JSON documents: a tree of plain values, read and written by `serde_json`.

use serde_json::Value;
use vstd::prelude::*;
use vstd::utf8::{decode_utf8, valid_utf8};

use crate::text::{same, texts};

verus! {

/// `serde_json::Value`, a JSON document in `serde_json`'s own form.
#[verifier::external_type_specification]
#[verifier::external_body]
pub struct ExValue(serde_json::Value);

/// `serde_json::Error`, why a text is no JSON document.
#[verifier::external_type_specification]
#[verifier::external_body]
pub struct ExError(serde_json::Error);

/// A JSON number: an unsigned integer, a negative one, or one with a fraction
/// or an exponent, whose value is not kept.
#[derive(Clone, Copy)]
pub enum JsonNumber {
    Unsigned(u64),
    Negative(i64),
    Float,
}

/// What a JSON document says. The order of an object's keys says nothing.
pub enum JsonView {
    Null,
    Bool(bool),
    Number(JsonNumber),
    Str(Seq<char>),
    Array(Seq<JsonView>),
    Object(Map<Seq<char>, JsonView>),
}

/// A JSON document. Where an object lists a key twice, the later value counts.
pub enum Json {
    Null,
    Bool(bool),
    Number(JsonNumber),
    Str(String),
    Array(Vec<Json>),
    Object(Vec<(String, Json)>),
}

/// The object with these members, entered one after the other.
pub open spec fn members(pairs: Seq<(Seq<char>, JsonView)>) -> Map<Seq<char>, JsonView>
    decreases pairs.len(),
{
    if pairs.len() == 0 {
        Map::empty()
    } else {
        members(pairs.drop_last()).insert(pairs.last().0, pairs.last().1)
    }
}

impl View for Json {
    type V = JsonView;

    open spec fn view(&self) -> JsonView {
        tree(*self)
    }
}

/// What a document says.
pub open spec fn tree(j: Json) -> JsonView
    decreases j,
{
    match j {
        Json::Null => JsonView::Null,
        Json::Bool(b) => JsonView::Bool(b),
        Json::Number(n) => JsonView::Number(n),
        Json::Str(s) => JsonView::Str(s@),
        Json::Array(a) => JsonView::Array(trees(a@)),
        Json::Object(o) => JsonView::Object(members(pair_trees(o@))),
    }
}

/// What each of the documents says.
pub open spec fn trees(a: Seq<Json>) -> Seq<JsonView>
    decreases a,
{
    if a.len() == 0 {
        Seq::empty()
    } else {
        trees(a.subrange(0, a.len() - 1)).push(tree(a[a.len() - 1]))
    }
}

/// What each of the members says.
pub open spec fn pair_trees(o: Seq<(String, Json)>) -> Seq<(Seq<char>, JsonView)>
    decreases o,
{
    if o.len() == 0 {
        Seq::empty()
    } else {
        pair_trees(o.subrange(0, o.len() - 1)).push((o[o.len() - 1].0@, tree(o[o.len() - 1].1)))
    }
}

/// The documents say what they say one by one.
pub proof fn trees_one_by_one(a: Seq<Json>)
    ensures
        trees(a) == a.map_values(|j: Json| j@),
    decreases a.len(),
{
    if a.len() > 0 {
        trees_one_by_one(a.subrange(0, a.len() - 1));
    }
    assert(trees(a) =~= a.map_values(|j: Json| j@));
}

/// The members say what they say one by one.
pub proof fn pair_trees_one_by_one(o: Seq<(String, Json)>)
    ensures
        pair_trees(o) == o.map_values(|p: (String, Json)| (p.0@, p.1@)),
    decreases o.len(),
{
    if o.len() > 0 {
        pair_trees_one_by_one(o.subrange(0, o.len() - 1));
    }
    assert(pair_trees(o) =~= o.map_values(|p: (String, Json)| (p.0@, p.1@)));
}

impl JsonView {
    /// The member `key` of an object.
    pub open spec fn get(self, key: Seq<char>) -> Option<JsonView> {
        match self {
            JsonView::Object(m) => if m.contains_key(key) {
                Some(m[key])
            } else {
                None
            },
            _ => None,
        }
    }

    pub open spec fn text(self) -> Option<Seq<char>> {
        match self {
            JsonView::Str(s) => Some(s),
            _ => None,
        }
    }

    pub open spec fn flag(self) -> Option<bool> {
        match self {
            JsonView::Bool(b) => Some(b),
            _ => None,
        }
    }

    pub open spec fn items(self) -> Option<Seq<JsonView>> {
        match self {
            JsonView::Array(a) => Some(a),
            _ => None,
        }
    }

    /// The number as a `u64`, where it is one.
    pub open spec fn unsigned(self) -> Option<u64> {
        match self {
            JsonView::Number(JsonNumber::Unsigned(n)) => Some(n),
            _ => None,
        }
    }

    /// The number as an `i64`, where it is one.
    pub open spec fn signed(self) -> Option<i64> {
        match self {
            JsonView::Number(JsonNumber::Unsigned(n)) => if n <= i64::MAX {
                Some(n as i64)
            } else {
                None
            },
            JsonView::Number(JsonNumber::Negative(n)) => Some(n),
            _ => None,
        }
    }

    /// The text that the member `key` holds.
    pub open spec fn text_at(self, key: Seq<char>) -> Option<Seq<char>> {
        match self.get(key) {
            Some(v) => v.text(),
            None => None,
        }
    }

    /// The flag that the member `key` holds.
    pub open spec fn flag_at(self, key: Seq<char>) -> Option<bool> {
        match self.get(key) {
            Some(v) => v.flag(),
            None => None,
        }
    }

    /// The list that the member `key` holds.
    pub open spec fn items_at(self, key: Seq<char>) -> Option<Seq<JsonView>> {
        match self.get(key) {
            Some(v) => v.items(),
            None => None,
        }
    }

    /// The `u64` that the member `key` holds.
    pub open spec fn unsigned_at(self, key: Seq<char>) -> Option<u64> {
        match self.get(key) {
            Some(v) => v.unsigned(),
            None => None,
        }
    }

    /// The `i64` that the member `key` holds.
    pub open spec fn signed_at(self, key: Seq<char>) -> Option<i64> {
        match self.get(key) {
            Some(v) => v.signed(),
            None => None,
        }
    }

    /// Holds no float, and lists and objects stand at most `depth` deep in
    /// each other.
    pub open spec fn plain_within(self, depth: nat) -> bool
        decreases depth,
    {
        match self {
            JsonView::Number(n) => n !is Float,
            JsonView::Array(a) => depth > 0 && forall|i: int|
                0 <= i < a.len() ==> (#[trigger] a[i]).plain_within((depth - 1) as nat),
            JsonView::Object(m) => depth > 0 && forall|k: Seq<char>|
                m.contains_key(k) ==> (#[trigger] m[k]).plain_within((depth - 1) as nat),
            _ => true,
        }
    }
}

/// The texts among the items of a list.
pub open spec fn texts_among(a: Seq<JsonView>) -> Seq<Seq<char>>
    decreases a.len(),
{
    if a.len() == 0 {
        Seq::empty()
    } else {
        match a.last().text() {
            Some(s) => texts_among(a.drop_last()).push(s),
            None => texts_among(a.drop_last()),
        }
    }
}

proof fn lemma_members_found(pairs: Seq<(Seq<char>, JsonView)>, i: int)
    requires
        0 <= i < pairs.len(),
        forall|j: int| i < j < pairs.len() ==> pairs[j].0 != pairs[i].0,
    ensures
        members(pairs).contains_key(pairs[i].0),
        members(pairs)[pairs[i].0] == pairs[i].1,
    decreases pairs.len(),
{
    if i < pairs.len() - 1 {
        lemma_members_found(pairs.drop_last(), i);
        assert(pairs.last().0 != pairs[i].0);
    }
}

proof fn lemma_members_absent(pairs: Seq<(Seq<char>, JsonView)>, key: Seq<char>)
    requires
        forall|j: int| 0 <= j < pairs.len() ==> pairs[j].0 != key,
    ensures
        !members(pairs).contains_key(key),
    decreases pairs.len(),
{
    if pairs.len() > 0 {
        lemma_members_absent(pairs.drop_last(), key);
        assert(pairs.last().0 != key);
    }
}

proof fn lemma_members_finite(pairs: Seq<(Seq<char>, JsonView)>)
    ensures
        members(pairs).dom().finite(),
    decreases pairs.len(),
{
    if pairs.len() > 0 {
        lemma_members_finite(pairs.drop_last());
    }
}

impl Json {
    /// The member `key` of an object.
    pub fn get(&self, key: &str) -> (r: Option<&Json>)
        ensures
            r is Some <==> self@.get(key@) is Some,
            r is Some ==> r->0@ == self@.get(key@)->0,
    {
        match self {
            Json::Object(o) => {
                let ghost ps = pair_trees(o@);
                proof {
                    pair_trees_one_by_one(o@);
                }
                let mut i: usize = o.len();
                while i > 0
                    invariant
                        i <= o@.len(),
                        ps == o@.map_values(|p: (String, Json)| (p.0@, p.1@)),
                        self@ == JsonView::Object(members(ps)),
                        forall|j: int| i <= j < o@.len() ==> ps[j].0 != key@,
                    decreases i,
                {
                    i = i - 1;
                    if same(o[i].0.as_str(), key) {
                        proof {
                            lemma_members_found(ps, i as int);
                        }
                        return Some(&o[i].1);
                    }
                }
                proof {
                    lemma_members_absent(ps, key@);
                }
                None
            },
            _ => None,
        }
    }

    /// The text of a string.
    pub fn as_str(&self) -> (r: Option<String>)
        ensures
            crate::text::opt_text(r) == self@.text(),
    {
        match self {
            Json::Str(s) => Some(s.clone()),
            _ => None,
        }
    }

    /// The value of a boolean.
    pub fn as_bool(&self) -> (r: Option<bool>)
        ensures
            r == self@.flag(),
    {
        match self {
            Json::Bool(b) => Some(*b),
            _ => None,
        }
    }

    /// The items of a list.
    pub fn as_array(&self) -> (r: Option<&Vec<Json>>)
        ensures
            r is Some <==> self@.items() is Some,
            r is Some ==> self@.items()->0 == r->0@.map_values(|j: Json| j@),
    {
        match self {
            Json::Array(a) => {
                proof {
                    trees_one_by_one(a@);
                }
                Some(a)
            },
            _ => None,
        }
    }

    /// An unsigned integer.
    pub fn as_u64(&self) -> (r: Option<u64>)
        ensures
            r == self@.unsigned(),
    {
        match self {
            Json::Number(JsonNumber::Unsigned(n)) => Some(*n),
            _ => None,
        }
    }

    /// An integer.
    pub fn as_i64(&self) -> (r: Option<i64>)
        ensures
            r == self@.signed(),
    {
        match self {
            Json::Number(JsonNumber::Unsigned(n)) => if *n <= i64::MAX as u64 {
                Some(*n as i64)
            } else {
                None
            },
            Json::Number(JsonNumber::Negative(n)) => Some(*n),
            _ => None,
        }
    }

    /// The text that the member `key` holds.
    pub fn str_at(&self, key: &str) -> (r: Option<String>)
        ensures
            crate::text::opt_text(r) == self@.text_at(key@),
    {
        match self.get(key) {
            Some(v) => v.as_str(),
            None => None,
        }
    }

    /// The flag that the member `key` holds.
    pub fn bool_at(&self, key: &str) -> (r: Option<bool>)
        ensures
            r == self@.flag_at(key@),
    {
        match self.get(key) {
            Some(v) => v.as_bool(),
            None => None,
        }
    }

    /// The list that the member `key` holds.
    pub fn array_at(&self, key: &str) -> (r: Option<&Vec<Json>>)
        ensures
            r is Some <==> self@.items_at(key@) is Some,
            r is Some ==> self@.items_at(key@)->0 == r->0@.map_values(|j: Json| j@),
    {
        match self.get(key) {
            Some(v) => v.as_array(),
            None => None,
        }
    }

    /// The unsigned integer that the member `key` holds.
    pub fn u64_at(&self, key: &str) -> (r: Option<u64>)
        ensures
            r == self@.unsigned_at(key@),
    {
        match self.get(key) {
            Some(v) => v.as_u64(),
            None => None,
        }
    }

    /// The integer that the member `key` holds.
    pub fn i64_at(&self, key: &str) -> (r: Option<i64>)
        ensures
            r == self@.signed_at(key@),
    {
        match self.get(key) {
            Some(v) => v.as_i64(),
            None => None,
        }
    }
}

/// What a `serde_json::Value` says.
pub uninterp spec fn json_tree(v: Value) -> JsonView;

/// What `serde_json::from_str` reads from a text that is JSON, and how it says
/// what is wrong with another.
pub uninterp spec fn json_reading(s: Seq<char>) -> Result<JsonView, Seq<char>>;

/// What a text says, where it is JSON.
pub open spec fn parsed_json(s: Seq<char>) -> Option<JsonView> {
    match json_reading(s) {
        Ok(j) => Some(j),
        Err(_) => None,
    }
}

/// What bytes say, where they are JSON in UTF-8.
pub open spec fn parsed_json_bytes(b: Seq<u8>) -> Option<JsonView> {
    if valid_utf8(b) {
        parsed_json(decode_utf8(b))
    } else {
        None
    }
}

/// How `serde_json::from_slice` says what is wrong with bytes that are not JSON.
pub uninterp spec fn json_bytes_fault(b: Seq<u8>) -> Seq<char>;

/// The text that `serde_json::to_string_pretty` writes for a document.
pub uninterp spec fn pretty_json(t: JsonView) -> Seq<char>;

/// One level of a `Value`, its parts still in `serde_json`'s form.
pub(crate) enum ValueNode<'a> {
    Null,
    Bool(bool),
    Number(JsonNumber),
    Str(&'a String),
    Array(&'a Vec<Value>),
    Object(Vec<(&'a String, &'a Value)>),
}

/// What one level of a `Value` says.
pub(crate) open spec fn node_tree(n: ValueNode) -> JsonView {
    match n {
        ValueNode::Null => JsonView::Null,
        ValueNode::Bool(b) => JsonView::Bool(b),
        ValueNode::Number(x) => JsonView::Number(x),
        ValueNode::Str(s) => JsonView::Str(s@),
        ValueNode::Array(a) => JsonView::Array(a@.map_values(|v: Value| json_tree(v))),
        ValueNode::Object(o) => JsonView::Object(
            members(o@.map_values(|p: (&String, &Value)| (p.0@, json_tree(*p.1)))),
        ),
    }
}

/// `serde_json::from_str` for a `Value`: it reads a text as [`json_reading`]
/// names it, or refuses it with an error whose text is named there too.
#[verifier::external_body]
fn value_from_str(text: &str) -> (r: Result<Value, String>)
    ensures
        match r {
            Ok(v) => json_reading(text@) == Ok::<JsonView, Seq<char>>(json_tree(v)),
            Err(e) => json_reading(text@) == Err::<JsonView, Seq<char>>(e@),
        },
{
    match serde_json::from_str(text) {
        Ok(v) => Ok(v),
        Err(e) => Err(e.to_string()),
    }
}

/// `serde_json::from_slice` for a `Value`: it reads the bytes of a text as
/// `from_str` reads the text, and refuses bytes that are not UTF-8. The text of
/// its error is named by [`json_bytes_fault`].
#[verifier::external_body]
fn value_from_slice(bytes: &[u8]) -> (r: Result<Value, String>)
    ensures
        r is Ok <==> parsed_json_bytes(bytes@) is Some,
        r is Ok ==> json_tree(r->Ok_0) == parsed_json_bytes(bytes@)->0,
        r is Err ==> r->Err_0@ == json_bytes_fault(bytes@),
{
    match serde_json::from_slice(bytes) {
        Ok(v) => Ok(v),
        Err(e) => Err(e.to_string()),
    }
}

/// The variants of `serde_json::Value`, with the numbers by
/// `Number::as_u64` and `Number::as_i64` and the members of an object by
/// `Map::iter`: the level that comes out says what the value says, and an
/// object lists each key once.
#[verifier::external_body]
fn value_node<'a>(v: &'a Value) -> (n: ValueNode<'a>)
    ensures
        node_tree(n) == json_tree(*v),
        n matches ValueNode::Object(o) ==> forall|i: int, j: int|
            0 <= i < j < o@.len() ==> o@[i].0@ != o@[j].0@,
{
    match v {
        Value::Null => ValueNode::Null,
        Value::Bool(b) => ValueNode::Bool(*b),
        Value::Number(x) => ValueNode::Number(match (x.as_u64(), x.as_i64()) {
            (Some(u), _) => JsonNumber::Unsigned(u),
            (None, Some(i)) => JsonNumber::Negative(i),
            (None, None) => JsonNumber::Float,
        }),
        Value::String(s) => ValueNode::Str(s),
        Value::Array(a) => ValueNode::Array(a),
        Value::Object(m) => ValueNode::Object(m.iter().collect()),
    }
}

/// The document that a `Value` is.
fn from_value(v: &Value) -> (j: Json)
    ensures
        j@ == json_tree(*v),
    decreases json_tree(*v),
{
    match value_node(v) {
        ValueNode::Null => Json::Null,
        ValueNode::Bool(b) => Json::Bool(b),
        ValueNode::Number(n) => Json::Number(n),
        ValueNode::Str(s) => Json::Str(s.clone()),
        ValueNode::Array(a) => {
            let ghost items = a@.map_values(|v: Value| json_tree(v));
            let mut out: Vec<Json> = Vec::new();
            let mut i: usize = 0;
            while i < a.len()
                invariant
                    i <= a@.len(),
                    items == a@.map_values(|v: Value| json_tree(v)),
                    json_tree(*v) == JsonView::Array(items),
                    out@.map_values(|j: Json| j@) == items.take(i as int),
                decreases a@.len() - i,
            {
                assert(items[i as int] == json_tree(a@[i as int]));
                assert(decreases_to!(json_tree(*v) => json_tree(*v)->Array_0));
                let j = from_value(&a[i]);
                let ghost o0 = out@;
                out.push(j);
                i = i + 1;
                assert(out@.map_values(|j: Json| j@) =~= o0.map_values(|j: Json| j@).push(j@));
                assert(items.take(i as int) =~= items.take(i - 1).push(items[i - 1]));
            }
            proof {
                assert(items.take(i as int) =~= items);
                trees_one_by_one(out@);
            }
            Json::Array(out)
        },
        ValueNode::Object(o) => {
            let ghost pairs = o@.map_values(|p: (&String, &Value)| (p.0@, json_tree(*p.1)));
            let mut out: Vec<(String, Json)> = Vec::new();
            let mut i: usize = 0;
            while i < o.len()
                invariant
                    i <= o@.len(),
                    pairs == o@.map_values(|p: (&String, &Value)| (p.0@, json_tree(*p.1))),
                    json_tree(*v) == JsonView::Object(members(pairs)),
                    forall|i: int, j: int| 0 <= i < j < o@.len() ==> o@[i].0@ != o@[j].0@,
                    out@.map_values(|p: (String, Json)| (p.0@, p.1@)) == pairs.take(i as int),
                decreases o@.len() - i,
            {
                let ghost m = members(pairs);
                proof {
                    assert(pairs[i as int].1 == json_tree(*o@[i as int].1));
                    lemma_members_found(pairs, i as int);
                    lemma_members_finite(pairs);
                    assert(decreases_to!(m => m[pairs[i as int].0]));
                    assert(decreases_to!(json_tree(*v) => json_tree(*v)->Object_0));
                }
                let j = from_value(o[i].1);
                let ghost o0 = out@;
                out.push((o[i].0.clone(), j));
                i = i + 1;
                assert(out@.map_values(|p: (String, Json)| (p.0@, p.1@)) =~= o0.map_values(
                    |p: (String, Json)| (p.0@, p.1@),
                ).push((o@[i - 1].0@, j@)));
                assert(pairs.take(i as int) =~= pairs.take(i - 1).push(pairs[i - 1]));
            }
            proof {
                assert(pairs.take(i as int) =~= pairs);
                pair_trees_one_by_one(out@);
            }
            Json::Object(out)
        },
    }
}

/// Read a text as JSON, or say why it is not JSON.
pub fn parse_json(text: &str) -> (r: Result<Json, String>)
    ensures
        match r {
            Ok(j) => json_reading(text@) == Ok::<JsonView, Seq<char>>(j@),
            Err(e) => json_reading(text@) == Err::<JsonView, Seq<char>>(e@),
        },
{
    match value_from_str(text) {
        Ok(v) => Ok(from_value(&v)),
        Err(e) => Err(e),
    }
}

/// Read bytes as JSON, or say why they are not JSON.
pub fn parse_json_bytes(bytes: &[u8]) -> (r: Result<Json, String>)
    ensures
        r is Ok <==> parsed_json_bytes(bytes@) is Some,
        r is Ok ==> r->Ok_0@ == parsed_json_bytes(bytes@)->0,
        r is Err ==> r->Err_0@ == json_bytes_fault(bytes@),
{
    match value_from_slice(bytes) {
        Ok(v) => Ok(from_value(&v)),
        Err(e) => Err(e),
    }
}

/// One level of a document to be written, its parts already in `serde_json`'s
/// form.
pub(crate) enum ValueParts {
    Null,
    Bool(bool),
    Unsigned(u64),
    Negative(i64),
    Str(String),
    Array(Vec<Value>),
    Object(Vec<(String, Value)>),
}

/// What one level of a document to be written says.
pub(crate) open spec fn parts_tree(n: ValueParts) -> JsonView {
    match n {
        ValueParts::Null => JsonView::Null,
        ValueParts::Bool(b) => JsonView::Bool(b),
        ValueParts::Unsigned(x) => JsonView::Number(JsonNumber::Unsigned(x)),
        ValueParts::Negative(x) => JsonView::Number(JsonNumber::Negative(x)),
        ValueParts::Str(s) => JsonView::Str(s@),
        ValueParts::Array(a) => JsonView::Array(a@.map_values(|v: Value| json_tree(v))),
        ValueParts::Object(o) => JsonView::Object(members(value_pairs(o@))),
    }
}

/// What members in `serde_json`'s form say.
pub(crate) open spec fn value_pairs(o: Seq<(String, Value)>) -> Seq<(Seq<char>, JsonView)> {
    o.map_values(|p: (String, Value)| (p.0@, json_tree(p.1)))
}

/// No key comes twice.
pub(crate) open spec fn keys_differ(o: Seq<(String, Value)>) -> bool {
    forall|i: int, j: int| 0 <= i < j < o.len() ==> o[i].0@ != o[j].0@
}

/// The variants of `serde_json::Value`, with numbers by `Value::from` and an
/// object by collecting its members, whose keys differ, into a
/// `serde_json::Map`: the value says what its parts say.
#[verifier::external_body]
fn value_of_parts(n: ValueParts) -> (v: Value)
    requires
        n matches ValueParts::Negative(i) ==> i < 0,
        n matches ValueParts::Object(o) ==> keys_differ(o@),
    ensures
        json_tree(v) == parts_tree(n),
{
    match n {
        ValueParts::Null => Value::Null,
        ValueParts::Bool(b) => Value::Bool(b),
        ValueParts::Unsigned(x) => Value::from(x),
        ValueParts::Negative(x) => Value::from(x),
        ValueParts::Str(s) => Value::String(s),
        ValueParts::Array(a) => Value::Array(a),
        ValueParts::Object(o) => Value::Object(o.into_iter().collect()),
    }
}

/// `serde_json::to_string_pretty` for a `Value` without floats that stays
/// within the parser's limit on nesting: it succeeds, writes the text that
/// [`pretty_json`] names, and `serde_json::from_str` reads that text back as
/// the same document.
#[verifier::external_body]
fn value_to_string(v: &Value) -> (r: Result<String, serde_json::Error>)
    requires
        json_tree(*v).plain_within(127),
    ensures
        r is Ok,
        r->Ok_0@ == pretty_json(json_tree(*v)),
        parsed_json(r->Ok_0@) == Some(json_tree(*v)),
{
    serde_json::to_string_pretty(v)
}

/// The document holds no float, and its lists and objects stand at most
/// `depth` deep in each other.
pub open spec fn plain(j: Json, depth: nat) -> bool
    decreases depth,
{
    match j {
        Json::Number(JsonNumber::Unsigned(_)) => true,
        Json::Number(JsonNumber::Negative(i)) => i < 0,
        Json::Number(JsonNumber::Float) => false,
        Json::Array(a) => depth > 0 && forall|i: int|
            0 <= i < a@.len() ==> plain(#[trigger] a@[i], (depth - 1) as nat),
        Json::Object(o) => depth > 0 && forall|i: int|
            0 <= i < o@.len() ==> plain((#[trigger] o@[i]).1, (depth - 1) as nat),
        _ => true,
    }
}

proof fn lemma_member_from(pairs: Seq<(Seq<char>, JsonView)>, key: Seq<char>)
    requires
        members(pairs).contains_key(key),
    ensures
        exists|i: int|
            0 <= i < pairs.len() && (#[trigger] pairs[i]).0 == key && pairs[i].1 == members(
                pairs,
            )[key],
    decreases pairs.len(),
{
    if pairs.len() > 0 {
        if pairs.last().0 == key {
            assert(pairs[pairs.len() - 1].0 == key);
        } else {
            lemma_member_from(pairs.drop_last(), key);
            let i = choose|i: int|
                0 <= i < pairs.len() - 1 && (#[trigger] pairs.drop_last()[i]).0 == key
                    && pairs.drop_last()[i].1 == members(pairs.drop_last())[key];
            assert(pairs[i] == pairs.drop_last()[i]);
        }
    }
}

/// A plain document says something plain.
pub proof fn plain_says_plain(j: Json, depth: nat)
    requires
        plain(j, depth),
    ensures
        j@.plain_within(depth),
    decreases depth,
{
    match j {
        Json::Array(a) => {
            trees_one_by_one(a@);
            let items = trees(a@);
            assert forall|i: int| 0 <= i < items.len() implies (#[trigger] items[i]).plain_within(
                (depth - 1) as nat,
            ) by {
                assert(items[i] == a@[i]@);
                plain_says_plain(a@[i], (depth - 1) as nat);
            }
            assert(j@ == JsonView::Array(items));
        },
        Json::Object(o) => {
            pair_trees_one_by_one(o@);
            let m = members(pair_trees(o@));
            assert forall|k: Seq<char>| m.contains_key(k) implies (#[trigger] m[k]).plain_within(
                (depth - 1) as nat,
            ) by {
                lemma_member_from(pair_trees(o@), k);
                let i = choose|i: int|
                    0 <= i < o@.len() && (#[trigger] pair_trees(o@)[i]).0 == k && pair_trees(
                        o@,
                    )[i].1 == m[k];
                assert(pair_trees(o@)[i] == (o@[i].0@, o@[i].1@));
                plain_says_plain(o@[i].1, (depth - 1) as nat);
            }
        },
        _ => {},
    }
}

proof fn lemma_member_replaced(pairs: Seq<(Seq<char>, JsonView)>, i: int, v: JsonView)
    requires
        0 <= i < pairs.len(),
        forall|j: int, k: int| 0 <= j < k < pairs.len() ==> pairs[j].0 != pairs[k].0,
    ensures
        members(pairs.update(i, (pairs[i].0, v))) == members(pairs).insert(pairs[i].0, v),
    decreases pairs.len(),
{
    let u = pairs.update(i, (pairs[i].0, v));
    if i < pairs.len() - 1 {
        lemma_member_replaced(pairs.drop_last(), i, v);
        assert(u.drop_last() =~= pairs.drop_last().update(i, (pairs[i].0, v)));
        assert(pairs.last().0 != pairs[i].0);
    } else {
        assert(u.drop_last() =~= pairs.drop_last());
    }
    assert(members(u) =~= members(pairs).insert(pairs[i].0, v));
}

/// Enter a member into an object whose keys differ; a value that the key had
/// before is replaced.
fn enter_member(out: &mut Vec<(String, Value)>, key: &String, v: Value)
    requires
        keys_differ(old(out)@),
    ensures
        keys_differ(final(out)@),
        members(value_pairs(final(out)@)) == members(value_pairs(old(out)@)).insert(
            key@,
            json_tree(v),
        ),
{
    let ghost p0 = value_pairs(out@);
    let mut i: usize = 0;
    while i < out.len()
        invariant
            i <= out@.len(),
            out@ == old(out)@,
            p0 == value_pairs(out@),
            keys_differ(out@),
            forall|j: int| 0 <= j < i ==> (#[trigger] out@[j]).0@ != key@,
        decreases out@.len() - i,
    {
        if same(out[i].0.as_str(), key.as_str()) {
            let ghost before = out@;
            out.set(i, (key.clone(), v));
            proof {
                assert(p0[i as int].0 == key@);
                assert forall|j: int, k: int| 0 <= j < k < p0.len() implies p0[j].0 != p0[k].0 by {
                    assert(before[j].0@ != before[k].0@);
                }
                lemma_member_replaced(p0, i as int, json_tree(v));
                assert(value_pairs(out@) =~= p0.update(i as int, (key@, json_tree(v))));
            }
            return;
        }
        i = i + 1;
    }
    out.push((key.clone(), v));
    proof {
        assert(value_pairs(out@) =~= p0.push((key@, json_tree(v))));
        assert(p0.push((key@, json_tree(v))).drop_last() =~= p0);
    }
}

/// The document as a `Value`.
fn to_value(j: &Json, Ghost(depth): Ghost<nat>) -> (v: Value)
    requires
        plain(*j, depth),
    ensures
        json_tree(v) == j@,
    decreases depth,
{
    match j {
        Json::Null => value_of_parts(ValueParts::Null),
        Json::Bool(b) => value_of_parts(ValueParts::Bool(*b)),
        Json::Number(JsonNumber::Unsigned(n)) => value_of_parts(ValueParts::Unsigned(*n)),
        Json::Number(JsonNumber::Negative(n)) => value_of_parts(ValueParts::Negative(*n)),
        Json::Number(JsonNumber::Float) => {
            assert(false);
            value_of_parts(ValueParts::Null)
        },
        Json::Str(s) => value_of_parts(ValueParts::Str(s.clone())),
        Json::Array(a) => {
            let mut out: Vec<Value> = Vec::new();
            let mut i: usize = 0;
            while i < a.len()
                invariant
                    i <= a@.len(),
                    depth > 0,
                    forall|k: int|
                        0 <= k < a@.len() ==> plain(#[trigger] a@[k], (depth - 1) as nat),
                    out@.map_values(|v: Value| json_tree(v)) == a@.map_values(
                        |j: Json| j@,
                    ).take(i as int),
                decreases a@.len() - i,
            {
                let v = to_value(&a[i], Ghost((depth - 1) as nat));
                let ghost o0 = out@;
                out.push(v);
                i = i + 1;
                proof {
                    let all = a@.map_values(|j: Json| j@);
                    assert(out@.map_values(|v: Value| json_tree(v)) =~= o0.map_values(
                        |v: Value| json_tree(v),
                    ).push(json_tree(v)));
                    assert(all.take(i as int) =~= all.take(i - 1).push(all[i - 1]));
                }
            }
            proof {
                let all = a@.map_values(|j: Json| j@);
                assert(all.take(i as int) =~= all);
                trees_one_by_one(a@);
            }
            value_of_parts(ValueParts::Array(out))
        },
        Json::Object(o) => {
            let mut out: Vec<(String, Value)> = Vec::new();
            let mut i: usize = 0;
            while i < o.len()
                invariant
                    i <= o@.len(),
                    depth > 0,
                    forall|k: int|
                        0 <= k < o@.len() ==> plain((#[trigger] o@[k]).1, (depth - 1) as nat),
                    keys_differ(out@),
                    members(value_pairs(out@)) == members(
                        o@.map_values(|p: (String, Json)| (p.0@, p.1@)).take(i as int),
                    ),
                decreases o@.len() - i,
            {
                let v = to_value(&o[i].1, Ghost((depth - 1) as nat));
                enter_member(&mut out, &o[i].0, v);
                i = i + 1;
                proof {
                    let all = o@.map_values(|p: (String, Json)| (p.0@, p.1@));
                    assert(all.take(i as int).drop_last() =~= all.take(i - 1));
                    assert(all.take(i as int).last() == all[i - 1]);
                }
            }
            proof {
                let all = o@.map_values(|p: (String, Json)| (p.0@, p.1@));
                assert(all.take(i as int) =~= all);
                pair_trees_one_by_one(o@);
            }
            value_of_parts(ValueParts::Object(out))
        },
    }
}

/// Write a document with indentation. Read again, the text says the same.
pub fn to_string_pretty(j: &Json) -> (r: String)
    requires
        plain(*j, 127),
    ensures
        r@ == pretty_json(j@),
        parsed_json(r@) == Some(j@),
{
    proof {
        plain_says_plain(*j, 127);
    }
    let v = to_value(j, Ghost(127nat));
    match value_to_string(&v) {
        Ok(s) => s,
        Err(_) => {
            assert(false);
            String::new()
        },
    }
}

/// Each member of an object is plain.
pub open spec fn plain_members(o: Seq<(String, Json)>, depth: nat) -> bool {
    forall|i: int| 0 <= i < o.len() ==> plain((#[trigger] o[i]).1, depth)
}

/// Enter a member into an object.
pub fn put(o: &mut Vec<(String, Json)>, key: &str, value: Json)
    ensures
        members(pair_trees(final(o)@)) == members(pair_trees(old(o)@)).insert(key@, value@),
        final(o)@.len() == old(o)@.len() + 1,
        final(o)@.drop_last() == old(o)@,
        final(o)@.last().1 == value,
{
    o.push((key.to_owned(), value));
    proof {
        let n = o@.len() as int;
        assert(o@.subrange(0, n - 1) =~= old(o)@);
        assert(o@.drop_last() =~= old(o)@);
        let p = pair_trees(old(o)@);
        assert(pair_trees(o@) == p.push((key@, value@)));
        assert(p.push((key@, value@)).drop_last() =~= p);
    }
}

/// The texts among the items of a list.
pub fn texts_in(a: &Vec<Json>) -> (r: Vec<String>)
    ensures
        texts(r@) == texts_among(a@.map_values(|j: Json| j@)),
{
    let ghost all = a@.map_values(|j: Json| j@);
    let mut out: Vec<String> = Vec::new();
    let mut i: usize = 0;
    proof {
        assert(all.take(0) =~= Seq::<JsonView>::empty());
        assert(texts(out@) =~= texts_among(all.take(0)));
    }
    while i < a.len()
        invariant
            i <= a@.len() == all.len(),
            all == a@.map_values(|j: Json| j@),
            texts(out@) == texts_among(all.take(i as int)),
        decreases a@.len() - i,
    {
        assert(all.take(i + 1).drop_last() =~= all.take(i as int));
        assert(all.take(i + 1).last() == a@[i as int]@);
        match a[i].as_str() {
            Some(s) => {
                let ghost o0 = out@;
                out.push(s);
                assert(texts(out@) =~= texts(o0).push(s@));
            },
            None => {},
        }
        i = i + 1;
    }
    assert(all.take(i as int) =~= all);
    out
}

/// A list of texts.
pub open spec fn text_array(v: Seq<Seq<char>>) -> JsonView {
    JsonView::Array(v.map_values(|s: Seq<char>| JsonView::Str(s)))
}

/// A list of texts.
pub fn text_list(v: &Vec<String>) -> (r: Json)
    ensures
        r@ == text_array(texts(v@)),
        plain(r, 1),
{
    let ghost all = texts(v@).map_values(|s: Seq<char>| JsonView::Str(s));
    let mut out: Vec<Json> = Vec::new();
    let mut i: usize = 0;
    while i < v.len()
        invariant
            i <= v@.len(),
            all == texts(v@).map_values(|s: Seq<char>| JsonView::Str(s)),
            out@.map_values(|j: Json| j@) == all.take(i as int),
            forall|k: int| 0 <= k < out@.len() ==> plain(#[trigger] out@[k], 0),
        decreases v@.len() - i,
    {
        let ghost o0 = out@;
        let s = Json::Str(v[i].clone());
        out.push(s);
        i = i + 1;
        proof {
            assert(out@.map_values(|j: Json| j@) =~= o0.map_values(|j: Json| j@).push(s@));
            assert(all.take(i as int) =~= all.take(i - 1).push(all[i - 1]));
        }
    }
    proof {
        assert(all.take(i as int) =~= all);
        trees_one_by_one(out@);
    }
    Json::Array(out)
}

/// A list of texts holds those texts.
pub proof fn texts_of_text_array(v: Seq<Seq<char>>)
    ensures
        texts_among(v.map_values(|s: Seq<char>| JsonView::Str(s))) == v,
    decreases v.len(),
{
    let a = v.map_values(|s: Seq<char>| JsonView::Str(s));
    if v.len() > 0 {
        texts_of_text_array(v.drop_last());
        assert(a.drop_last() =~= v.drop_last().map_values(|s: Seq<char>| JsonView::Str(s)));
        assert(v.drop_last().push(v.last()) =~= v);
    } else {
        assert(texts_among(a) =~= v);
    }
}

/// A document that stays within a depth stays within a larger one.
pub proof fn plain_is_wider(j: Json, depth: nat, wider: nat)
    requires
        plain(j, depth),
        depth <= wider,
    ensures
        plain(j, wider),
    decreases depth,
{
    match j {
        Json::Array(a) => {
            assert forall|i: int| 0 <= i < a@.len() implies plain(
                #[trigger] a@[i],
                (wider - 1) as nat,
            ) by {
                plain_is_wider(a@[i], (depth - 1) as nat, (wider - 1) as nat);
            }
        },
        Json::Object(o) => {
            assert forall|i: int| 0 <= i < o@.len() implies plain(
                (#[trigger] o@[i]).1,
                (wider - 1) as nat,
            ) by {
                plain_is_wider(o@[i].1, (depth - 1) as nat, (wider - 1) as nat);
            }
        },
        _ => {},
    }
}

/// A member is read exactly as it is written: by its key, and only as what it is.
pub proof fn members_are_read_as_they_are(
    m: Map<Seq<char>, JsonView>,
    key: Seq<char>,
    text: Seq<char>,
    flag: bool,
    items: Seq<JsonView>,
    n: u64,
)
    ensures
        JsonView::Object(m).text_at(key) == Some(text) <==> m.contains_key(key) && m[key]
            == JsonView::Str(text),
        JsonView::Object(m).flag_at(key) == Some(flag) <==> m.contains_key(key) && m[key]
            == JsonView::Bool(flag),
        JsonView::Object(m).items_at(key) == Some(items) <==> m.contains_key(key) && m[key]
            == JsonView::Array(items),
        JsonView::Object(m).unsigned_at(key) == Some(n) <==> m.contains_key(key) && m[key]
            == JsonView::Number(JsonNumber::Unsigned(n)),
        forall|j: JsonView|
            j !is Object ==> (#[trigger] j.text_at(key)) is None && j.flag_at(key) is None
                && j.items_at(key) is None && j.unsigned_at(key) is None,
{
}

/// The texts of a list are those of its items that are texts, in order.
pub proof fn listed_texts_are_the_texts(a: Seq<JsonView>)
    ensures
        texts_among(a) == a.filter_map(
            |j: JsonView|
                match j {
                    JsonView::Str(s) => Some(s),
                    _ => None,
                },
        ),
    decreases a.len(),
{
    if a.len() > 0 {
        listed_texts_are_the_texts(a.drop_last());
    }
    let f = |j: JsonView|
        match j {
            JsonView::Str(s) => Some(s),
            _ => None,
        };
    assert(texts_among(a) =~= a.filter_map(f));
}

/// A whole number is read as it is where it fits, whatever its sign.
pub proof fn whole_numbers_are_read_as_they_are(
    m: Map<Seq<char>, JsonView>,
    key: Seq<char>,
    n: u64,
    z: i64,
)
    requires
        m.contains_key(key),
    ensures
        m[key] == JsonView::Number(JsonNumber::Unsigned(n)) && n <= 0x7fff_ffff_ffff_ffff
            ==> JsonView::Object(m).signed_at(key) is Some && JsonView::Object(m).signed_at(key)->0
            as int == n as int,
        m[key] == JsonView::Number(JsonNumber::Unsigned(n)) && n > 0x7fff_ffff_ffff_ffff
            ==> JsonView::Object(m).signed_at(key) is None,
        m[key] == JsonView::Number(JsonNumber::Negative(z)) ==> JsonView::Object(m).signed_at(key)
            == Some(z),
        m[key] !is Number ==> JsonView::Object(m).signed_at(key) is None,
{
}

} // verus!

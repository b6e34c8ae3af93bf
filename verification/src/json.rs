//! JSON values.

use crate::text;
use vstd::prelude::*;

verus! {

/// A JSON value. A number that is no `u64` is held by its text.
#[derive(Debug)]
pub enum Json {
    Null,
    Bool(bool),
    Unsigned(u64),
    Number(String),
    Text(String),
    List(Vec<Json>),
    Object(Vec<Member>),
}

/// One member of a JSON object.
#[derive(Debug)]
pub struct Member {
    pub key: String,
    pub value: Json,
}

/// What a [`Json`] value says.
pub enum Document {
    Null,
    Bool(bool),
    Unsigned(u64),
    Number(Seq<char>),
    Text(Seq<char>),
    List(Seq<Document>),
    Object(Seq<(Seq<char>, Document)>),
}

/// What a value says.
pub open spec fn document(value: Json) -> Document
    decreases value,
{
    match value {
        Json::Null => Document::Null,
        Json::Bool(flag) => Document::Bool(flag),
        Json::Unsigned(number) => Document::Unsigned(number),
        Json::Number(number) => Document::Number(number@),
        Json::Text(text) => Document::Text(text@),
        Json::List(items) => Document::List(documents(items@)),
        Json::Object(list) => Document::Object(members(list@)),
    }
}

/// What a value says, where there is one.
pub open spec fn opt_document(value: Option<Json>) -> Option<Document> {
    match value {
        Some(value) => Some(document(value)),
        None => None,
    }
}

/// What the values of a list say.
pub open spec fn documents(items: Seq<Json>) -> Seq<Document>
    decreases items,
{
    if items.len() == 0 {
        seq![]
    } else {
        documents(items.drop_last()).push(document(items.last()))
    }
}

/// What the members of an object say.
pub open spec fn members(list: Seq<Member>) -> Seq<(Seq<char>, Document)>
    decreases list,
{
    if list.len() == 0 {
        seq![]
    } else {
        members(list.drop_last()).push((list.last().key@, document(list.last().value)))
    }
}

pub proof fn lemma_documents(items: Seq<Json>)
    ensures
        documents(items).len() == items.len(),
        forall|i: int|
            0 <= i < items.len() ==> #[trigger] documents(items)[i] == document(items[i]),
    decreases items.len(),
{
    if items.len() > 0 {
        let front = items.drop_last();
        lemma_documents(front);
        assert forall|i: int| 0 <= i < items.len() implies #[trigger] documents(items)[i]
            == document(items[i]) by {
            if i < items.len() - 1 {
                assert(front[i] == items[i]);
                assert(documents(front)[i] == document(front[i]));
            }
        }
    }
}

pub proof fn lemma_members(list: Seq<Member>)
    ensures
        members(list).len() == list.len(),
        forall|i: int|
            0 <= i < list.len() ==> #[trigger] members(list)[i] == (
                list[i].key@,
                document(list[i].value),
            ),
    decreases list.len(),
{
    if list.len() > 0 {
        let front = list.drop_last();
        lemma_members(front);
        assert forall|i: int| 0 <= i < list.len() implies #[trigger] members(list)[i] == (
            list[i].key@,
            document(list[i].value),
        ) by {
            if i < list.len() - 1 {
                assert(front[i] == list[i]);
                assert(members(front)[i] == (front[i].key@, document(front[i].value)));
            }
        }
    }
}

/// The place of a key among the members of an object: their number where it has none.
pub open spec fn place(list: Seq<(Seq<char>, Document)>, key: Seq<char>, from: int) -> int
    decreases list.len() - from,
{
    if from < 0 || from >= list.len() {
        list.len() as int
    } else if list[from].0 == key {
        from
    } else {
        place(list, key, from + 1)
    }
}

impl Document {
    /// The value of a member of an object.
    pub open spec fn get(self, key: Seq<char>) -> Option<Document> {
        match self {
            Document::Object(list) => {
                let at = place(list, key, 0);
                if at < list.len() {
                    Some(list[at].1)
                } else {
                    None
                }
            },
            _ => None,
        }
    }

    /// The value of a member of an object, null where it has none.
    pub open spec fn field(self, key: Seq<char>) -> Document {
        match self.get(key) {
            Some(value) => value,
            None => Document::Null,
        }
    }

    pub open spec fn as_text(self) -> Option<Seq<char>> {
        match self {
            Document::Text(text) => Some(text),
            _ => None,
        }
    }

    pub open spec fn as_u64(self) -> Option<u64> {
        match self {
            Document::Unsigned(number) => Some(number),
            _ => None,
        }
    }
}

proof fn lemma_place(list: Seq<(Seq<char>, Document)>, key: Seq<char>, from: int)
    requires
        0 <= from <= list.len(),
    ensures
        from <= place(list, key, from) <= list.len(),
    decreases list.len() - from,
{
    if from < list.len() && list[from].0 != key {
        lemma_place(list, key, from + 1);
    }
}

impl Json {
    /// A text.
    pub fn text(text: &str) -> (r: Self)
        ensures
            document(r) == Document::Text(text@),
    {
        Json::Text(text.to_owned())
    }

    /// The value of a member of an object.
    pub fn get(&self, key: &str) -> (r: Option<&Json>)
        ensures
            match r {
                Some(value) => document(*self).get(key@) == Some(document(*value)),
                None => document(*self).get(key@) is None,
            },
    {
        let list = match self {
            Json::Object(list) => list,
            _ => {
                return None;
            },
        };
        let ghost all = members(list@);
        proof {
            lemma_members(list@);
        }
        let mut i: usize = 0;
        while i < list.len()
            invariant
                i <= list@.len(),
                all == members(list@),
                all.len() == list@.len(),
                document(*self) == Document::Object(all),
                place(all, key@, 0) == place(all, key@, i as int),
            decreases list@.len() - i,
        {
            proof {
                lemma_members(list@);
                assert(all[i as int] == (list@[i as int].key@, document(list@[i as int].value)));
            }
            if text::str_eq(list[i].key.as_str(), key) {
                return Some(&list[i].value);
            }
            i = i + 1;
        }
        None
    }

    /// The text that a value is.
    pub fn as_text(&self) -> (r: Option<&str>)
        ensures
            match r {
                Some(text) => document(*self).as_text() == Some(text@),
                None => document(*self).as_text() is None,
            },
    {
        match self {
            Json::Text(text) => Some(text.as_str()),
            _ => None,
        }
    }

    /// The number that a value is.
    pub fn as_u64(&self) -> (r: Option<u64>)
        ensures
            r == document(*self).as_u64(),
    {
        match self {
            Json::Unsigned(number) => Some(*number),
            _ => None,
        }
    }

    /// The text of a member of an object.
    pub fn text_of(&self, key: &str) -> (r: Option<&str>)
        ensures
            match r {
                Some(text) => document(*self).field(key@).as_text() == Some(text@),
                None => document(*self).field(key@).as_text() is None,
            },
    {
        match self.get(key) {
            Some(value) => value.as_text(),
            None => None,
        }
    }

    /// The number of a member of an object.
    pub fn u64_of(&self, key: &str) -> (r: Option<u64>)
        ensures
            r == document(*self).field(key@).as_u64(),
    {
        match self.get(key) {
            Some(value) => value.as_u64(),
            None => None,
        }
    }
}

impl Clone for Json {
    fn clone(&self) -> (r: Self)
        ensures
            document(r) == document(*self),
        decreases *self,
    {
        match self {
            Json::Null => Json::Null,
            Json::Bool(flag) => Json::Bool(*flag),
            Json::Unsigned(number) => Json::Unsigned(*number),
            Json::Number(number) => Json::Number(number.clone()),
            Json::Text(text) => Json::Text(text.clone()),
            Json::List(items) => {
                let mut out: Vec<Json> = Vec::new();
                let mut i: usize = 0;
                while i < items.len()
                    invariant
                        i <= items@.len(),
                        documents(out@) == documents(items@.take(i as int)),
                        decreases_to!(*self => items),
                    decreases items@.len() - i,
                {
                    let ghost before = out@;
                    assert(decreases_to!(items@ => items@[i as int]));
                    out.push(items[i].clone());
                    proof {
                        let next = items@.take(i + 1);
                        assert(next.drop_last() =~= items@.take(i as int));
                        assert(out@.drop_last() =~= before);
                    }
                    i = i + 1;
                }
                assert(items@.take(i as int) =~= items@);
                Json::List(out)
            },
            Json::Object(list) => {
                let mut out: Vec<Member> = Vec::new();
                let mut i: usize = 0;
                while i < list.len()
                    invariant
                        i <= list@.len(),
                        members(out@) == members(list@.take(i as int)),
                        decreases_to!(*self => list),
                    decreases list@.len() - i,
                {
                    let ghost before = out@;
                    assert(decreases_to!(list@ => list@[i as int]));
                    out.push(Member { key: list[i].key.clone(), value: list[i].value.clone() });
                    proof {
                        let next = list@.take(i + 1);
                        assert(next.drop_last() =~= list@.take(i as int));
                        assert(out@.drop_last() =~= before);
                    }
                    i = i + 1;
                }
                assert(list@.take(i as int) =~= list@);
                Json::Object(out)
            },
        }
    }
}

/// Copies of one value in a list.
pub open spec fn repeated(value: Document, count: nat) -> Document {
    Document::List(Seq::new(count, |i: int| value))
}

/// A list of nulls.
pub fn nulls(count: usize) -> (r: Json)
    ensures
        document(r) == repeated(Document::Null, count as nat),
{
    let mut out: Vec<Json> = Vec::new();
    while out.len() < count
        invariant
            out@.len() <= count,
            forall|k: int| 0 <= k < out@.len() ==> out@[k] == Json::Null,
        decreases count - out@.len(),
    {
        out.push(Json::Null);
    }
    proof {
        lemma_documents(out@);
        assert(documents(out@) =~= Seq::new(count as nat, |i: int| Document::Null)) by {
            assert forall|i: int| 0 <= i < count implies documents(out@)[i] == Document::Null by {
                assert(documents(out@)[i] == document(out@[i]));
            }
        }
    }
    Json::List(out)
}

/// A list of one value.
pub fn list_of(value: Json) -> (r: Json)
    ensures
        document(r) == Document::List(seq![document(value)]),
{
    let mut out: Vec<Json> = Vec::new();
    out.push(value);
    proof {
        lemma_documents(out@);
        assert(documents(out@)[0] == document(out@[0]));
        assert(documents(out@) =~= seq![document(value)]);
    }
    Json::List(out)
}

/// The empty object.
pub fn empty_object() -> (r: Json)
    ensures
        document(r) == Document::Object(seq![]),
{
    Json::Object(Vec::new())
}

/// An object with one more member.
pub open spec fn extended(object: Document, key: Seq<char>, value: Document) -> Document {
    match object {
        Document::Object(list) => Document::Object(list.push((key, value))),
        other => other,
    }
}

/// Put a member behind those of an object.
pub fn with(object: Json, key: &str, value: Json) -> (r: Json)
    ensures
        document(r) == extended(document(object), key@, document(value)),
{
    match object {
        Json::Object(mut list) => {
            let ghost before = list@;
            list.push(Member { key: key.to_owned(), value });
            proof {
                assert(list@.drop_last() =~= before);
            }
            Json::Object(list)
        },
        other => other,
    }
}

/// An object of one member.
pub open spec fn single(key: Seq<char>, value: Document) -> Document {
    Document::Object(seq![(key, value)])
}

/// An object of one member.
pub fn object(key: &str, value: Json) -> (r: Json)
    ensures
        document(r) == single(key@, document(value)),
{
    let r = with(empty_object(), key, value);
    proof {
        let empty: Seq<(Seq<char>, Document)> = seq![];
        assert(empty.push((key@, document(value))) =~= seq![(key@, document(value))]);
    }
    r
}

proof fn lemma_place_is_first(list: Seq<(Seq<char>, Document)>, key: Seq<char>, from: int)
    requires
        0 <= from <= list.len(),
    ensures
        from <= place(list, key, from) <= list.len(),
        place(list, key, from) < list.len() ==> list[place(list, key, from)].0 == key,
        forall|k: int| from <= k < place(list, key, from) ==> (#[trigger] list[k]).0 != key,
    decreases list.len() - from,
{
    if from < list.len() && list[from].0 != key {
        lemma_place_is_first(list, key, from + 1);
    }
}

/// The value of a member is that of the first with its key; other values have no members.
pub proof fn law_members_are_found_by_their_keys(
    list: Seq<(Seq<char>, Document)>,
    key: Seq<char>,
    other: Document,
)
    ensures
        match Document::Object(list).get(key) {
            Some(value) => exists|i: int|
                {
                    &&& 0 <= i < list.len()
                    &&& #[trigger] list[i] == (key, value)
                    &&& forall|k: int| 0 <= k < i ==> (#[trigger] list[k]).0 != key
                },
            None => forall|k: int| 0 <= k < list.len() ==> (#[trigger] list[k]).0 != key,
        },
        !(other is Object) ==> other.get(key) is None,
{
    lemma_place_is_first(list, key, 0);
    let at = place(list, key, 0);
    if at < list.len() {
        assert(list[at] == (key, list[at].1));
    }
}

} // verus!

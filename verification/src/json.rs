//! A JSON value as the corpus loaders read it, and the lookups they make in it.
use vstd::prelude::*;

verus! {

/// A JSON document. Numbers keep the text they were written as; an object keeps its
/// members in order, and a lookup finds the first member with the key.
pub enum Json {
    Null,
    Bool(bool),
    Number(String),
    Str(String),
    Array(Vec<Json>),
    Object(Vec<(String, Json)>),
}

/// The value of the first member of `es` whose key is `key`.
pub open spec fn member(es: Seq<(String, Json)>, key: Seq<char>) -> Option<Json>
    decreases es.len(),
{
    if es.len() == 0 {
        None
    } else if member(es.drop_last(), key) is Some {
        member(es.drop_last(), key)
    } else if es.last().0@ == key {
        Some(es.last().1)
    } else {
        None
    }
}

/// What `Value::get(key)` finds in `j`: the member `key` of an object, nothing otherwise.
pub open spec fn lookup(j: Json, key: Seq<char>) -> Option<Json> {
    match j {
        Json::Object(es) => member(es@, key),
        _ => None,
    }
}

/// The text of a string value; nothing for any other value.
pub open spec fn text_of(j: Option<Json>) -> Option<Seq<char>> {
    match j {
        Some(Json::Str(s)) => Some(s@),
        _ => None,
    }
}

/// The elements of an array value; nothing for any other value.
pub open spec fn items_of(j: Option<Json>) -> Option<Seq<Json>> {
    match j {
        Some(Json::Array(v)) => Some(v@),
        _ => None,
    }
}

/// The members of an object value; nothing for any other value.
pub open spec fn members_of(j: Option<Json>) -> Option<Seq<(String, Json)>> {
    match j {
        Some(Json::Object(es)) => Some(es@),
        _ => None,
    }
}

/// `lookup` followed by `text_of`: the text of the member `key`, if it is a string.
pub open spec fn text_at(j: Json, key: Seq<char>) -> Option<Seq<char>> {
    text_of(lookup(j, key))
}

impl Json {
    /// The member `key` of this value, if it is an object that has one.
    pub fn get(&self, key: &str) -> (r: Option<&Json>)
        ensures
            match r {
                Some(v) => lookup(*self, key@) == Some(*v),
                None => lookup(*self, key@) is None,
            },
    {
        match self {
            Json::Object(es) => {
                let mut i: usize = 0;
                while i < es.len()
                    invariant
                        i <= es@.len(),
                        lookup(*self, key@) == member(es@, key@),
                        member(es@.take(i as int), key@) is None,
                    decreases es@.len() - i,
                {
                    let ghost t = es@.take(i as int + 1);
                    proof {
                        assert(t.drop_last() =~= es@.take(i as int));
                        assert(t.last() == es@[i as int]);
                    }
                    if crate::html::same_text(es[i].0.as_str(), key) {
                        proof {
                            assert(member(t, key@) == Some(es@[i as int].1));
                            lemma_member_prefix(es@, i as int + 1, key@);
                        }
                        return Some(&es[i].1);
                    }
                    i = i + 1;
                }
                assert(es@.take(i as int) =~= es@);
                None
            },
            _ => None,
        }
    }

    /// The text of this value, if it is a string.
    pub fn as_str(&self) -> (r: Option<&String>)
        ensures
            match r {
                Some(s) => text_of(Some(*self)) == Some(s@),
                None => text_of(Some(*self)) is None,
            },
    {
        match self {
            Json::Str(s) => Some(s),
            _ => None,
        }
    }

    /// The elements of this value, if it is an array.
    pub fn as_array(&self) -> (r: Option<&Vec<Json>>)
        ensures
            match r {
                Some(v) => items_of(Some(*self)) == Some(v@),
                None => items_of(Some(*self)) is None,
            },
    {
        match self {
            Json::Array(v) => Some(v),
            _ => None,
        }
    }

    /// The members of this value, if it is an object.
    pub fn as_object(&self) -> (r: Option<&Vec<(String, Json)>>)
        ensures
            match r {
                Some(v) => members_of(Some(*self)) == Some(v@),
                None => members_of(Some(*self)) is None,
            },
    {
        match self {
            Json::Object(es) => Some(es),
            _ => None,
        }
    }

    /// The text of the member `key`, if this is an object and that member is a string.
    pub fn str_at(&self, key: &str) -> (r: Option<&String>)
        ensures
            match r {
                Some(s) => text_at(*self, key@) == Some(s@),
                None => text_at(*self, key@) is None,
            },
    {
        match self.get(key) {
            Some(v) => v.as_str(),
            None => None,
        }
    }
}

/// A match found among the first `k` members stays the first match among all of them.
proof fn lemma_member_prefix(es: Seq<(String, Json)>, k: int, key: Seq<char>)
    requires
        0 <= k <= es.len(),
        member(es.take(k), key) is Some,
    ensures
        member(es, key) == member(es.take(k), key),
    decreases es.len() - k,
{
    if k < es.len() {
        assert(es.drop_last().take(k) =~= es.take(k));
        lemma_member_prefix(es.drop_last(), k, key);
    } else {
        assert(es.take(k) =~= es);
    }
}

} // verus!

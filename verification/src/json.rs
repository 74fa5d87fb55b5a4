use vstd::prelude::*;

use crate::text::str_eq;

verus! {

/// A member of a JSON object: a string, or any other JSON value kept as
/// its JSON text.
pub enum JsonValue {
    Str(String),
    Other(String),
}

pub enum JsonValueView {
    Str(Seq<char>),
    Other(Seq<char>),
}

impl View for JsonValue {
    type V = JsonValueView;

    open spec fn view(&self) -> JsonValueView {
        match self {
            JsonValue::Str(s) => JsonValueView::Str(s@),
            JsonValue::Other(s) => JsonValueView::Other(s@),
        }
    }
}

/// A JSON object: its members in order, each name once.
pub struct JsonObject {
    pub fields: Vec<(String, JsonValue)>,
}

impl View for JsonObject {
    type V = Seq<(Seq<char>, JsonValueView)>;

    open spec fn view(&self) -> Seq<(Seq<char>, JsonValueView)> {
        Seq::new(self.fields@.len(), |i: int| (self.fields@[i].0@, self.fields@[i].1@))
    }
}

/// A JSON document: an object, or any other value kept as its JSON text.
pub enum Json {
    Object(JsonObject),
    Other(String),
}

/// Where `name` first occurs among the members, if it does.
pub open spec fn find_member(o: Seq<(Seq<char>, JsonValueView)>, name: Seq<char>) -> Option<int> {
    if exists|i: int| 0 <= i < o.len() && (#[trigger] o[i]).0 == name {
        Some(choose|i: int| 0 <= i < o.len() && (#[trigger] o[i]).0 == name && forall|j: int|
            0 <= j < i ==> (#[trigger] o[j]).0 != name)
    } else {
        None
    }
}

/// The value of member `name`, the first one of that name.
pub open spec fn member(o: Seq<(Seq<char>, JsonValueView)>, name: Seq<char>) -> Option<JsonValueView> {
    match find_member(o, name) {
        Some(i) => Some(o[i].1),
        None => None,
    }
}

impl JsonValue {
    pub fn duplicate(&self) -> (r: JsonValue)
        ensures
            r@ == self@,
    {
        match self {
            JsonValue::Str(s) => JsonValue::Str(s.clone()),
            JsonValue::Other(s) => JsonValue::Other(s.clone()),
        }
    }

    pub fn same(&self, other: &JsonValue) -> (r: bool)
        ensures
            r == (self@ == other@),
    {
        match (self, other) {
            (JsonValue::Str(a), JsonValue::Str(b)) => str_eq(a.as_str(), b.as_str()),
            (JsonValue::Other(a), JsonValue::Other(b)) => str_eq(a.as_str(), b.as_str()),
            _ => false,
        }
    }
}

impl JsonObject {
    /// An object with no members.
    pub fn new() -> (o: JsonObject)
        ensures
            o@ == Seq::<(Seq<char>, JsonValueView)>::empty(),
    {
        let o = JsonObject { fields: Vec::new() };
        assert(o@ =~= Seq::<(Seq<char>, JsonValueView)>::empty());
        o
    }

    pub fn duplicate(&self) -> (r: JsonObject)
        ensures
            r@ == self@,
    {
        let mut fields: Vec<(String, JsonValue)> = Vec::new();
        let mut k: usize = 0;
        while k < self.fields.len()
            invariant
                k <= self.fields@.len(),
                fields@.len() == k,
                forall|j: int|
                    0 <= j < k ==> (#[trigger] fields@[j]).0@ == self.fields@[j].0@ && fields@[j].1@
                        == self.fields@[j].1@,
            decreases self.fields@.len() - k,
        {
            let (name, value) = (&self.fields[k].0, &self.fields[k].1);
            fields.push((name.clone(), value.duplicate()));
            k = k + 1;
        }
        let r = JsonObject { fields };
        assert(r@ =~= self@);
        r
    }

    pub fn same(&self, other: &JsonObject) -> (r: bool)
        ensures
            r == (self@ == other@),
    {
        if self.fields.len() != other.fields.len() {
            proof {
                assert(self@.len() != other@.len());
            }
            return false;
        }
        let mut k: usize = 0;
        while k < self.fields.len()
            invariant
                k <= self.fields@.len(),
                self.fields@.len() == other.fields@.len(),
                forall|j: int| 0 <= j < k ==> self@[j] == other@[j],
            decreases self.fields@.len() - k,
        {
            let a = &self.fields[k];
            let b = &other.fields[k];
            if !str_eq(a.0.as_str(), b.0.as_str()) || !a.1.same(&b.1) {
                proof {
                    assert(self@[k as int] != other@[k as int]);
                }
                return false;
            }
            k = k + 1;
        }
        proof {
            assert(self@ =~= other@);
        }
        true
    }

    /// The value of the first member called `name`.
    pub fn get(&self, name: &str) -> (r: Option<&JsonValue>)
        ensures
            match r {
                Some(v) => member(self@, name@) == Some(v@),
                None => member(self@, name@) is None,
            },
    {
        let mut k: usize = 0;
        while k < self.fields.len()
            invariant
                k <= self.fields@.len(),
                forall|j: int| 0 <= j < k ==> (#[trigger] self@[j]).0 != name@,
            decreases self.fields@.len() - k,
        {
            if str_eq(self.fields[k].0.as_str(), name) {
                proof {
                    let o = self@;
                    assert(o[k as int].0 == name@);
                    let i = choose|i: int| 0 <= i < o.len() && (#[trigger] o[i]).0 == name@ && forall|j: int|
                        0 <= j < i ==> (#[trigger] o[j]).0 != name@;
                    assert(i == k) by {
                        if i < k {
                            assert(o[i].0 != name@);
                        }
                        if i > k {
                            assert(o[k as int].0 != name@);
                        }
                    }
                }
                return Some(&self.fields[k].1);
            }
            k = k + 1;
        }
        None
    }
}

} // verus!

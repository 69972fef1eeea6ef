//! A JSON document as plain values, and the lookups the profile logic needs.
use vstd::prelude::*;

verus! {

/// A JSON value. Numbers keep their source text; object members keep their order.
#[derive(Debug, PartialEq)]
pub enum Json {
    Null,
    Bool(bool),
    Number(String),
    Str(String),
    Array(Vec<Json>),
    Object(Vec<(String, Json)>),
}

/// Position of the first member named `key`, or `fs.len()` when there is none.
pub open spec fn first_key(fs: Seq<(String, Json)>, key: Seq<char>) -> int
    decreases fs.len(),
{
    if fs.len() == 0 {
        0
    } else if fs[0].0@ == key {
        0
    } else {
        1 + first_key(fs.drop_first(), key)
    }
}

/// The member `key` of an object.
pub open spec fn get_field(j: Json, key: Seq<char>) -> Option<Json> {
    match j {
        Json::Object(fs) => {
            let i = first_key(fs@, key);
            if i < fs@.len() {
                Some(fs@[i].1)
            } else {
                None
            }
        },
        _ => None,
    }
}

/// The value reached from `j` through the members named in `path`.
pub open spec fn get_path(j: Json, path: Seq<Seq<char>>) -> Option<Json>
    decreases path.len(),
{
    if path.len() == 0 {
        Some(j)
    } else {
        match get_field(j, path[0]) {
            Some(v) => get_path(v, path.drop_first()),
            None => None,
        }
    }
}

/// The text of a string value.
pub open spec fn str_of(j: Option<Json>) -> Option<Seq<char>> {
    match j {
        Some(Json::Str(s)) => Some(s@),
        _ => None,
    }
}

/// `r` is `j` with the value at `path` replaced by the string `t`, and nothing
/// else changed.
pub open spec fn set_path(j: Json, path: Seq<Seq<char>>, t: Seq<char>, r: Json) -> bool
    decreases path.len(),
{
    if path.len() == 0 {
        r is Str && r->Str_0@ == t
    } else {
        match (j, r) {
            (Json::Object(a), Json::Object(b)) => {
                let k = first_key(a@, path[0]);
                &&& k < a@.len()
                &&& a@.len() == b@.len()
                &&& forall|i: int| 0 <= i < a@.len() ==> (#[trigger] a@[i]).0 == b@[i].0
                &&& forall|i: int| 0 <= i < a@.len() && i != k ==> (#[trigger] a@[i]).1 == b@[i].1
                &&& set_path(a@[k].1, path.drop_first(), t, b@[k].1)
            },
            _ => false,
        }
    }
}

proof fn lemma_first_key(fs: Seq<(String, Json)>, key: Seq<char>, idx: int)
    requires
        0 <= idx <= fs.len(),
        forall|i: int| 0 <= i < idx ==> (#[trigger] fs[i]).0@ != key,
        idx < fs.len() ==> fs[idx].0@ == key,
    ensures
        first_key(fs, key) == idx,
    decreases idx,
{
    if idx > 0 {
        assert forall|i: int| 0 <= i < idx - 1 implies (#[trigger] fs.drop_first()[i]).0@ != key by {
            assert(fs.drop_first()[i] == fs[i + 1]);
        }
        lemma_first_key(fs.drop_first(), key, idx - 1);
    }
}

/// `a` and `b` hold the same characters.
pub fn str_eq(a: &str, b: &str) -> (r: bool)
    ensures
        r == (a@ == b@),
{
    let n = a.unicode_len();
    if n != b.unicode_len() {
        return false;
    }
    let mut i: usize = 0;
    while i < n
        invariant
            n == a@.len() == b@.len(),
            i <= n,
            a@.subrange(0, i as int) == b@.subrange(0, i as int),
        decreases n - i,
    {
        if a.get_char(i) != b.get_char(i) {
            return false;
        }
        i = i + 1;
        assert(a@.subrange(0, i as int) =~= b@.subrange(0, i as int));
    }
    assert(a@ =~= a@.subrange(0, n as int));
    assert(b@ =~= b@.subrange(0, n as int));
    true
}

/// Position of the first member named `key`, or the length when there is none.
pub fn find_key(fs: &Vec<(String, Json)>, key: &str) -> (r: usize)
    ensures
        r as int == first_key(fs@, key@),
        r <= fs@.len(),
{
    let mut i: usize = 0;
    while i < fs.len()
        invariant
            i <= fs@.len(),
            forall|j: int| 0 <= j < i ==> (#[trigger] fs@[j]).0@ != key@,
        decreases fs@.len() - i,
    {
        if str_eq(fs[i].0.as_str(), key) {
            proof {
                lemma_first_key(fs@, key@, i as int);
            }
            return i;
        }
        i = i + 1;
    }
    proof {
        lemma_first_key(fs@, key@, i as int);
    }
    i
}

/// The member `key` of `j`, if `j` is an object that has one.
pub fn get_field_exec<'a>(j: &'a Json, key: &str) -> (r: Option<&'a Json>)
    ensures
        r matches Some(v) ==> get_field(*j, key@) == Some(*v),
        r is None ==> get_field(*j, key@) is None,
{
    match j {
        Json::Object(fs) => {
            let i = find_key(fs, key);
            if i < fs.len() {
                Some(&fs[i].1)
            } else {
                None
            }
        },
        _ => None,
    }
}

} // verus!

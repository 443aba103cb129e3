//! JSON payloads as the engine reads them: a tree of plain values, with
//! numbers held as double-precision bit patterns.  The host parses payload
//! bytes with its JSON library and hands the tree over in this form.

use vstd::prelude::*;
use crate::str_eq;

verus! {

#[derive(Debug)]
pub enum Json {
    Null,
    Bool(bool),
    /// A number, as the IEEE-754 bit pattern of its double value.
    Num(u64),
    Str(String),
    Arr(Vec<Json>),
    Obj(Vec<(String, Json)>),
}

/// First value bound to `key` among an object's entries.
pub open spec fn spec_obj_get(entries: Seq<(String, Json)>, key: Seq<char>) -> Option<Json>
    decreases entries.len(),
{
    if entries.len() == 0 {
        None
    } else if entries[0].0@ == key {
        Some(entries[0].1)
    } else {
        spec_obj_get(entries.skip(1), key)
    }
}

/// Value reached from `j` by walking the object keys `path[i..]`.
pub open spec fn spec_json_lookup(j: Json, path: Seq<String>, i: int) -> Option<Json>
    decreases path.len() - i,
{
    if i < 0 || i >= path.len() {
        Some(j)
    } else {
        match j {
            Json::Obj(entries) => match spec_obj_get(entries@, path[i]@) {
                Some(next) => spec_json_lookup(next, path, i + 1),
                None => None,
            },
            _ => None,
        }
    }
}

fn obj_get<'a>(entries: &'a Vec<(String, Json)>, key: &str) -> (r: Option<&'a Json>)
    ensures
        match r {
            Some(v) => spec_obj_get(entries@, key@) == Some(*v),
            None => spec_obj_get(entries@, key@) is None,
        },
{
    let mut i: usize = 0;
    proof {
        assert(entries@.skip(0) =~= entries@);
    }
    while i < entries.len()
        invariant
            i <= entries@.len(),
            spec_obj_get(entries@, key@) == spec_obj_get(entries@.skip(i as int), key@),
        decreases entries@.len() - i,
    {
        proof {
            assert(entries@.skip(i as int)[0] == entries@[i as int]);
            assert(entries@.skip(i as int).skip(1) =~= entries@.skip(i + 1));
        }
        if str_eq(entries[i].0.as_str(), key) {
            return Some(&entries[i].1);
        }
        i = i + 1;
    }
    proof {
        assert(entries@.skip(entries@.len() as int).len() == 0);
    }
    None
}

/// Walks `path` from the root by object keys; any missing key or
/// non-object on the way yields nothing.
pub fn json_lookup<'a>(j: &'a Json, path: &Vec<String>) -> (r: Option<&'a Json>)
    ensures
        match r {
            Some(v) => spec_json_lookup(*j, path@, 0) == Some(*v),
            None => spec_json_lookup(*j, path@, 0) is None,
        },
{
    let mut cur = j;
    let mut i: usize = 0;
    while i < path.len()
        invariant
            i <= path@.len(),
            spec_json_lookup(*j, path@, 0) == spec_json_lookup(*cur, path@, i as int),
        decreases path@.len() - i,
    {
        match cur {
            Json::Obj(entries) => {
                match obj_get(entries, path[i].as_str()) {
                    Some(v) => {
                        cur = v;
                    },
                    None => {
                        return None;
                    },
                }
            },
            _ => {
                return None;
            },
        }
        i = i + 1;
    }
    Some(cur)
}

} // verus!

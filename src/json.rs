use vstd::prelude::*;

use crate::text::same_text;

verus! {

/// A JSON document as the library reads it.
///
/// Numbers are split as serde_json splits them: integers that fit in `i64`,
/// and all others as the IEEE-754 bit pattern of the `f64` that holds them,
/// together with the text serde_json writes for that number. An object keeps
/// its members in order; lookups take the first member with a given key.
#[derive(Debug, PartialEq)]
pub enum Json {
    Null,
    Bool(bool),
    Int(i64),
    Float(u64, String),
    Str(String),
    Array(Vec<Json>),
    Object(Vec<(String, Json)>),
}

/// The value of the first member named `k`.
pub open spec fn member(entries: Seq<(String, Json)>, k: Seq<char>) -> Option<Json>
    decreases entries.len(),
{
    if entries.len() == 0 {
        None
    } else if entries[0].0@ == k {
        Some(entries[0].1)
    } else {
        member(entries.drop_first(), k)
    }
}

/// Looks up member `k` of an object's member list.
pub fn find_member<'a>(entries: &'a Vec<(String, Json)>, k: &str) -> (r: Option<&'a Json>)
    ensures
        match r {
            Some(v) => member(entries@, k@) == Some(*v),
            None => member(entries@, k@) is None,
        },
{
    let mut i: usize = 0;
    assert(entries@.subrange(0, entries@.len() as int) =~= entries@);
    while i < entries.len()
        invariant
            i <= entries@.len(),
            member(entries@, k@) == member(entries@.subrange(i as int, entries@.len() as int), k@),
        decreases entries@.len() - i,
    {
        let ghost rest = entries@.subrange(i as int, entries@.len() as int);
        assert(rest.drop_first() =~= entries@.subrange(i + 1, entries@.len() as int));
        if same_text(entries[i].0.as_str(), k) {
            return Some(&entries[i].1);
        }
        i = i + 1;
    }
    None
}


proof fn lemma_member_push(s: Seq<(String, Json)>, e: (String, Json), k: Seq<char>)
    ensures
        member(s.push(e), k) == if member(s, k) is Some {
            member(s, k)
        } else if e.0@ == k {
            Some(e.1)
        } else {
            None
        },
    decreases s.len(),
{
    if s.len() > 0 {
        assert(s.push(e)[0] == s[0]);
        assert(s.push(e).drop_first() =~= s.drop_first().push(e));
        lemma_member_push(s.drop_first(), e, k);
        assert(member(s.push(e), k) == if s[0].0@ == k {
            Some(s[0].1)
        } else {
            member(s.drop_first().push(e), k)
        });
    } else {
        assert(s.push(e)[0] == e);
        assert(s.push(e).drop_first() =~= Seq::<(String, Json)>::empty());
        assert(member(s.push(e).drop_first(), k) is None);
    }
}

/// Takes the first member of each of the given names out of an object's
/// member list; names are distinct.
pub fn take_members(entries: Vec<(String, Json)>, names: &Vec<&str>) -> (r: Vec<Option<Json>>)
    requires
        forall|x: int, y: int| 0 <= x < y < names@.len() ==> (#[trigger] names@[x])@ != (#[trigger] names@[y])@,
    ensures
        r@.len() == names@.len(),
        forall|k: int| 0 <= k < names@.len() ==> #[trigger] r@[k] == member(entries@, names@[k]@),
{
    let ghost all = entries@;
    let mut found: Vec<Option<Json>> = Vec::new();
    let mut k: usize = 0;
    while k < names.len()
        invariant
            k <= names@.len(),
            found@.len() == k,
            forall|t: int| 0 <= t < k ==> (#[trigger] found@[t]) is None,
        decreases names@.len() - k,
    {
        found.push(None);
        k = k + 1;
    }
    let n = entries.len();
    let mut rest = entries;
    let mut i: usize = 0;
    assert(all.take(0) =~= Seq::<(String, Json)>::empty());
    while rest.len() > 0
        invariant
            i <= all.len(),
            n == all.len(),
            rest@ == all.skip(i as int),
            found@.len() == names@.len(),
            forall|x: int, y: int| 0 <= x < y < names@.len() ==> (#[trigger] names@[x])@ != (#[trigger] names@[y])@,
            forall|t: int| 0 <= t < names@.len() ==> #[trigger] found@[t] == member(all.take(i as int), names@[t]@),
        decreases rest@.len(),
    {
        let e = rest.remove(0);
        let ghost ge = e;
        let ghost before = found@;
        assert(all.take(i + 1) =~= all.take(i as int).push(ge));
        let (key, val) = e;
        let mut k: usize = 0;
        while k < names.len() && !same_text(key.as_str(), names[k])
            invariant
                k <= names@.len(),
                forall|t: int| 0 <= t < k ==> key@ != (#[trigger] names@[t])@,
            decreases names@.len() - k,
        {
            k = k + 1;
        }
        if k < names.len() && found[k].is_none() {
            found.set(k, Some(val));
        }
        proof {
            assert forall|t: int| 0 <= t < names@.len() implies #[trigger] found@[t] == member(all.take(i + 1), names@[t]@) by {
                lemma_member_push(all.take(i as int), ge, names@[t]@);
                if t != k as int && (k as int) < names@.len() {
                    if t < k {
                        assert(names@[t]@ != names@[k as int]@);
                    } else {
                        assert(names@[k as int]@ != names@[t]@);
                    }
                }
            }
        }
        assert(rest@ =~= all.skip(i + 1));
        i = i + 1;
    }
    assert(all.take(i as int) =~= all);
    found
}

/// Takes the first members named `a` and `b` out of an object's member list.
pub fn take_two(entries: Vec<(String, Json)>, a: &str, b: &str) -> (r: (Option<Json>, Option<Json>))
    requires
        a@ != b@,
    ensures
        r.0 == member(entries@, a@),
        r.1 == member(entries@, b@),
{
    let names = vec![a, b];
    let mut got = take_members(entries, &names);
    assert(got@[0] == member(entries@, a@) && got@[1] == member(entries@, b@));
    let y = match got.pop() {
        Some(v) => v,
        None => None,
    };
    let x = match got.pop() {
        Some(v) => v,
        None => None,
    };
    (x, y)
}

/// Takes the first members named `a`, `b` and `c` out of an object's member
/// list.
pub fn take_three(entries: Vec<(String, Json)>, a: &str, b: &str, c: &str) -> (r: (
    Option<Json>,
    Option<Json>,
    Option<Json>,
))
    requires
        a@ != b@,
        a@ != c@,
        b@ != c@,
    ensures
        r.0 == member(entries@, a@),
        r.1 == member(entries@, b@),
        r.2 == member(entries@, c@),
{
    let names = vec![a, b, c];
    let mut got = take_members(entries, &names);
    assert(got@[0] == member(entries@, a@) && got@[1] == member(entries@, b@) && got@[2] == member(
        entries@,
        c@,
    ));
    let z = match got.pop() {
        Some(v) => v,
        None => None,
    };
    let y = match got.pop() {
        Some(v) => v,
        None => None,
    };
    let x = match got.pop() {
        Some(v) => v,
        None => None,
    };
    (x, y, z)
}

} // verus!

use vstd::prelude::*;

use crate::json::Json;
use crate::options::{Options, OptionsError};
use crate::schema::{find_option, type_matches, value_has_type, SchemaRegistry, ValidationError};
use crate::text::same_text;

verus! {

/// An override's address: its namespace and its key.
pub type OverrideKey = (Seq<char>, Seq<char>);

pub open spec fn at_key(s: Seq<(String, String, Json)>, i: int, k: OverrideKey) -> bool {
    0 <= i < s.len() && s[i].0@ == k.0 && s[i].1@ == k.1
}

/// The overrides held by a list of entries.
pub open spec fn entries_map(s: Seq<(String, String, Json)>) -> Map<OverrideKey, Json> {
    Map::new(
        |k: OverrideKey| exists|i: int| at_key(s, i, k),
        |k: OverrideKey| s[choose|i: int| at_key(s, i, k)].2,
    )
}

/// No two entries share an address.
pub open spec fn keys_unique(s: Seq<(String, String, Json)>) -> bool {
    forall|i: int, j: int|
        0 <= i < j < s.len() ==> !(#[trigger] s[i].0@ == #[trigger] s[j].0@ && s[i].1@ == s[j].1@)
}

proof fn lemma_map_at(s: Seq<(String, String, Json)>, i: int)
    requires
        keys_unique(s),
        0 <= i < s.len(),
    ensures
        entries_map(s).dom().contains((s[i].0@, s[i].1@)),
        entries_map(s)[(s[i].0@, s[i].1@)] == s[i].2,
{
    let k = (s[i].0@, s[i].1@);
    assert(at_key(s, i, k));
    let j = choose|j: int| at_key(s, j, k);
    if j != i {
        if i < j {
            assert(s[i].0@ == s[j].0@ && s[i].1@ == s[j].1@);
        } else {
            assert(s[j].0@ == s[i].0@ && s[j].1@ == s[i].1@);
        }
    }
}

/// The value in a map under `k`, if any.
pub open spec fn opt_get(m: Map<OverrideKey, Json>, k: OverrideKey) -> Option<Json> {
    if m.dom().contains(k) {
        Some(m[k])
    } else {
        None
    }
}

/// Overrides of option values, for tests: a map from namespace and key to
/// a value. A store belongs to one execution context; it is handed to the
/// code that reads options rather than shared.
pub struct OverrideStore {
    entries: Vec<(String, String, Json)>,
}

impl OverrideStore {
    /// The overrides in force.
    pub closed spec fn view(&self) -> Map<OverrideKey, Json> {
        entries_map(self.entries@)
    }

    pub closed spec fn wf(&self) -> bool {
        keys_unique(self.entries@)
    }

    /// A store with no overrides.
    pub fn new() -> (r: Self)
        ensures
            r.wf(),
            r.view() == Map::<OverrideKey, Json>::empty(),
    {
        let r = OverrideStore { entries: Vec::new() };
        assert(r.view() =~= Map::<OverrideKey, Json>::empty());
        r
    }

    fn position(&self, namespace: &str, key: &str) -> (r: Option<usize>)
        ensures
            match r {
                Some(i) => at_key(self.entries@, i as int, (namespace@, key@)),
                None => forall|i: int| !at_key(self.entries@, i, (namespace@, key@)),
            },
    {
        let mut i: usize = 0;
        while i < self.entries.len()
            invariant
                i <= self.entries@.len(),
                forall|t: int| 0 <= t < i ==> !at_key(self.entries@, t, (namespace@, key@)),
            decreases self.entries@.len() - i,
        {
            if same_text(self.entries[i].0.as_str(), namespace) && same_text(
                self.entries[i].1.as_str(),
                key,
            ) {
                return Some(i);
            }
            i = i + 1;
        }
        None
    }

    /// The override for `key` in `namespace`.
    pub fn get(&self, namespace: &str, key: &str) -> (r: Option<&Json>)
        requires
            self.wf(),
        ensures
            r matches Some(v) ==> opt_get(self.view(), (namespace@, key@)) == Some(*v),
            r is None ==> opt_get(self.view(), (namespace@, key@)) is None,
    {
        match self.position(namespace, key) {
            Some(i) => {
                proof {
                    lemma_map_at(self.entries@, i as int);
                }
                Some(&self.entries[i].2)
            },
            None => None,
        }
    }

    /// Sets the override for `key` in `namespace`.
    pub fn set(&mut self, namespace: &str, key: &str, value: Json)
        requires
            old(self).wf(),
        ensures
            final(self).wf(),
            final(self).view() == old(self).view().insert((namespace@, key@), value),
    {
        let ghost s0 = self.entries@;
        let ghost k = (namespace@, key@);
        match self.position(namespace, key) {
            Some(i) => {
                self.entries.set(i, (namespace.to_owned(), key.to_owned(), value));
                let ghost s1 = self.entries@;
                proof {
                    assert forall|a: int, b: int| 0 <= a < b < s1.len() implies !(
                    #[trigger] s1[a].0@ == #[trigger] s1[b].0@ && s1[a].1@ == s1[b].1@) by {
                        assert(s0[a].0@ == s0[b].0@ ==> s0[a].1@ != s0[b].1@);
                    }
                    let m1 = entries_map(s1);
                    let m2 = entries_map(s0).insert(k, value);
                    assert forall|kk: OverrideKey|
                        #[trigger] m1.dom().contains(kk) == m2.dom().contains(kk) && (
                        m1.dom().contains(kk) ==> m1[kk] == m2[kk]) by {
                        if kk == k {
                            lemma_map_at(s1, i as int);
                        } else {
                            if exists|j: int| at_key(s0, j, kk) {
                                let j = choose|j: int| at_key(s0, j, kk);
                                assert(at_key(s1, j, kk));
                                lemma_map_at(s0, j);
                                lemma_map_at(s1, j);
                            }
                            if exists|j: int| at_key(s1, j, kk) {
                                let j = choose|j: int| at_key(s1, j, kk);
                                assert(at_key(s0, j, kk));
                            }
                        }
                    }
                    assert(m1 =~= m2);
                }
            },
            None => {
                self.entries.push((namespace.to_owned(), key.to_owned(), value));
                let ghost s1 = self.entries@;
                proof {
                    assert forall|a: int, b: int| 0 <= a < b < s1.len() implies !(
                    #[trigger] s1[a].0@ == #[trigger] s1[b].0@ && s1[a].1@ == s1[b].1@) by {
                        if b == s0.len() {
                            assert(!at_key(s0, a, k));
                        } else {
                            assert(s0[a].0@ == s0[b].0@ ==> s0[a].1@ != s0[b].1@);
                        }
                    }
                    let m1 = entries_map(s1);
                    let m2 = entries_map(s0).insert(k, value);
                    assert forall|kk: OverrideKey|
                        #[trigger] m1.dom().contains(kk) == m2.dom().contains(kk) && (
                        m1.dom().contains(kk) ==> m1[kk] == m2[kk]) by {
                        if kk == k {
                            lemma_map_at(s1, s0.len() as int);
                        } else {
                            if exists|j: int| at_key(s0, j, kk) {
                                let j = choose|j: int| at_key(s0, j, kk);
                                assert(at_key(s1, j, kk));
                                lemma_map_at(s0, j);
                                lemma_map_at(s1, j);
                            }
                            if exists|j: int| at_key(s1, j, kk) {
                                let j = choose|j: int| at_key(s1, j, kk);
                                assert(at_key(s0, j, kk));
                            }
                        }
                    }
                    assert(m1 =~= m2);
                }
            },
        }
    }

    /// Removes the override for `key` in `namespace` and hands back its
    /// value, if there was one.
    pub fn take(&mut self, namespace: &str, key: &str) -> (r: Option<Json>)
        requires
            old(self).wf(),
        ensures
            final(self).wf(),
            r == opt_get(old(self).view(), (namespace@, key@)),
            final(self).view() == old(self).view().remove((namespace@, key@)),
    {
        let ghost s0 = self.entries@;
        let ghost k = (namespace@, key@);
        match self.position(namespace, key) {
            Some(i) => {
                proof {
                    lemma_map_at(s0, i as int);
                }
                let e = self.entries.remove(i);
                let ghost s1 = self.entries@;
                proof {
                    assert(s1 =~= s0.remove(i as int));
                    assert forall|a: int, b: int| 0 <= a < b < s1.len() implies !(
                    #[trigger] s1[a].0@ == #[trigger] s1[b].0@ && s1[a].1@ == s1[b].1@) by {
                        let a0 = if a < i { a } else { a + 1 };
                        let b0 = if b < i { b } else { b + 1 };
                        assert(s0[a0].0@ == s0[b0].0@ ==> s0[a0].1@ != s0[b0].1@);
                    }
                    let m1 = entries_map(s1);
                    let m2 = entries_map(s0).remove(k);
                    assert forall|kk: OverrideKey|
                        #[trigger] m1.dom().contains(kk) == m2.dom().contains(kk) && (
                        m1.dom().contains(kk) ==> m1[kk] == m2[kk]) by {
                        if exists|j: int| at_key(s1, j, kk) {
                            let j = choose|j: int| at_key(s1, j, kk);
                            let j0 = if j < i { j } else { j + 1 };
                            assert(at_key(s0, j0, kk));
                            if kk == k {
                                assert(s0[j0].0@ == s0[i as int].0@ && s0[j0].1@ == s0[i as int].1@);
                            }
                            lemma_map_at(s0, j0);
                            lemma_map_at(s1, j);
                        }
                        if kk != k && exists|j: int| at_key(s0, j, kk) {
                            let j = choose|j: int| at_key(s0, j, kk);
                            assert(j != i);
                            let j1 = if j < i { j } else { j - 1 };
                            assert(at_key(s1, j1, kk));
                        }
                    }
                    assert(m1 =~= m2);
                }
                Some(e.2)
            },
            None => {
                assert(entries_map(s0).remove(k) =~= entries_map(s0));
                None
            },
        }
    }
}


/// Sets the override for `key` in `namespace`.
pub fn set_override(store: &mut OverrideStore, namespace: &str, key: &str, value: Json)
    requires
        old(store).wf(),
    ensures
        final(store).wf(),
        final(store).view() == old(store).view().insert((namespace@, key@), value),
{
    store.set(namespace, key, value)
}

/// The override for `key` in `namespace`, if one is set.
pub fn get_override<'a>(store: &'a OverrideStore, namespace: &str, key: &str) -> (r: Option<&'a Json>)
    requires
        store.wf(),
    ensures
        r matches Some(v) ==> opt_get(store.view(), (namespace@, key@)) == Some(*v),
        r is None ==> opt_get(store.view(), (namespace@, key@)) is None,
{
    store.get(namespace, key)
}

/// Removes the override for `key` in `namespace`, if one is set.
pub fn clear_override(store: &mut OverrideStore, namespace: &str, key: &str)
    requires
        old(store).wf(),
    ensures
        final(store).wf(),
        final(store).view() == old(store).view().remove((namespace@, key@)),
{
    let _ = store.take(namespace, key);
}

/// An override entry's address and value.
pub open spec fn pairs(es: Seq<(String, String, Json)>) -> Seq<(OverrideKey, Json)> {
    es.map_values(|e: (String, String, Json)| ((e.0@, e.1@), e.2))
}

/// The overrides after setting each pair in turn.
pub open spec fn apply_all(m: Map<OverrideKey, Json>, ps: Seq<(OverrideKey, Json)>) -> Map<
    OverrideKey,
    Json,
>
    decreases ps.len(),
{
    if ps.len() == 0 {
        m
    } else {
        apply_all(m, ps.drop_last()).insert(ps.last().0, ps.last().1)
    }
}

/// For each pair, in turn, what its address held just before it was set.
pub open spec fn priors(m: Map<OverrideKey, Json>, ps: Seq<(OverrideKey, Json)>) -> Seq<
    (OverrideKey, Option<Json>),
>
    decreases ps.len(),
{
    if ps.len() == 0 {
        Seq::empty()
    } else {
        priors(m, ps.drop_last()).push(
            (ps.last().0, opt_get(apply_all(m, ps.drop_last()), ps.last().0)),
        )
    }
}

/// Puts one address back to what it held: a value, or nothing.
pub open spec fn restore_one(m: Map<OverrideKey, Json>, p: (OverrideKey, Option<Json>)) -> Map<
    OverrideKey,
    Json,
> {
    match p.1 {
        Some(v) => m.insert(p.0, v),
        None => m.remove(p.0),
    }
}

/// Puts back the recorded states, the last recorded first.
pub open spec fn unwind(m: Map<OverrideKey, Json>, rs: Seq<(OverrideKey, Option<Json>)>) -> Map<
    OverrideKey,
    Json,
>
    decreases rs.len(),
{
    if rs.len() == 0 {
        m
    } else {
        unwind(restore_one(m, rs.last()), rs.drop_last())
    }
}

/// An override is accepted: its namespace exists and declares its key, and
/// the value has the key's type.
pub open spec fn override_accepted(reg: SchemaRegistry, ns: Seq<char>, key: Seq<char>, v: Json) -> bool {
    match reg.schema(ns) {
        Some(s) => match find_option(s.options@, key) {
            Some(o) => type_matches(o.option_type, v),
            None => false,
        },
        None => false,
    }
}

/// The overrides after a batch checked against `reg`: the batch set in turn
/// when every entry is accepted, else the overrides as they were.
pub open spec fn batch_outcome(
    before: Map<OverrideKey, Json>,
    reg: SchemaRegistry,
    es: Seq<(String, String, Json)>,
    after: Map<OverrideKey, Json>,
) -> bool {
    if batch_accepted(reg, es) {
        after == apply_all(before, pairs(es))
    } else {
        after == before
    }
}

/// `e` is the error for the first entry of `es` that `reg` does not accept:
/// `UnknownNamespace` when its namespace has no schema, `Schema` when the
/// key is not declared or the value has another type.
pub open spec fn refused_with(reg: SchemaRegistry, es: Seq<(String, String, Json)>, e: OptionsError) -> bool {
    exists|i: int|
        0 <= i < es.len() && !override_accepted(reg, (#[trigger] es[i]).0@, es[i].1@, es[i].2) && (
        forall|t: int| 0 <= t < i ==> override_accepted(reg, (#[trigger] es[t]).0@, es[t].1@, es[t].2))
            && if reg.schema(es[i].0@) is None {
            e is UnknownNamespace
        } else {
            e is Schema
        }
}

/// Every entry is accepted.
pub open spec fn batch_accepted(reg: SchemaRegistry, es: Seq<(String, String, Json)>) -> bool {
    forall|i: int| 0 <= i < es.len() ==> override_accepted(reg, (#[trigger] es[i]).0@, es[i].1@, es[i].2)
}

/// Checks one override against the schemas.
pub fn check_override(registry: &SchemaRegistry, namespace: &str, key: &str, value: &Json) -> (r: Result<
    (),
    OptionsError,
>)
    ensures
        r is Ok <==> override_accepted(*registry, namespace@, key@, *value),
        registry.schema(namespace@) is None ==> (r matches Err(OptionsError::UnknownNamespace(n))
            && n@ == namespace@),
        registry.schema(namespace@) is Some && r is Err ==> (r matches Err(OptionsError::Schema(_))),
{
    match registry.get(namespace) {
        None => Err(OptionsError::UnknownNamespace(namespace.to_owned())),
        Some(s) => match s.find(key) {
            None => Err(
                OptionsError::Schema(
                    ValidationError::ValueError {
                        namespace: namespace.to_owned(),
                        errors: "the key is not declared".to_owned(),
                    },
                ),
            ),
            Some(o) => {
                if value_has_type(o.option_type, value) {
                    Ok(())
                } else {
                    Err(
                        OptionsError::Schema(
                            ValidationError::ValueError {
                                namespace: namespace.to_owned(),
                                errors: "the value does not have the option's type".to_owned(),
                            },
                        ),
                    )
                }
            },
        },
    }
}

/// What a batch of overrides replaced; handing it to [`restore_overrides`]
/// puts those states back.
pub struct OverrideGuard {
    previous: Vec<(String, String, Option<Json>)>,
}

impl OverrideGuard {
    /// Each address the batch set, with what it held before, in the order
    /// they were set.
    pub closed spec fn previous_view(&self) -> Seq<(OverrideKey, Option<Json>)> {
        self.previous@.map_values(|e: (String, String, Option<Json>)| ((e.0@, e.1@), e.2))
    }
}

/// Sets a batch of overrides, all or none. When a registry is given, every
/// entry is checked against it first, and one that is not accepted leaves
/// the store as it was; without a registry the entries are not checked.
pub fn override_options(
    store: &mut OverrideStore,
    registry: Option<&SchemaRegistry>,
    overrides: Vec<(String, String, Json)>,
) -> (r: Result<OverrideGuard, OptionsError>)
    requires
        old(store).wf(),
    ensures
        final(store).wf(),
        r is Err <==> (registry matches Some(reg) && !batch_accepted(*reg, overrides@)),
        r is Err ==> final(store).view() == old(store).view(),
        r matches Ok(g) ==> final(store).view() == apply_all(old(store).view(), pairs(overrides@))
            && g.previous_view() == priors(old(store).view(), pairs(overrides@)),
        registry matches Some(reg) ==> batch_outcome(
            old(store).view(),
            *reg,
            overrides@,
            final(store).view(),
        ),
        r matches Err(e) ==> (registry matches Some(reg) && refused_with(*reg, overrides@, e)),
{
    if let Some(reg) = registry {
        let mut i: usize = 0;
        while i < overrides.len()
            invariant
                store.wf(),
                *store == *old(store),
                registry == Some(reg),
                i <= overrides@.len(),
                forall|t: int|
                    0 <= t < i ==> override_accepted(*reg, (#[trigger] overrides@[t]).0@, overrides@[t].1@, overrides@[t].2),
            decreases overrides@.len() - i,
        {
            let e = &overrides[i];
            match check_override(reg, e.0.as_str(), e.1.as_str(), &e.2) {
                Ok(()) => {},
                Err(err) => {
                    assert(!override_accepted(*reg, overrides@[i as int].0@, overrides@[i as int].1@, overrides@[i as int].2));
                    assert(!batch_accepted(*reg, overrides@));
                    assert(refused_with(*reg, overrides@, err));
                    return Err(err);
                },
            }
            i = i + 1;
        }
    }
    let ghost m0 = store.view();
    let ghost all = pairs(overrides@);
    let n = overrides.len();
    let mut rest = overrides;
    let mut previous: Vec<(String, String, Option<Json>)> = Vec::new();
    let mut i: usize = 0;
    assert(all.take(0) =~= Seq::<(OverrideKey, Json)>::empty());
    assert(previous@.map_values(|e: (String, String, Option<Json>)| ((e.0@, e.1@), e.2)) =~= Seq::<(OverrideKey, Option<Json>)>::empty());
    while rest.len() > 0
        invariant
            store.wf(),
            i <= n,
            all.len() == n,
            rest@.len() == n - i,
            forall|t: int| 0 <= t < rest@.len() ==> ((#[trigger] rest@[t]).0@, rest@[t].1@, rest@[t].2) == (all[i + t].0.0, all[i + t].0.1, all[i + t].1),
            store.view() == apply_all(m0, all.take(i as int)),
            previous@.map_values(|e: (String, String, Option<Json>)| ((e.0@, e.1@), e.2)) == priors(m0, all.take(i as int)),
        decreases rest@.len(),
    {
        let ghost r0 = rest@;
        let (ns, key, value) = rest.remove(0);
        assert(ns@ == all[i as int].0.0 && key@ == all[i as int].0.1 && value == all[i as int].1);
        let ghost before = store.view();
        let prev = store.take(ns.as_str(), key.as_str());
        store.set(ns.as_str(), key.as_str(), value);
        proof {
            let k = (ns@, key@);
            assert(store.view() =~= before.insert(k, all[i as int].1));
            let tk = all.take(i + 1);
            assert(tk.drop_last() =~= all.take(i as int));
            assert(tk.last() == all[i as int]);
            assert forall|t: int| 0 <= t < rest@.len() implies ((#[trigger] rest@[t]).0@, rest@[t].1@, rest@[t].2) == (all[i + 1 + t].0.0, all[i + 1 + t].0.1, all[i + 1 + t].1) by {
                assert(rest@[t] == r0[t + 1]);
            }
        }
        let ghost pv = previous@.map_values(|e: (String, String, Option<Json>)| ((e.0@, e.1@), e.2));
        previous.push((ns, key, prev));
        assert(previous@.map_values(|e: (String, String, Option<Json>)| ((e.0@, e.1@), e.2)) =~= pv.push(((all[i as int].0.0, all[i as int].0.1), opt_get(before, all[i as int].0))));
        i = i + 1;
    }
    assert(all.take(n as int) =~= all);
    Ok(OverrideGuard { previous })
}

/// Ends a batch of overrides: every address it set is put back to what it
/// held before, the last one set first.
pub fn restore_overrides(store: &mut OverrideStore, guard: OverrideGuard)
    requires
        old(store).wf(),
    ensures
        final(store).wf(),
        final(store).view() == unwind(old(store).view(), guard.previous_view()),
{
    let ghost target = unwind(store.view(), guard.previous_view());
    let mut previous = guard.previous;
    while previous.len() > 0
        invariant
            store.wf(),
            unwind(store.view(), previous@.map_values(|e: (String, String, Option<Json>)| ((e.0@, e.1@), e.2))) == target,
        decreases previous@.len(),
    {
        let ghost pv = previous@.map_values(|e: (String, String, Option<Json>)| ((e.0@, e.1@), e.2));
        let ghost cur = store.view();
        match previous.pop() {
            Some((ns, key, prev)) => {
                assert(pv.last() == ((ns@, key@), prev));
                assert(pv.drop_last() =~= previous@.map_values(|e: (String, String, Option<Json>)| ((e.0@, e.1@), e.2)));
                match prev {
                    Some(v) => store.set(ns.as_str(), key.as_str(), v),
                    None => {
                        let _ = store.take(ns.as_str(), key.as_str());
                    },
                }
            },
            None => {},
        }
    }
    assert(previous@.map_values(|e: (String, String, Option<Json>)| ((e.0@, e.1@), e.2)) =~= Seq::<(OverrideKey, Option<Json>)>::empty());
}

/// Putting back what a batch replaced gives the overrides as they were
/// before the batch.
pub proof fn lemma_unwind_undoes_batch(m: Map<OverrideKey, Json>, ps: Seq<(OverrideKey, Json)>)
    ensures
        unwind(apply_all(m, ps), priors(m, ps)) == m,
    decreases ps.len(),
{
    if ps.len() > 0 {
        let rest = ps.drop_last();
        let a = apply_all(m, rest);
        let k = ps.last().0;
        let rs = priors(m, ps);
        assert(rs.drop_last() == priors(m, rest));
        assert(restore_one(a.insert(k, ps.last().1), rs.last()) =~= a);
        lemma_unwind_undoes_batch(m, rest);
    }
}

/// Batches nest: with a batch A in force and a batch B set on top of it,
/// ending B gives back the overrides as A left them, and ending A then gives
/// back the overrides from before A.
pub proof fn lemma_nested_batches_unwind(
    m: Map<OverrideKey, Json>,
    a: Seq<(OverrideKey, Json)>,
    b: Seq<(OverrideKey, Json)>,
)
    ensures
        unwind(apply_all(apply_all(m, a), b), priors(apply_all(m, a), b)) == apply_all(m, a),
        unwind(unwind(apply_all(apply_all(m, a), b), priors(apply_all(m, a), b)), priors(m, a))
            == m,
{
    lemma_unwind_undoes_batch(apply_all(m, a), b);
    lemma_unwind_undoes_batch(m, a);
}

/// A batch with one entry that the registry does not accept is refused as a
/// whole: after the attempt every read, overrides first, gives what it gave
/// before, whatever the other entries are.
pub proof fn lemma_refused_batch_keeps_reads(
    opts: Options,
    reg: SchemaRegistry,
    es: Seq<(String, String, Json)>,
    i: int,
    before: Map<OverrideKey, Json>,
    after: Map<OverrideKey, Json>,
    ns: Seq<char>,
    key: Seq<char>,
)
    requires
        0 <= i < es.len(),
        !override_accepted(reg, es[i].0@, es[i].1@, es[i].2),
        batch_outcome(before, reg, es, after),
    ensures
        after == before,
        opts.resolve_with(after, ns, key) == opts.resolve_with(before, ns, key),
{
}

} // verus!

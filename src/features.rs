use vstd::prelude::*;

use crate::context::{ContextValue, FeatureContext};
use crate::json::{member, take_three, take_two, Json};
use crate::text::same_text;

verus! {

/// The lower-case form of a string.
pub uninterp spec fn lower_of(s: Seq<char>) -> Seq<char>;

/// Relies on `str::to_lowercase`: the lower-case form of a string, which
/// depends on its characters alone.
#[verifier::external_body]
fn lowercase(s: &str) -> (r: String)
    ensures
        r@ == lower_of(s@),
{
    s.to_lowercase()
}

/// Two strings are equal once both are lower-cased.
pub open spec fn same_folded(a: Seq<char>, b: Seq<char>) -> bool {
    lower_of(a) == lower_of(b)
}

/// Compares two strings without regard to case.
pub fn equal_folded(a: &str, b: &str) -> (r: bool)
    ensures
        r == same_folded(a@, b@),
{
    let x = lowercase(a);
    let y = lowercase(b);
    same_text(x.as_str(), y.as_str())
}

/// How a condition compares a context property with its operand.
#[derive(Debug, Clone, Copy, PartialEq, Eq, Structural)]
pub enum OperatorKind {
    In,
    NotIn,
    Contains,
    NotContains,
    Equals,
    NotEquals,
}

pub struct OperatorData {
    pub kind: OperatorKind,
    pub value: Json,
}

/// One test of a context property.
pub struct ConditionData {
    pub property: String,
    pub operator: OperatorData,
}

/// A rule of a feature: conditions that must all hold, and the share of
/// buckets, from 0 to 100, that the rule admits.
pub struct SegmentData {
    pub name: String,
    pub rollout: u8,
    pub conditions: Vec<ConditionData>,
}

/// A feature's configuration: a switch and its segments, in order.
pub struct FeatureData {
    pub enabled: bool,
    pub segments: Vec<SegmentData>,
}

/// The rollout of a segment that gives none.
pub fn default_rollout() -> (r: u8)
    ensures
        r == 100,
{
    100
}

/// A scalar property equals a JSON scalar of its own type; strings are
/// compared without regard to case. A list, or a value of another type,
/// never equals.
pub open spec fn scalar_matches(p: ContextValue, j: Json) -> bool {
    match p {
        ContextValue::String(s) => match j {
            Json::Str(v) => same_folded(s@, v@),
            _ => false,
        },
        ContextValue::Int(i) => match j {
            Json::Int(v) => i == v,
            _ => false,
        },
        ContextValue::Bool(b) => match j {
            Json::Bool(v) => b == v,
            _ => false,
        },
        _ => false,
    }
}

/// Some element of `items` equals `p`.
pub open spec fn any_scalar_match(p: ContextValue, items: Seq<Json>) -> bool {
    exists|i: int| 0 <= i < items.len() && scalar_matches(p, #[trigger] items[i])
}

/// Some element of `l` equals `s` once both are lower-cased.
pub open spec fn any_folded_match(l: Seq<String>, s: Seq<char>) -> bool {
    exists|i: int| 0 <= i < l.len() && same_folded(#[trigger] l[i]@, s)
}

/// IN: the property is a scalar and equals an element of the operand array.
pub open spec fn in_holds(p: Option<ContextValue>, v: Json) -> bool {
    match p {
        Some(p) => match v {
            Json::Array(items) => !p.is_list() && any_scalar_match(p, items@),
            _ => false,
        },
        None => false,
    }
}

/// CONTAINS: the property is a list with an element equal to the scalar
/// operand; strings are compared without regard to case.
pub open spec fn contains_holds(p: Option<ContextValue>, v: Json) -> bool {
    match p {
        Some(ContextValue::StringList(l)) => match v {
            Json::Str(s) => any_folded_match(l@, s@),
            _ => false,
        },
        Some(ContextValue::IntList(l)) => match v {
            Json::Int(n) => l@.contains(n),
            _ => false,
        },
        Some(ContextValue::BoolList(l)) => match v {
            Json::Bool(b) => l@.contains(b),
            _ => false,
        },
        _ => false,
    }
}

/// EQUALS: the property is a scalar equal to the operand.
pub open spec fn equals_holds(p: Option<ContextValue>, v: Json) -> bool {
    match p {
        Some(p) => scalar_matches(p, v),
        None => false,
    }
}

pub open spec fn operator_holds(kind: OperatorKind, p: Option<ContextValue>, v: Json) -> bool {
    match kind {
        OperatorKind::In => in_holds(p, v),
        OperatorKind::NotIn => !in_holds(p, v),
        OperatorKind::Contains => contains_holds(p, v),
        OperatorKind::NotContains => !contains_holds(p, v),
        OperatorKind::Equals => equals_holds(p, v),
        OperatorKind::NotEquals => !equals_holds(p, v),
    }
}

fn scalar_eq(p: &ContextValue, j: &Json) -> (r: bool)
    ensures
        r == scalar_matches(*p, *j),
{
    match p {
        ContextValue::String(s) => match j {
            Json::Str(v) => equal_folded(s.as_str(), v.as_str()),
            _ => false,
        },
        ContextValue::Int(i) => match j {
            Json::Int(v) => *i == *v,
            _ => false,
        },
        ContextValue::Bool(b) => match j {
            Json::Bool(v) => *b == *v,
            _ => false,
        },
        _ => false,
    }
}

fn evaluate_in(p: &ContextValue, v: &Json) -> (r: bool)
    ensures
        r == in_holds(Some(*p), *v),
{
    match p {
        ContextValue::StringList(_) | ContextValue::IntList(_) | ContextValue::BoolList(_) => {
            return false;
        },
        _ => {},
    }
    match v {
        Json::Array(items) => {
            let mut i: usize = 0;
            while i < items.len()
                invariant
                    *v == Json::Array(*items),
                    !p.is_list(),
                    i <= items@.len(),
                    forall|t: int| 0 <= t < i ==> !scalar_matches(*p, #[trigger] items@[t]),
                decreases items@.len() - i,
            {
                if scalar_eq(p, &items[i]) {
                    assert(scalar_matches(*p, items@[i as int]));
                    return true;
                }
                i = i + 1;
            }
            false
        },
        _ => false,
    }
}

fn evaluate_contains(p: &ContextValue, v: &Json) -> (r: bool)
    ensures
        r == contains_holds(Some(*p), *v),
{
    match p {
        ContextValue::StringList(l) => match v {
            Json::Str(s) => {
                let mut i: usize = 0;
                while i < l.len()
                    invariant
                        *p == ContextValue::StringList(*l),
                        *v == Json::Str(*s),
                        i <= l@.len(),
                        forall|t: int| 0 <= t < i ==> !same_folded(#[trigger] l@[t]@, s@),
                    decreases l@.len() - i,
                {
                    if equal_folded(l[i].as_str(), s.as_str()) {
                        assert(same_folded(l@[i as int]@, s@));
                        return true;
                    }
                    i = i + 1;
                }
                false
            },
            _ => false,
        },
        ContextValue::IntList(l) => match v {
            Json::Int(n) => {
                let mut i: usize = 0;
                while i < l.len()
                    invariant
                        *p == ContextValue::IntList(*l),
                        *v == Json::Int(*n),
                        i <= l@.len(),
                        forall|t: int| 0 <= t < i ==> #[trigger] l@[t] != *n,
                    decreases l@.len() - i,
                {
                    if l[i] == *n {
                        assert(l@[i as int] == *n);
                        return true;
                    }
                    i = i + 1;
                }
                false
            },
            _ => false,
        },
        ContextValue::BoolList(l) => match v {
            Json::Bool(b) => {
                let mut i: usize = 0;
                while i < l.len()
                    invariant
                        *p == ContextValue::BoolList(*l),
                        *v == Json::Bool(*b),
                        i <= l@.len(),
                        forall|t: int| 0 <= t < i ==> #[trigger] l@[t] != *b,
                    decreases l@.len() - i,
                {
                    if l[i] == *b {
                        assert(l@[i as int] == *b);
                        return true;
                    }
                    i = i + 1;
                }
                false
            },
            _ => false,
        },
        _ => false,
    }
}

impl ConditionData {
    /// Whether the condition holds of the context. A property that the
    /// context lacks makes every condition false, negations included.
    pub open spec fn holds(&self, ctx: &FeatureContext) -> bool {
        ctx.value_of(self.property@) is Some && operator_holds(
            self.operator.kind,
            ctx.value_of(self.property@),
            self.operator.value,
        )
    }

    pub fn evaluate(&self, ctx: &FeatureContext) -> (r: bool)
        requires
            ctx.wf(),
        ensures
            r == self.holds(ctx),
    {
        let v = &self.operator.value;
        match ctx.get(self.property.as_str()) {
            None => false,
            Some(p) => match self.operator.kind {
                OperatorKind::In => evaluate_in(p, v),
                OperatorKind::NotIn => !evaluate_in(p, v),
                OperatorKind::Contains => evaluate_contains(p, v),
                OperatorKind::NotContains => !evaluate_contains(p, v),
                OperatorKind::Equals => scalar_eq(p, v),
                OperatorKind::NotEquals => !scalar_eq(p, v),
            },
        }
    }
}

impl SegmentData {
    /// Every condition holds; an empty list holds trivially.
    pub open spec fn conditions_hold(&self, ctx: &FeatureContext) -> bool {
        forall|i: int| 0 <= i < self.conditions@.len() ==> #[trigger] self.conditions@[i].holds(ctx)
    }

    /// Rollout 0 admits no bucket, 100 admits every one, and any other
    /// value admits the buckets up to and including itself.
    pub open spec fn admits(&self, bucket: nat) -> bool {
        if self.rollout == 0 {
            false
        } else if self.rollout == 100 {
            true
        } else {
            bucket <= self.rollout
        }
    }

    fn all_conditions_match(&self, ctx: &FeatureContext) -> (r: bool)
        requires
            ctx.wf(),
        ensures
            r == self.conditions_hold(ctx),
    {
        let mut i: usize = 0;
        while i < self.conditions.len()
            invariant
                ctx.wf(),
                i <= self.conditions@.len(),
                forall|t: int| 0 <= t < i ==> #[trigger] self.conditions@[t].holds(ctx),
            decreases self.conditions@.len() - i,
        {
            if !self.conditions[i].evaluate(ctx) {
                return false;
            }
            i = i + 1;
        }
        true
    }

    fn in_rollout(&self, ctx: &mut FeatureContext) -> (r: bool)
        requires
            old(ctx).wf(),
        ensures
            final(ctx).wf(),
            r == self.admits(old(ctx).bucket()),
            final(ctx).entries_view() == old(ctx).entries_view(),
            final(ctx).identity_view() == old(ctx).identity_view(),
    {
        if self.rollout == 0 {
            return false;
        }
        if self.rollout == 100 {
            return true;
        }
        ctx.id() <= self.rollout as u64
    }
}

impl FeatureData {
    /// The feature is on: it is enabled, and some segment has all its
    /// conditions hold and admits the context's bucket.
    pub open spec fn holds(&self, ctx: &FeatureContext) -> bool {
        self.enabled && exists|i: int|
            0 <= i < self.segments@.len() && #[trigger] self.segments@[i].conditions_hold(ctx)
                && self.segments@[i].admits(ctx.bucket())
    }

    /// Evaluates the feature against a context. The context is changed only
    /// in that it keeps its bucket id once computed.
    pub fn evaluate(&self, feature_name: &str, ctx: &mut FeatureContext) -> (r: bool)
        requires
            old(ctx).wf(),
        ensures
            final(ctx).wf(),
            r == self.holds(old(ctx)),
            final(ctx).entries_view() == old(ctx).entries_view(),
            final(ctx).identity_view() == old(ctx).identity_view(),
    {
        let _ = feature_name;
        if !self.enabled {
            return false;
        }
        let ghost c0 = *ctx;
        let mut i: usize = 0;
        while i < self.segments.len()
            invariant
                ctx.wf(),
                c0 == *old(ctx),
                self.enabled,
                i <= self.segments@.len(),
                ctx.entries_view() == c0.entries_view(),
                ctx.identity_view() == c0.identity_view(),
                forall|t: int|
                    0 <= t < i ==> !(#[trigger] self.segments@[t].conditions_hold(&c0)
                        && self.segments@[t].admits(c0.bucket())),
            decreases self.segments@.len() - i,
        {
            let segment = &self.segments[i];
            proof {
                lemma_same_views_same_conditions(segment, *ctx, c0);
            }
            if segment.all_conditions_match(ctx) {
                if segment.in_rollout(ctx) {
                    assert(self.segments@[i as int].conditions_hold(&c0));
                    assert(self.segments@[i as int].admits(c0.bucket()));
                    return true;
                }
            }
            i = i + 1;
        }
        false
    }
}

proof fn lemma_same_views_same_conditions(s: &SegmentData, c1: FeatureContext, c2: FeatureContext)
    requires
        c1.entries_view() == c2.entries_view(),
    ensures
        s.conditions_hold(&c1) == s.conditions_hold(&c2),
{
    assert forall|i: int| 0 <= i < s.conditions@.len() implies s.conditions@[i].holds(&c1)
        == s.conditions@[i].holds(&c2) by {
        assert(c1.value_of(s.conditions@[i].property@) == c2.value_of(s.conditions@[i].property@));
    }
}


/// The operator named by a `kind` string of the wire format.
pub open spec fn kind_of(k: Seq<char>) -> Option<OperatorKind> {
    if k == "in"@ {
        Some(OperatorKind::In)
    } else if k == "not_in"@ {
        Some(OperatorKind::NotIn)
    } else if k == "contains"@ {
        Some(OperatorKind::Contains)
    } else if k == "not_contains"@ {
        Some(OperatorKind::NotContains)
    } else if k == "equals"@ {
        Some(OperatorKind::Equals)
    } else if k == "not_equals"@ {
        Some(OperatorKind::NotEquals)
    } else {
        None
    }
}

/// A rollout member: absent means 100; else an integer from 0 to 100.
pub open spec fn rollout_of(j: Option<Json>) -> Option<u8> {
    match j {
        None => Some(100),
        Some(Json::Int(n)) => if 0 <= n <= 100 {
            Some(n as u8)
        } else {
            None
        },
        _ => None,
    }
}

/// A list member: absent means empty; else it must be an array.
pub open spec fn list_of(j: Option<Json>) -> Option<Seq<Json>> {
    match j {
        None => Some(Seq::empty()),
        Some(Json::Array(v)) => Some(v@),
        _ => None,
    }
}

/// A condition as the wire format writes it:
/// `{"property": string, "operator": {"kind": string, "value": any}}`.
pub open spec fn condition_of(j: Json) -> Option<ConditionData> {
    match j {
        Json::Object(m) => match member(m@, "property"@) {
            Some(Json::Str(p)) => match member(m@, "operator"@) {
                Some(Json::Object(op)) => match member(op@, "kind"@) {
                    Some(Json::Str(k)) => match member(op@, "value"@) {
                        Some(v) => match kind_of(k@) {
                            Some(kind) => Some(
                                ConditionData { property: p, operator: OperatorData { kind, value: v } },
                            ),
                            None => None,
                        },
                        None => None,
                    },
                    _ => None,
                },
                _ => None,
            },
            _ => None,
        },
        _ => None,
    }
}

/// Every element is a well-formed condition.
pub open spec fn conditions_ok(cs: Seq<Json>) -> bool {
    forall|i: int| 0 <= i < cs.len() ==> (#[trigger] condition_of(cs[i])) is Some
}

/// `v` holds the conditions that `cs` describes, in order.
pub open spec fn conditions_parsed(cs: Seq<Json>, v: Seq<ConditionData>) -> bool {
    &&& cs.len() == v.len()
    &&& forall|i: int| 0 <= i < cs.len() ==> #[trigger] condition_of(cs[i]) == Some(v[i])
}

/// A segment as the wire format writes it:
/// `{"name": string, "rollout": 0..=100 (default 100), "conditions": [...] (default [])}`.
pub open spec fn segment_ok(j: Json) -> bool {
    match j {
        Json::Object(m) => {
            &&& member(m@, "name"@) matches Some(Json::Str(_))
            &&& rollout_of(member(m@, "rollout"@)) is Some
            &&& list_of(member(m@, "conditions"@)) matches Some(cs) && conditions_ok(cs)
        },
        _ => false,
    }
}

/// `s` is the segment that `j` describes.
pub open spec fn segment_parsed(j: Json, s: SegmentData) -> bool {
    match j {
        Json::Object(m) => {
            &&& member(m@, "name"@) == Some(Json::Str(s.name))
            &&& rollout_of(member(m@, "rollout"@)) == Some(s.rollout)
            &&& list_of(member(m@, "conditions"@)) matches Some(cs) && conditions_parsed(
                cs,
                s.conditions@,
            )
        },
        _ => false,
    }
}

/// Every element is a well-formed segment.
pub open spec fn segments_ok(ss: Seq<Json>) -> bool {
    forall|i: int| 0 <= i < ss.len() ==> segment_ok(#[trigger] ss[i])
}

/// A feature as the wire format writes it:
/// `{"enabled": bool, "segments": [...] (default [])}`; other members are
/// ignored.
pub open spec fn feature_ok(j: Json) -> bool {
    match j {
        Json::Object(m) => {
            &&& member(m@, "enabled"@) matches Some(Json::Bool(_))
            &&& list_of(member(m@, "segments"@)) matches Some(ss) && segments_ok(ss)
        },
        _ => false,
    }
}

/// `f` is the feature that `j` describes.
pub open spec fn feature_parsed(j: Json, f: FeatureData) -> bool {
    match j {
        Json::Object(m) => {
            &&& member(m@, "enabled"@) == Some(Json::Bool(f.enabled))
            &&& list_of(member(m@, "segments"@)) matches Some(ss) && ss.len() == f.segments@.len()
                && forall|i: int| 0 <= i < ss.len() ==> segment_parsed(#[trigger] ss[i], f.segments@[i])
        },
        _ => false,
    }
}

fn kind_from(k: &str) -> (r: Option<OperatorKind>)
    ensures
        r == kind_of(k@),
{
    if same_text(k, "in") {
        Some(OperatorKind::In)
    } else if same_text(k, "not_in") {
        Some(OperatorKind::NotIn)
    } else if same_text(k, "contains") {
        Some(OperatorKind::Contains)
    } else if same_text(k, "not_contains") {
        Some(OperatorKind::NotContains)
    } else if same_text(k, "equals") {
        Some(OperatorKind::Equals)
    } else if same_text(k, "not_equals") {
        Some(OperatorKind::NotEquals)
    } else {
        None
    }
}

fn list_from(j: Option<Json>) -> (r: Option<Vec<Json>>)
    ensures
        match r {
            Some(v) => list_of(j) == Some(v@),
            None => list_of(j) is None,
        },
{
    match j {
        None => Some(Vec::new()),
        Some(Json::Array(v)) => Some(v),
        _ => None,
    }
}

impl ConditionData {
    /// Reads a condition from its JSON form.
    pub fn from_json(j: Json) -> (r: Option<ConditionData>)
        ensures
            r == condition_of(j),
    {
        proof {
            reveal_strlit("property");
            reveal_strlit("operator");
            reveal_strlit("kind");
            reveal_strlit("value");
            assert("property"@[0] != "operator"@[0]);
            assert("kind"@.len() != "value"@.len());
        }
        match j {
            Json::Object(m) => {
                let (p, op) = take_two(m, "property", "operator");
                match p {
                    Some(Json::Str(p)) => match op {
                        Some(Json::Object(op)) => {
                            let (k, v) = take_two(op, "kind", "value");
                            match k {
                                Some(Json::Str(k)) => match v {
                                    Some(v) => match kind_from(k.as_str()) {
                                        Some(kind) => Some(
                                            ConditionData {
                                                property: p,
                                                operator: OperatorData { kind, value: v },
                                            },
                                        ),
                                        None => None,
                                    },
                                    None => None,
                                },
                                _ => None,
                            }
                        },
                        _ => None,
                    },
                    _ => None,
                }
            },
            _ => None,
        }
    }
}

fn conditions_from(items: Vec<Json>) -> (r: Option<Vec<ConditionData>>)
    ensures
        r is Some <==> conditions_ok(items@),
        r matches Some(v) ==> conditions_parsed(items@, v@),
{
    let ghost all = items@;
    let n = items.len();
    let mut rest = items;
    let mut out: Vec<ConditionData> = Vec::new();
    let mut i: usize = 0;
    while rest.len() > 0
        invariant
            i <= all.len(),
            n == all.len(),
            all == items@,
            rest@ == all.skip(i as int),
            out@.len() == i,
            forall|t: int| 0 <= t < i ==> #[trigger] condition_of(all[t]) == Some(out@[t]),
        decreases rest@.len(),
    {
        let j = rest.remove(0);
        assert(j == all[i as int]);
        match ConditionData::from_json(j) {
            Some(c) => out.push(c),
            None => {
                assert(condition_of(all[i as int]) is None);
                return None;
            },
        }
        assert(rest@ =~= all.skip(i + 1));
        i = i + 1;
    }
    Some(out)
}

impl SegmentData {
    /// Reads a segment from its JSON form.
    pub fn from_json(j: Json) -> (r: Option<SegmentData>)
        ensures
            r is Some <==> segment_ok(j),
            r matches Some(s) ==> segment_parsed(j, s),
    {
        proof {
            reveal_strlit("name");
            reveal_strlit("rollout");
            reveal_strlit("conditions");
            assert("name"@.len() != "rollout"@.len());
            assert("name"@.len() != "conditions"@.len());
            assert("rollout"@.len() != "conditions"@.len());
        }
        match j {
            Json::Object(m) => {
                let (name, rollout, conditions) = take_three(m, "name", "rollout", "conditions");
                let name = match name {
                    Some(Json::Str(n)) => n,
                    _ => {
                        return None;
                    },
                };
                let rollout: u8 = match rollout {
                    None => default_rollout(),
                    Some(Json::Int(n)) => {
                        if 0 <= n && n <= 100 {
                            n as u8
                        } else {
                            return None;
                        }
                    },
                    _ => {
                        return None;
                    },
                };
                let items = match list_from(conditions) {
                    Some(items) => items,
                    None => {
                        return None;
                    },
                };
                match conditions_from(items) {
                    Some(conditions) => Some(SegmentData { name, rollout, conditions }),
                    None => None,
                }
            },
            _ => None,
        }
    }
}

impl FeatureData {
    /// Reads a feature configuration from its JSON form.
    pub fn from_json(j: Json) -> (r: Option<FeatureData>)
        ensures
            r is Some <==> feature_ok(j),
            r matches Some(f) ==> feature_parsed(j, f),
    {
        proof {
            reveal_strlit("enabled");
            reveal_strlit("segments");
            assert("enabled"@.len() != "segments"@.len());
        }
        match j {
            Json::Object(m) => {
                let ghost m_ghost = m;
                let (enabled, segments) = take_two(m, "enabled", "segments");
                let ghost segments_member = segments;
                let enabled = match enabled {
                    Some(Json::Bool(b)) => b,
                    _ => {
                        return None;
                    },
                };
                let items = match list_from(segments) {
                    Some(items) => items,
                    None => {
                        return None;
                    },
                };
                let ghost all = items@;
                let n = items.len();
                let mut rest = items;
                let mut out: Vec<SegmentData> = Vec::new();
                let mut i: usize = 0;
                while rest.len() > 0
                    invariant
                        i <= all.len(),
                        n == all.len(),
                        list_of(segments_member) == Some(all),
                        j == Json::Object(m_ghost),
                        member(m_ghost@, "segments"@) == segments_member,
                        rest@ == all.skip(i as int),
                        out@.len() == i,
                        forall|t: int| 0 <= t < i ==> segment_ok(#[trigger] all[t]),
                        forall|t: int| 0 <= t < i ==> segment_parsed(#[trigger] all[t], out@[t]),
                    decreases rest@.len(),
                {
                    let item = rest.remove(0);
                    assert(item == all[i as int]);
                    match SegmentData::from_json(item) {
                        Some(s) => out.push(s),
                        None => {
                            assert(!segment_ok(all[i as int]));
                            assert(0 <= i < all.len());
                            assert(!segments_ok(all));
                            return None;
                        },
                    }
                    assert(rest@ =~= all.skip(i + 1));
                    i = i + 1;
                }
                Some(FeatureData { enabled, segments: out })
            },
            _ => None,
        }
    }
}


/// The feature that `j` describes is on for the context.
pub open spec fn config_holds(j: Json, ctx: &FeatureContext) -> bool {
    exists|f: FeatureData| feature_parsed(j, f) && #[trigger] f.holds(ctx)
}

proof fn lemma_parsed_features_agree(j: Json, f1: FeatureData, f2: FeatureData, ctx: &FeatureContext)
    requires
        feature_parsed(j, f1),
        feature_parsed(j, f2),
    ensures
        f1.holds(ctx) == f2.holds(ctx),
{
    if let Json::Object(m) = j {
        let ss = list_of(member(m@, "segments"@))->Some_0;
        assert forall|i: int| 0 <= i < ss.len() implies (#[trigger] f1.segments@[i]).conditions_hold(ctx)
            == f2.segments@[i].conditions_hold(ctx) && f1.segments@[i].admits(ctx.bucket())
            == f2.segments@[i].admits(ctx.bucket()) by {
            assert(segment_parsed(ss[i], f1.segments@[i]));
            assert(segment_parsed(ss[i], f2.segments@[i]));
            let s1 = f1.segments@[i];
            let s2 = f2.segments@[i];
            if let Json::Object(sm) = ss[i] {
                let cs = list_of(member(sm@, "conditions"@))->Some_0;
                assert forall|k: int| 0 <= k < s1.conditions@.len() implies s1.conditions@[k]
                    == s2.conditions@[k] by {
                    assert(condition_of(cs[k]) == Some(s1.conditions@[k]));
                    assert(condition_of(cs[k]) == Some(s2.conditions@[k]));
                }
                if s1.conditions_hold(ctx) {
                    assert forall|k: int| 0 <= k < s2.conditions@.len() implies #[trigger] s2.conditions@[k].holds(ctx) by {
                        assert(s1.conditions@[k].holds(ctx));
                    }
                }
                if s2.conditions_hold(ctx) {
                    assert forall|k: int| 0 <= k < s1.conditions@.len() implies #[trigger] s1.conditions@[k].holds(ctx) by {
                        assert(s2.conditions@[k].holds(ctx));
                    }
                }
            }
        }
        if f1.holds(ctx) {
            let i = choose|i: int|
                0 <= i < f1.segments@.len() && #[trigger] f1.segments@[i].conditions_hold(ctx)
                    && f1.segments@[i].admits(ctx.bucket());
            assert(f2.segments@[i].conditions_hold(ctx));
        }
        if f2.holds(ctx) {
            let i = choose|i: int|
                0 <= i < f2.segments@.len() && #[trigger] f2.segments@[i].conditions_hold(ctx)
                    && f2.segments@[i].admits(ctx.bucket());
            assert(f1.segments@[i].conditions_hold(ctx));
        }
    }
}

/// Decides a feature from its configuration, as read from the value store.
/// A missing configuration, or one that is not a well-formed feature, makes
/// the feature off.
pub fn evaluate_config(config: Option<Json>, feature_name: &str, ctx: &mut FeatureContext) -> (r: bool)
    requires
        old(ctx).wf(),
    ensures
        final(ctx).wf(),
        r == (config matches Some(j) && feature_ok(j) && config_holds(j, old(ctx))),
        final(ctx).entries_view() == old(ctx).entries_view(),
        final(ctx).identity_view() == old(ctx).identity_view(),
{
    let ghost c0 = *ctx;
    match config {
        None => false,
        Some(j) => {
            let ghost gj = j;
            match FeatureData::from_json(j) {
                None => false,
                Some(f) => {
                    let r = f.evaluate(feature_name, ctx);
                    proof {
                        if !r {
                            assert forall|f2: FeatureData| feature_parsed(gj, f2) implies !#[trigger] f2.holds(&c0) by {
                                lemma_parsed_features_agree(gj, f, f2, &c0);
                            }
                        }
                    }
                    r
                },
            }
        },
    }
}

/// A segment with rollout 0 admits no bucket; one with rollout 100 admits
/// every bucket.
pub proof fn lemma_rollout_extremes(s: SegmentData, bucket: nat)
    ensures
        s.rollout == 0 ==> !s.admits(bucket),
        s.rollout == 100 ==> s.admits(bucket),
{
}

/// A feature whose segments all have rollout 0 is off for every context.
pub proof fn lemma_zero_rollout_is_off(f: FeatureData, ctx: &FeatureContext)
    requires
        forall|i: int| 0 <= i < f.segments@.len() ==> (#[trigger] f.segments@[i]).rollout == 0,
    ensures
        !f.holds(ctx),
{
}

/// An enabled feature with a segment of rollout 100 whose conditions hold is
/// on.
pub proof fn lemma_full_rollout_is_on(f: FeatureData, i: int, ctx: &FeatureContext)
    requires
        f.enabled,
        0 <= i < f.segments@.len(),
        f.segments@[i].rollout == 100,
        f.segments@[i].conditions_hold(ctx),
    ensures
        f.holds(ctx),
{
    assert(f.segments@[i].admits(ctx.bucket()));
}

/// Evaluation depends only on the configuration and on what the context
/// holds, so repeating it gives the same answer.
pub proof fn lemma_evaluation_deterministic(f: FeatureData, c1: &FeatureContext, c2: &FeatureContext)
    requires
        c1.entries_view() == c2.entries_view(),
        c1.identity_view() == c2.identity_view(),
    ensures
        f.holds(c1) == f.holds(c2),
{
    assert forall|i: int| 0 <= i < f.segments@.len() implies (#[trigger] f.segments@[i]).conditions_hold(c1)
        == f.segments@[i].conditions_hold(c2) by {
        lemma_same_views_same_conditions(&f.segments@[i], *c1, *c2);
    }
    if f.holds(c1) {
        let i = choose|i: int|
            0 <= i < f.segments@.len() && #[trigger] f.segments@[i].conditions_hold(c1)
                && f.segments@[i].admits(c1.bucket());
        assert(f.segments@[i].conditions_hold(c2));
    }
    if f.holds(c2) {
        let i = choose|i: int|
            0 <= i < f.segments@.len() && #[trigger] f.segments@[i].conditions_hold(c2)
                && f.segments@[i].admits(c2.bucket());
        assert(f.segments@[i].conditions_hold(c1));
    }
}

/// A disabled feature is off, whatever its segments.
pub proof fn lemma_disabled_is_off(f: FeatureData, ctx: &FeatureContext)
    requires
        !f.enabled,
    ensures
        !f.holds(ctx),
{
}

/// `j` is a string equal to `s` once both are lower-cased.
pub open spec fn folds_to(j: Json, s: Seq<char>) -> bool {
    match j {
        Json::Str(u) => same_folded(s, u@),
        _ => false,
    }
}

/// IN and EQUALS compare strings without regard to case.
pub proof fn lemma_string_comparison_ignores_case(s: String, t: String, items: Vec<Json>)
    ensures
        equals_holds(Some(ContextValue::String(s)), Json::Str(t)) == same_folded(s@, t@),
        in_holds(Some(ContextValue::String(s)), Json::Array(items)) == exists|i: int|
            0 <= i < items@.len() && folds_to(#[trigger] items@[i], s@),
{
    let p = ContextValue::String(s);
    if in_holds(Some(p), Json::Array(items)) {
        let i = choose|i: int| 0 <= i < items@.len() && scalar_matches(p, #[trigger] items@[i]);
        assert(folds_to(items@[i], s@));
    }
    if exists|i: int| 0 <= i < items@.len() && folds_to(#[trigger] items@[i], s@) {
        let i = choose|i: int| 0 <= i < items@.len() && folds_to(#[trigger] items@[i], s@);
        assert(scalar_matches(p, items@[i]));
    }
}

/// Comparisons across kinds of value are false, never an error: a list
/// property is never IN or EQUALS to anything, a scalar property never
/// CONTAINS anything, and scalars of different types are never EQUAL.
pub proof fn lemma_mismatched_kinds_are_false(p: ContextValue, v: Json)
    ensures
        p.is_list() ==> !in_holds(Some(p), v) && !equals_holds(Some(p), v),
        !p.is_list() ==> !contains_holds(Some(p), v),
        p is String && !(v is Str) ==> !equals_holds(Some(p), v),
        p is Int && !(v is Int) ==> !equals_holds(Some(p), v),
        p is Bool && !(v is Bool) ==> !equals_holds(Some(p), v),
{
}


/// Picks which diagnostic events are logged: every `interval`-th call,
/// counting from the first; an interval of 0 picks none. The choice depends
/// only on how many calls came before, so it is reproducible.
pub struct Sampler {
    interval: u64,
    counter: u64,
}

impl Sampler {
    /// Every how many calls one is logged; 0 for none.
    pub closed spec fn every(&self) -> u64 {
        self.interval
    }

    /// The number of calls so far, wrapping around at `u64::MAX`.
    pub closed spec fn calls(&self) -> u64 {
        self.counter
    }

    pub fn new(interval: u64) -> (r: Self)
        ensures
            r.every() == interval,
            r.calls() == 0,
    {
        Sampler { interval, counter: 0 }
    }

    /// Whether this call is logged.
    pub fn should_sample(&mut self) -> (r: bool)
        ensures
            r == (old(self).every() != 0 && old(self).calls() % old(self).every() == 0),
            final(self).every() == old(self).every(),
            final(self).calls() == if old(self).calls() == u64::MAX {
                0
            } else {
                (old(self).calls() + 1) as u64
            },
    {
        let n = self.counter;
        self.counter = if n == u64::MAX {
            0
        } else {
            n + 1
        };
        self.interval != 0 && n % self.interval == 0
    }
}

/// A condition on a property that the context lacks is false, whatever its
/// operator.
pub proof fn lemma_missing_property_is_false(c: ConditionData, ctx: &FeatureContext)
    requires
        ctx.value_of(c.property@) is None,
    ensures
        !c.holds(ctx),
{
}

/// CONTAINS on a list of strings compares without regard to case.
pub proof fn lemma_contains_ignores_case(l: Vec<String>, t: String)
    ensures
        contains_holds(Some(ContextValue::StringList(l)), Json::Str(t)) == exists|i: int|
            0 <= i < l@.len() && same_folded(#[trigger] l@[i]@, t@),
{
}

} // verus!

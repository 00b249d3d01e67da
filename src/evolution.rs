use vstd::prelude::*;

use vstd::string::StringExecFns;

use crate::json::Json;
use crate::schema::{
    append_json_scalar, find_option, find_schema, NamespaceSchema, OptionSchema, OptionType,
    SchemaRegistry,
    ValidationError,
};
use crate::text::{key_order, lemma_key_order_contents, order_by_text, same_text};

verus! {

/// One difference between two versions of the schemas.
pub enum SchemaChangeAction {
    NamespaceAdded(String),
    NamespaceRemoved(String),
    OptionAdded { namespace: String, name: String },
    OptionRemoved { namespace: String, name: String },
    TypeChanged { context: String, old: String, new: String },
    DefaultChanged { context: String, old: String, new: String },
}

impl SchemaChangeAction {
    /// The line of a changelog that shows the change.
    pub open spec fn line(&self) -> Seq<char> {
        match self {
            SchemaChangeAction::NamespaceAdded(name) => "+ Namespace:\t "@ + name@,
            SchemaChangeAction::NamespaceRemoved(name) => "- Namespace:\t "@ + name@,
            SchemaChangeAction::OptionAdded { namespace, name } => "+ Option:\t "@ + namespace@ + "."@
                + name@,
            SchemaChangeAction::OptionRemoved { namespace, name } => "- Option:\t "@ + namespace@ + "."@
                + name@,
            SchemaChangeAction::TypeChanged { context, old, new } => "~ Type:\t\t "@ + context@ + ": "@
                + old@ + " -> "@ + new@,
            SchemaChangeAction::DefaultChanged { context, old, new } => "~ Default:\t "@ + context@
                + ": "@ + old@ + " -> "@ + new@,
        }
    }

    /// The change as one line of a changelog.
    pub fn describe(&self) -> (r: String)
        ensures
            r@ == self.line(),
    {
        match self {
            SchemaChangeAction::NamespaceAdded(name) => {
                let mut m = "+ Namespace:\t ".to_owned();
                m.append(name.as_str());
                m
            },
            SchemaChangeAction::NamespaceRemoved(name) => {
                let mut m = "- Namespace:\t ".to_owned();
                m.append(name.as_str());
                m
            },
            SchemaChangeAction::OptionAdded { namespace, name } => {
                let mut m = "+ Option:\t ".to_owned();
                m.append(namespace.as_str());
                m.append(".");
                m.append(name.as_str());
                m
            },
            SchemaChangeAction::OptionRemoved { namespace, name } => {
                let mut m = "- Option:\t ".to_owned();
                m.append(namespace.as_str());
                m.append(".");
                m.append(name.as_str());
                m
            },
            SchemaChangeAction::TypeChanged { context, old, new } => {
                let mut m = "~ Type:\t\t ".to_owned();
                m.append(context.as_str());
                m.append(": ");
                m.append(old.as_str());
                m.append(" -> ");
                m.append(new.as_str());
                m
            },
            SchemaChangeAction::DefaultChanged { context, old, new } => {
                let mut m = "~ Default:\t ".to_owned();
                m.append(context.as_str());
                m.append(": ");
                m.append(old.as_str());
                m.append(" -> ");
                m.append(new.as_str());
                m
            },
        }
    }
}

/// IEEE-754 equality of two doubles given by their bits: neither is NaN,
/// and the bits agree or both are zeros.
pub open spec fn same_float(a: u64, b: u64) -> bool {
    let mag = 0x7fff_ffff_ffff_ffffu64;
    let inf = 0x7ff0_0000_0000_0000u64;
    (a & mag) <= inf && (b & mag) <= inf && (a == b || ((a & mag) == 0 && (b & mag) == 0))
}

/// Two defaults are equal: scalars of one kind with equal values, as
/// serde_json compares them. Arrays and objects, which no option's type
/// admits as a default, never compare equal.
pub open spec fn same_default(a: Json, b: Json) -> bool {
    match a {
        Json::Null => b is Null,
        Json::Bool(x) => b matches Json::Bool(y) && x == y,
        Json::Int(x) => b matches Json::Int(y) && x == y,
        Json::Float(x, _) => b matches Json::Float(y, _) && same_float(x, y),
        Json::Str(x) => b matches Json::Str(y) && x@ == y@,
        _ => false,
    }
}

fn defaults_equal(a: &Json, b: &Json) -> (r: bool)
    ensures
        r == same_default(*a, *b),
{
    let mag: u64 = 0x7fff_ffff_ffff_ffffu64;
    let inf: u64 = 0x7ff0_0000_0000_0000u64;
    match a {
        Json::Null => matches!(b, Json::Null),
        Json::Bool(x) => match b {
            Json::Bool(y) => *x == *y,
            _ => false,
        },
        Json::Int(x) => match b {
            Json::Int(y) => *x == *y,
            _ => false,
        },
        Json::Float(x, _) => match b {
            Json::Float(y, _) => (*x & mag) <= inf && (*y & mag) <= inf && (*x == *y || ((*x & mag)
                == 0 && (*y & mag) == 0)),
            _ => false,
        },
        Json::Str(x) => match b {
            Json::Str(y) => same_text(x.as_str(), y.as_str()),
            _ => false,
        },
        _ => false,
    }
}

/// The name a schema gives a type.
pub open spec fn type_text(t: OptionType) -> Seq<char> {
    match t {
        OptionType::String => "string"@,
        OptionType::Integer => "integer"@,
        OptionType::Number => "number"@,
        OptionType::Boolean => "boolean"@,
    }
}

fn type_label(t: OptionType) -> (r: &'static str)
    ensures
        r@ == type_text(t),
{
    match t {
        OptionType::String => "string",
        OptionType::Integer => "integer",
        OptionType::Number => "number",
        OptionType::Boolean => "boolean",
    }
}

/// An option of an earlier schema survives in a later one: it is still
/// declared, with the same type and the same default.
pub open spec fn option_kept(o: OptionSchema, after: NamespaceSchema) -> bool {
    match find_option(after.options@, o.key@) {
        Some(p) => p.option_type == o.option_type && same_default(o.default, p.default),
        None => false,
    }
}

/// Every option of `before` survives in `after`; options may be added.
pub open spec fn options_kept(before: NamespaceSchema, after: NamespaceSchema) -> bool {
    forall|i: int| 0 <= i < before.options@.len() ==> option_kept(#[trigger] before.options@[i], after)
}

fn schema_file(namespace: &str) -> String {
    let mut f = "schemas/".to_owned();
    f.append(namespace);
    f.append("/schema.json");
    f
}

/// `namespace.key`, the name of an option in messages.
pub open spec fn context_text(namespace: Seq<char>, key: Seq<char>) -> Seq<char> {
    namespace + "."@ + key
}

fn option_context(namespace: &str, key: &str) -> (r: String)
    ensures
        r@ == context_text(namespace@, key@),
{
    let mut c = namespace.to_owned();
    c.append(".");
    c.append(key);
    c
}

/// What a change is and what it is about: 0 an option removed, 1 a type
/// changed, 2 a default changed, 3 an option added (with the option's key,
/// or `namespace.key` for 1 and 2), 4 a namespace removed, 5 a namespace
/// added (with the namespace).
pub open spec fn change_key(c: SchemaChangeAction) -> (int, Seq<char>) {
    match c {
        SchemaChangeAction::OptionRemoved { name, .. } => (0, name@),
        SchemaChangeAction::TypeChanged { context, .. } => (1, context@),
        SchemaChangeAction::DefaultChanged { context, .. } => (2, context@),
        SchemaChangeAction::OptionAdded { name, .. } => (3, name@),
        SchemaChangeAction::NamespaceRemoved(name) => (4, name@),
        SchemaChangeAction::NamespaceAdded(name) => (5, name@),
    }
}

pub open spec fn change_keys(cs: Seq<SchemaChangeAction>) -> Seq<(int, Seq<char>)> {
    cs.map_values(|c: SchemaChangeAction| change_key(c))
}

/// The errors one option of the old schema gives: one when it is removed,
/// else one for a changed type and one for a changed default.
pub open spec fn option_errors(o: OptionSchema, after: NamespaceSchema) -> nat {
    match find_option(after.options@, o.key@) {
        None => 1,
        Some(p) => (if p.option_type != o.option_type {
            1nat
        } else {
            0nat
        }) + (if same_default(o.default, p.default) {
            0nat
        } else {
            1nat
        }),
    }
}

/// The errors of the options, added up.
pub open spec fn errors_for(olds: Seq<OptionSchema>, after: NamespaceSchema) -> nat
    decreases olds.len(),
{
    if olds.len() == 0 {
        0
    } else {
        errors_for(olds.drop_last(), after) + option_errors(olds.last(), after)
    }
}

/// The removals among the old options, in order.
pub open spec fn removals(olds: Seq<OptionSchema>, after: NamespaceSchema) -> Seq<(int, Seq<char>)>
    decreases olds.len(),
{
    if olds.len() == 0 {
        Seq::empty()
    } else {
        let rest = removals(olds.drop_last(), after);
        if find_option(after.options@, olds.last().key@) is None {
            rest.push((0, olds.last().key@))
        } else {
            rest
        }
    }
}

/// The type and default changes among the old options, in order; for each
/// option the type change comes first.
pub open spec fn modifications(ns: Seq<char>, olds: Seq<OptionSchema>, after: NamespaceSchema) -> Seq<
    (int, Seq<char>),
>
    decreases olds.len(),
{
    if olds.len() == 0 {
        Seq::empty()
    } else {
        let rest = modifications(ns, olds.drop_last(), after);
        let o = olds.last();
        match find_option(after.options@, o.key@) {
            None => rest,
            Some(p) => {
                let t = if p.option_type != o.option_type {
                    rest.push((1, context_text(ns, o.key@)))
                } else {
                    rest
                };
                if same_default(o.default, p.default) {
                    t
                } else {
                    t.push((2, context_text(ns, o.key@)))
                }
            },
        }
    }
}

/// The new options that the old schema lacks, in order.
pub open spec fn additions(news: Seq<OptionSchema>, before: NamespaceSchema) -> Seq<(int, Seq<char>)>
    decreases news.len(),
{
    if news.len() == 0 {
        Seq::empty()
    } else {
        let rest = additions(news.drop_last(), before);
        if find_option(before.options@, news.last().key@) is None {
            rest.push((3, news.last().key@))
        } else {
            rest
        }
    }
}

/// The changelog of one namespace: removals, then changes, then additions,
/// each sorted by option key.
pub open spec fn option_changes(ns: Seq<char>, before: NamespaceSchema, after: NamespaceSchema) -> Seq<
    (int, Seq<char>),
> {
    removals(by_key(before.options@), after) + modifications(ns, by_key(before.options@), after)
        + additions(by_key(after.options@), before)
}

proof fn lemma_errors_zero(olds: Seq<OptionSchema>, after: NamespaceSchema)
    ensures
        errors_for(olds, after) == 0 <==> forall|i: int|
            0 <= i < olds.len() ==> option_kept(#[trigger] olds[i], after),
    decreases olds.len(),
{
    if olds.len() > 0 {
        lemma_errors_zero(olds.drop_last(), after);
        if errors_for(olds, after) == 0 {
            assert forall|i: int| 0 <= i < olds.len() implies option_kept(#[trigger] olds[i], after) by {
                if i < olds.len() - 1 {
                    assert(olds.drop_last()[i] == olds[i]);
                }
            }
        }
        if forall|i: int| 0 <= i < olds.len() ==> option_kept(#[trigger] olds[i], after) {
            assert forall|i: int| 0 <= i < olds.drop_last().len() implies option_kept(
                #[trigger] olds.drop_last()[i],
                after,
            ) by {
                assert(olds.drop_last()[i] == olds[i]);
            }
            assert(option_kept(olds[olds.len() - 1], after));
        }
    }
}

/// The keys of the options, in order.
pub open spec fn option_keys(opts: Seq<OptionSchema>) -> Seq<Seq<char>> {
    opts.map_values(|o: OptionSchema| o.key@)
}

/// The options sorted by key, options with equal keys in their order.
pub open spec fn by_key(opts: Seq<OptionSchema>) -> Seq<OptionSchema> {
    key_order(option_keys(opts), opts.len()).map_values(|i: int| opts[i])
}

fn key_order_of_options(opts: &Vec<OptionSchema>) -> (r: Vec<usize>)
    ensures
        r@.map_values(|x: usize| x as int) == key_order(option_keys(opts@), opts@.len()),
        r@.len() == opts@.len(),
        forall|k: int| 0 <= k < r@.len() ==> (#[trigger] r@[k]) < opts@.len(),
{
    let mut ks: Vec<&str> = Vec::new();
    let mut k: usize = 0;
    while k < opts.len()
        invariant
            k <= opts@.len(),
            ks@.map_values(|s: &str| s@) == option_keys(opts@).take(k as int),
        decreases opts@.len() - k,
    {
        let ghost k0 = ks@.map_values(|s: &str| s@);
        let key = opts[k].key.as_str();
        ks.push(key);
        assert(key@ == opts@[k as int].key@);
        assert(ks@.map_values(|s: &str| s@) =~= k0.push(key@));
        assert(option_keys(opts@).take(k + 1) =~= option_keys(opts@).take(k as int).push(opts@[k as int].key@));
        k = k + 1;
    }
    assert(option_keys(opts@).take(opts@.len() as int) =~= option_keys(opts@));
    let r = order_by_text(&ks);
    proof {
        lemma_key_order_contents(option_keys(opts@), opts@.len());
        assert forall|k: int| 0 <= k < r@.len() implies (#[trigger] r@[k]) < opts@.len() by {
            assert(r@.map_values(|x: usize| x as int)[k] == r@[k] as int);
        }
    }
    r
}

proof fn lemma_by_key_kept(olds: Seq<OptionSchema>, after: NamespaceSchema)
    ensures
        errors_for(by_key(olds), after) == 0 <==> forall|i: int|
            0 <= i < olds.len() ==> option_kept(#[trigger] olds[i], after),
{
    let ord = key_order(option_keys(olds), olds.len());
    let sorted = by_key(olds);
    lemma_key_order_contents(option_keys(olds), olds.len());
    lemma_errors_zero(sorted, after);
    if errors_for(sorted, after) == 0 {
        assert forall|i: int| 0 <= i < olds.len() implies option_kept(#[trigger] olds[i], after) by {
            assert(ord.contains(i));
            let k = choose|k: int| 0 <= k < ord.len() && ord[k] == i;
            assert(sorted[k] == olds[i]);
        }
    }
    if forall|i: int| 0 <= i < olds.len() ==> option_kept(#[trigger] olds[i], after) {
        assert forall|k: int| 0 <= k < sorted.len() implies option_kept(#[trigger] sorted[k], after) by {
            assert(0 <= ord[k] < olds.len());
            assert(sorted[k] == olds[ord[k]]);
        }
    }
}

/// Compares the options of one namespace across two versions. Each removed
/// option gives one error, and each kept option one error for a changed
/// type and one for a changed default; the changelog gets the removals,
/// then the changes, then the additions, each sorted by option key.
pub fn compare_schemas(
    namespace: &str,
    old_schema: &NamespaceSchema,
    new_schema: &NamespaceSchema,
    changelog: &mut Vec<SchemaChangeAction>,
    errors: &mut Vec<ValidationError>,
)
    ensures
        final(errors)@.len() == old(errors)@.len() + errors_for(by_key(old_schema.options@), *new_schema),
        final(errors)@.take(old(errors)@.len() as int) == old(errors)@,
        final(errors)@.len() == old(errors)@.len() <==> options_kept(*old_schema, *new_schema),
        change_keys(final(changelog)@) == change_keys(old(changelog)@) + option_changes(
            namespace@,
            *old_schema,
            *new_schema,
        ),
{
    let ghost e0 = errors@;
    let ghost olds = by_key(old_schema.options@);
    let old_order = key_order_of_options(&old_schema.options);
    let mut removed: Vec<SchemaChangeAction> = Vec::new();
    let mut modified: Vec<SchemaChangeAction> = Vec::new();
    let mut added: Vec<SchemaChangeAction> = Vec::new();
    let mut i: usize = 0;
    assert(olds.take(0) =~= Seq::<OptionSchema>::empty());
    assert(change_keys(removed@) =~= Seq::<(int, Seq<char>)>::empty());
    assert(change_keys(modified@) =~= Seq::<(int, Seq<char>)>::empty());
    while i < old_order.len()
        invariant
            olds == by_key(old_schema.options@),
            old_order@.map_values(|x: usize| x as int) == key_order(
                option_keys(old_schema.options@),
                old_schema.options@.len(),
            ),
            old_order@.len() == old_schema.options@.len(),
            forall|k: int| 0 <= k < old_order@.len() ==> (#[trigger] old_order@[k]) < old_schema.options@.len(),
            olds.len() == old_order@.len(),
            i <= olds.len(),
            errors@.len() == e0.len() + errors_for(olds.take(i as int), *new_schema),
            errors@.take(e0.len() as int) == e0,
            change_keys(removed@) == removals(olds.take(i as int), *new_schema),
            change_keys(modified@) == modifications(namespace@, olds.take(i as int), *new_schema),
        decreases olds.len() - i,
    {
        let o = &old_schema.options[old_order[i]];
        assert(old_order@.map_values(|x: usize| x as int)[i as int] == old_order@[i as int] as int);
        assert(olds[i as int] == old_schema.options@[old_order@[i as int] as int]);
        let ghost before = errors@;
        let ghost r0 = removed@;
        let ghost t = olds.take(i + 1);
        assert(t.drop_last() =~= olds.take(i as int));
        assert(t.last() == *o);
        match new_schema.find(o.key.as_str()) {
            None => {
                removed.push(
                    SchemaChangeAction::OptionRemoved {
                        namespace: namespace.to_owned(),
                        name: o.key.clone(),
                    },
                );
                let mut m = "Option '".to_owned();
                m.append(namespace);
                m.append(".");
                m.append(o.key.as_str());
                m.append("' was removed");
                errors.push(ValidationError::SchemaError { file: schema_file(namespace), message: m });
                assert(change_keys(removed@) =~= change_keys(r0).push((0, o.key@)));
            },
            Some(p) => {
                let context = option_context(namespace, o.key.as_str());
                let ghost mid = modified@;
                if o.option_type != p.option_type {
                    modified.push(
                        SchemaChangeAction::TypeChanged {
                            context: context.clone(),
                            old: type_label(o.option_type).to_owned(),
                            new: type_label(p.option_type).to_owned(),
                        },
                    );
                    let mut m = "Option '".to_owned();
                    m.append(context.as_str());
                    m.append("' type changed from '");
                    m.append(type_label(o.option_type));
                    m.append("' to '");
                    m.append(type_label(p.option_type));
                    m.append("'");
                    errors.push(ValidationError::SchemaError { file: schema_file(namespace), message: m });
                    assert(change_keys(modified@) =~= change_keys(mid).push((1, context@)));
                }
                let ghost mid2 = modified@;
                if !defaults_equal(&o.default, &p.default) {
                    let mut old_text = String::new();
                    append_json_scalar(&mut old_text, &o.default);
                    let mut new_text = String::new();
                    append_json_scalar(&mut new_text, &p.default);
                    let mut m = "Option '".to_owned();
                    m.append(context.as_str());
                    m.append("' default value changed from ");
                    m.append(old_text.as_str());
                    m.append(" to ");
                    m.append(new_text.as_str());
                    let ghost cv = context@;
                    modified.push(
                        SchemaChangeAction::DefaultChanged { context, old: old_text, new: new_text },
                    );
                    errors.push(ValidationError::SchemaError { file: schema_file(namespace), message: m });
                    assert(change_keys(modified@) =~= change_keys(mid2).push((2, cv)));
                }
            },
        }
        assert(errors@.take(e0.len() as int) =~= e0) by {
            assert(errors@.take(e0.len() as int) =~= before.take(e0.len() as int));
        }
        i = i + 1;
    }
    assert(olds.take(olds.len() as int) =~= olds);
    proof {
        lemma_by_key_kept(old_schema.options@, *new_schema);
    }
    let ghost news = by_key(new_schema.options@);
    let new_order = key_order_of_options(&new_schema.options);
    let mut j: usize = 0;
    assert(news.take(0) =~= Seq::<OptionSchema>::empty());
    assert(change_keys(added@) =~= Seq::<(int, Seq<char>)>::empty());
    while j < new_order.len()
        invariant
            news == by_key(new_schema.options@),
            new_order@.map_values(|x: usize| x as int) == key_order(
                option_keys(new_schema.options@),
                new_schema.options@.len(),
            ),
            new_order@.len() == new_schema.options@.len(),
            forall|k: int| 0 <= k < new_order@.len() ==> (#[trigger] new_order@[k]) < new_schema.options@.len(),
            news.len() == new_order@.len(),
            j <= news.len(),
            change_keys(added@) == additions(news.take(j as int), *old_schema),
        decreases news.len() - j,
    {
        let p = &new_schema.options[new_order[j]];
        assert(new_order@.map_values(|x: usize| x as int)[j as int] == new_order@[j as int] as int);
        assert(news[j as int] == new_schema.options@[new_order@[j as int] as int]);
        let ghost a0 = added@;
        assert(news.take(j + 1).drop_last() =~= news.take(j as int));
        assert(news.take(j + 1).last() == *p);
        if old_schema.find(p.key.as_str()).is_none() {
            added.push(
                SchemaChangeAction::OptionAdded { namespace: namespace.to_owned(), name: p.key.clone() },
            );
            assert(change_keys(added@) =~= change_keys(a0).push((3, p.key@)));
        }
        j = j + 1;
    }
    assert(news.take(news.len() as int) =~= news);
    let ghost c0 = changelog@;
    let ghost rv = removed@;
    let ghost mv = modified@;
    let ghost av = added@;
    changelog.append(&mut removed);
    changelog.append(&mut modified);
    changelog.append(&mut added);
    assert(changelog@ =~= c0 + rv + mv + av);
    assert(change_keys(changelog@) =~= change_keys(c0) + change_keys(rv) + change_keys(mv)
        + change_keys(av));
}

/// A namespace name belongs to repository `repo`: it is `repo`, or `repo`
/// followed by `-` and more.
pub open spec fn namespace_of_repo(ns: Seq<char>, repo: Seq<char>) -> bool {
    ns == repo || (ns.len() > repo.len() && ns.take(repo.len() as int) == repo && ns[repo.len() as int]
        == '-')
}

fn namespace_allowed(ns: &str, repo: &str) -> (r: bool)
    ensures
        r == namespace_of_repo(ns@, repo@),
{
    if same_text(ns, repo) {
        return true;
    }
    let n = ns.unicode_len();
    let m = repo.unicode_len();
    if n <= m {
        return false;
    }
    let head = ns.substring_char(0, m);
    assert(head@ =~= ns@.take(m as int));
    same_text(head, repo) && ns.get_char(m) == '-'
}

/// A new version of the schemas may follow an old one: every namespace of
/// the new version belongs to the repository, and every namespace of the
/// old version is still there with every option kept.
pub open spec fn evolution_ok(before: SchemaRegistry, after: SchemaRegistry, repo: Seq<char>) -> bool {
    &&& forall|j: int|
        0 <= j < after.schemas_view().len() ==> namespace_of_repo(
            (#[trigger] after.schemas_view()[j]).namespace@,
            repo,
        )
    &&& forall|i: int|
        0 <= i < before.schemas_view().len() ==> namespace_kept(#[trigger] before.schemas_view()[i], after)
}

/// The outcome of comparing two versions of the schemas: what changed, and
/// the changes that are not allowed.
pub struct SchemaDiff {
    pub changelog: Vec<SchemaChangeAction>,
    pub errors: Vec<ValidationError>,
}

impl SchemaDiff {
    /// Success when no change is forbidden, else all the errors.
    pub fn into_result(self) -> (r: Result<(), ValidationError>)
        ensures
            r is Ok <==> self.errors@.len() == 0,
    {
        if self.errors.len() == 0 {
            Ok(())
        } else {
            Err(ValidationError::ValidationErrors(self.errors))
        }
    }
}

/// How many namespaces of `news` do not belong to repository `repo`.
pub open spec fn foreign_namespaces(news: Seq<NamespaceSchema>, repo: Seq<char>) -> nat
    decreases news.len(),
{
    if news.len() == 0 {
        0
    } else {
        foreign_namespaces(news.drop_last(), repo) + if namespace_of_repo(news.last().namespace@, repo) {
            0nat
        } else {
            1nat
        }
    }
}

/// The errors the old namespaces give: one for a namespace that is gone,
/// else those of its options.
pub open spec fn namespace_errors(olds: Seq<NamespaceSchema>, after: SchemaRegistry) -> nat
    decreases olds.len(),
{
    if olds.len() == 0 {
        0
    } else {
        namespace_errors(olds.drop_last(), after) + match find_schema(
            after.schemas_view(),
            olds.last().namespace@,
        ) {
            None => 1,
            Some(s) => errors_for(by_key(olds.last().options@), s),
        }
    }
}

/// The changelog of the old namespaces, in order: a removal for one that is
/// gone, else its options' changes.
pub open spec fn namespace_changes(olds: Seq<NamespaceSchema>, after: SchemaRegistry) -> Seq<
    (int, Seq<char>),
>
    decreases olds.len(),
{
    if olds.len() == 0 {
        Seq::empty()
    } else {
        let o = olds.last();
        namespace_changes(olds.drop_last(), after) + match find_schema(
            after.schemas_view(),
            o.namespace@,
        ) {
            None => seq![(4, o.namespace@)],
            Some(s) => option_changes(o.namespace@, o, s),
        }
    }
}

/// The namespaces of `news` that the old version lacks, in order.
pub open spec fn namespace_additions(news: Seq<NamespaceSchema>, before: SchemaRegistry) -> Seq<
    (int, Seq<char>),
>
    decreases news.len(),
{
    if news.len() == 0 {
        Seq::empty()
    } else {
        let rest = namespace_additions(news.drop_last(), before);
        if find_schema(before.schemas_view(), news.last().namespace@) is None {
            rest.push((5, news.last().namespace@))
        } else {
            rest
        }
    }
}

/// The names of the namespaces, in order.
pub open spec fn namespace_names(ss: Seq<NamespaceSchema>) -> Seq<Seq<char>> {
    ss.map_values(|s: NamespaceSchema| s.namespace@)
}

/// The namespaces sorted by name, equal names in their order.
pub open spec fn by_name(ss: Seq<NamespaceSchema>) -> Seq<NamespaceSchema> {
    key_order(namespace_names(ss), ss.len()).map_values(|i: int| ss[i])
}

fn key_order_of_namespaces(ss: &Vec<NamespaceSchema>) -> (r: Vec<usize>)
    ensures
        r@.map_values(|x: usize| x as int) == key_order(namespace_names(ss@), ss@.len()),
        r@.len() == ss@.len(),
        forall|k: int| 0 <= k < r@.len() ==> (#[trigger] r@[k]) < ss@.len(),
{
    let mut ks: Vec<&str> = Vec::new();
    let mut k: usize = 0;
    while k < ss.len()
        invariant
            k <= ss@.len(),
            ks@.map_values(|s: &str| s@) == namespace_names(ss@).take(k as int),
        decreases ss@.len() - k,
    {
        let ghost k0 = ks@.map_values(|s: &str| s@);
        let name = ss[k].namespace.as_str();
        ks.push(name);
        assert(name@ == ss@[k as int].namespace@);
        assert(ks@.map_values(|s: &str| s@) =~= k0.push(name@));
        assert(namespace_names(ss@).take(k + 1) =~= namespace_names(ss@).take(k as int).push(
            ss@[k as int].namespace@,
        ));
        k = k + 1;
    }
    assert(namespace_names(ss@).take(ss@.len() as int) =~= namespace_names(ss@));
    let r = order_by_text(&ks);
    proof {
        lemma_key_order_contents(namespace_names(ss@), ss@.len());
        assert forall|k: int| 0 <= k < r@.len() implies (#[trigger] r@[k]) < ss@.len() by {
            assert(r@.map_values(|x: usize| x as int)[k] == r@[k] as int);
        }
    }
    r
}

/// Every position of `by_name(ss)` holds a namespace of `ss`, and every
/// namespace of `ss` stands at some position.
proof fn lemma_by_name_covers(ss: Seq<NamespaceSchema>)
    ensures
        by_name(ss).len() == ss.len(),
        forall|k: int| 0 <= k < ss.len() ==> exists|i: int| 0 <= i < ss.len() && #[trigger] by_name(ss)[k] == ss[i],
        forall|i: int| 0 <= i < ss.len() ==> exists|k: int| 0 <= k < ss.len() && by_name(ss)[k] == #[trigger] ss[i],
{
    let ord = key_order(namespace_names(ss), ss.len());
    lemma_key_order_contents(namespace_names(ss), ss.len());
    assert forall|k: int| 0 <= k < ss.len() implies exists|i: int| 0 <= i < ss.len() && #[trigger] by_name(ss)[k] == ss[i] by {
        assert(0 <= ord[k] < ss.len());
        assert(by_name(ss)[k] == ss[ord[k]]);
    }
    assert forall|i: int| 0 <= i < ss.len() implies exists|k: int| 0 <= k < ss.len() && by_name(ss)[k] == #[trigger] ss[i] by {
        assert(ord.contains(i));
        let k = choose|k: int| 0 <= k < ord.len() && ord[k] == i;
        assert(by_name(ss)[k] == ss[i]);
    }
}

proof fn lemma_foreign_zero(s: Seq<NamespaceSchema>, repo: Seq<char>)
    ensures
        foreign_namespaces(s, repo) == 0 <==> forall|k: int| 0 <= k < s.len() ==> namespace_of_repo((#[trigger] s[k]).namespace@, repo),
    decreases s.len(),
{
    if s.len() > 0 {
        lemma_foreign_zero(s.drop_last(), repo);
        assert forall|k: int| 0 <= k < s.len() - 1 implies #[trigger] s.drop_last()[k] == s[k] by {}
        if foreign_namespaces(s, repo) == 0 {
            assert forall|k: int| 0 <= k < s.len() implies namespace_of_repo((#[trigger] s[k]).namespace@, repo) by {
                if k < s.len() - 1 {
                    assert(s.drop_last()[k] == s[k]);
                }
            }
        }
        if forall|k: int| 0 <= k < s.len() ==> namespace_of_repo((#[trigger] s[k]).namespace@, repo) {
            assert(namespace_of_repo(s[s.len() - 1].namespace@, repo));
            assert forall|k: int| 0 <= k < s.len() - 1 implies namespace_of_repo((#[trigger] s.drop_last()[k]).namespace@, repo) by {
                assert(s.drop_last()[k] == s[k]);
            }
        }
    }
}

/// A namespace of the old version survives: it is in the new version and
/// keeps every option.
pub open spec fn namespace_kept(o: NamespaceSchema, after: SchemaRegistry) -> bool {
    match find_schema(after.schemas_view(), o.namespace@) {
        Some(s) => options_kept(o, s),
        None => false,
    }
}

proof fn lemma_ns_errors_zero(s: Seq<NamespaceSchema>, after: SchemaRegistry)
    ensures
        namespace_errors(s, after) == 0 <==> forall|k: int| 0 <= k < s.len() ==> namespace_kept(#[trigger] s[k], after),
    decreases s.len(),
{
    if s.len() > 0 {
        lemma_ns_errors_zero(s.drop_last(), after);
        let last = s[s.len() - 1];
        if let Some(x) = find_schema(after.schemas_view(), last.namespace@) {
            lemma_by_key_kept(last.options@, x);
        }
        if namespace_errors(s, after) == 0 {
            assert forall|k: int| 0 <= k < s.len() implies namespace_kept(#[trigger] s[k], after) by {
                if k < s.len() - 1 {
                    assert(s.drop_last()[k] == s[k]);
                }
            }
        }
        if forall|k: int| 0 <= k < s.len() ==> namespace_kept(#[trigger] s[k], after) {
            assert(namespace_kept(last, after));
            assert forall|k: int| 0 <= k < s.len() - 1 implies namespace_kept(#[trigger] s.drop_last()[k], after) by {
                assert(s.drop_last()[k] == s[k]);
            }
        }
    }
}

proof fn lemma_no_errors_iff_ok(before: SchemaRegistry, after: SchemaRegistry, repo: Seq<char>)
    ensures
        foreign_namespaces(by_name(after.schemas_view()), repo) + namespace_errors(
            by_name(before.schemas_view()),
            after,
        ) == 0 <==> evolution_ok(before, after, repo),
{
    let nv = after.schemas_view();
    let ov = before.schemas_view();
    let news = by_name(nv);
    let olds = by_name(ov);
    lemma_by_name_covers(nv);
    lemma_by_name_covers(ov);
    lemma_foreign_zero(news, repo);
    lemma_ns_errors_zero(olds, after);
    if foreign_namespaces(news, repo) == 0 {
        assert forall|t: int| 0 <= t < nv.len() implies namespace_of_repo((#[trigger] nv[t]).namespace@, repo) by {
            let k = choose|k: int| 0 <= k < nv.len() && news[k] == nv[t];
        }
    }
    if namespace_errors(olds, after) == 0 {
        assert forall|t: int| 0 <= t < ov.len() implies namespace_kept(#[trigger] ov[t], after) by {
            let k = choose|k: int| 0 <= k < ov.len() && olds[k] == ov[t];
        }
    }
    if evolution_ok(before, after, repo) {
        assert forall|k: int| 0 <= k < news.len() implies namespace_of_repo((#[trigger] news[k]).namespace@, repo) by {
            let t = choose|t: int| 0 <= t < nv.len() && news[k] == nv[t];
            assert(namespace_of_repo(nv[t].namespace@, repo));
        }
        assert forall|k: int| 0 <= k < olds.len() implies namespace_kept(#[trigger] olds[k], after) by {
            let t = choose|t: int| 0 <= t < ov.len() && olds[k] == ov[t];
            assert(namespace_kept(ov[t], after));
        }
    }
}

/// Compares an old and a new version of a repository's schemas. Allowed:
/// adding namespaces and options. Forbidden, one error each: a namespace
/// outside the repository's prefix, a removed namespace, and the errors of
/// [`compare_schemas`] for the namespaces kept. The changelog lists, old
/// namespace by old namespace, a removal or the options' changes, then the
/// added namespaces; namespaces are taken sorted by name.
pub fn detect_changes(before: &SchemaRegistry, after: &SchemaRegistry, repo_name: &str) -> (r: SchemaDiff)
    ensures
        r.errors@.len() == foreign_namespaces(by_name(after.schemas_view()), repo_name@)
            + namespace_errors(by_name(before.schemas_view()), *after),
        r.errors@.len() == 0 <==> evolution_ok(*before, *after, repo_name@),
        change_keys(r.changelog@) == namespace_changes(by_name(before.schemas_view()), *after)
            + namespace_additions(by_name(after.schemas_view()), *before),
{
    let mut changelog: Vec<SchemaChangeAction> = Vec::new();
    let mut errors: Vec<ValidationError> = Vec::new();
    let new_list = after.namespaces();
    let old_list = before.namespaces();
    let new_order = key_order_of_namespaces(new_list);
    let old_order = key_order_of_namespaces(old_list);
    let ghost news = by_name(after.schemas_view());
    let ghost olds = by_name(before.schemas_view());
    let mut j: usize = 0;
    assert(news.take(0) =~= Seq::<NamespaceSchema>::empty());
    while j < new_order.len()
        invariant
            new_list@ == after.schemas_view(),
            news == by_name(after.schemas_view()),
            new_order@.map_values(|x: usize| x as int) == key_order(namespace_names(new_list@), new_list@.len()),
            new_order@.len() == new_list@.len(),
            forall|k: int| 0 <= k < new_order@.len() ==> (#[trigger] new_order@[k]) < new_list@.len(),
            news.len() == new_order@.len(),
            j <= news.len(),
            errors@.len() == foreign_namespaces(news.take(j as int), repo_name@),
        decreases news.len() - j,
    {
        assert(news.take(j + 1).drop_last() =~= news.take(j as int));
        assert(new_order@.map_values(|x: usize| x as int)[j as int] == new_order@[j as int] as int);
        assert(news[j as int] == new_list@[new_order@[j as int] as int]);
        let ns = new_list[new_order[j]].namespace.as_str();
        if !namespace_allowed(ns, repo_name) {
            let mut m = "Namespace '".to_owned();
            m.append(ns);
            m.append("' is invalid. Expected either '");
            m.append(repo_name);
            m.append("' or '");
            m.append(repo_name);
            m.append("-*' (e.g., '");
            m.append(repo_name);
            m.append("-testing')");
            errors.push(ValidationError::SchemaError { file: schema_file(ns), message: m });
        }
        j = j + 1;
    }
    assert(news.take(news.len() as int) =~= news);
    let ghost prefix_errors = errors@.len();
    let mut i: usize = 0;
    assert(olds.take(0) =~= Seq::<NamespaceSchema>::empty());
    assert(change_keys(changelog@) =~= Seq::<(int, Seq<char>)>::empty());
    while i < old_order.len()
        invariant
            old_list@ == before.schemas_view(),
            olds == by_name(before.schemas_view()),
            old_order@.map_values(|x: usize| x as int) == key_order(namespace_names(old_list@), old_list@.len()),
            old_order@.len() == old_list@.len(),
            forall|k: int| 0 <= k < old_order@.len() ==> (#[trigger] old_order@[k]) < old_list@.len(),
            olds.len() == old_order@.len(),
            i <= olds.len(),
            errors@.len() == prefix_errors + namespace_errors(olds.take(i as int), *after),
            prefix_errors == foreign_namespaces(by_name(after.schemas_view()), repo_name@),
            change_keys(changelog@) == namespace_changes(olds.take(i as int), *after),
        decreases olds.len() - i,
    {
        assert(old_order@.map_values(|x: usize| x as int)[i as int] == old_order@[i as int] as int);
        assert(olds[i as int] == old_list@[old_order@[i as int] as int]);
        let old_schema = &old_list[old_order[i]];
        let ns = old_schema.namespace.as_str();
        let ghost c0 = changelog@;
        assert(olds.take(i + 1).drop_last() =~= olds.take(i as int));
        assert(olds.take(i + 1).last() == *old_schema);
        match after.get(ns) {
            None => {
                changelog.push(SchemaChangeAction::NamespaceRemoved(ns.to_owned()));
                let mut m = "Namespace '".to_owned();
                m.append(ns);
                m.append("' was removed");
                errors.push(ValidationError::SchemaError { file: schema_file(ns), message: m });
                assert(change_keys(changelog@) =~= change_keys(c0) + seq![(4int, ns@)]);
            },
            Some(new_schema) => {
                compare_schemas(ns, old_schema, new_schema, &mut changelog, &mut errors);
            },
        }
        i = i + 1;
    }
    assert(olds.take(olds.len() as int) =~= olds);
    let ghost c1 = changelog@;
    let mut k: usize = 0;
    assert(news.take(0) =~= Seq::<NamespaceSchema>::empty());
    assert(change_keys(c1) + namespace_additions(news.take(0), *before) =~= change_keys(c1));
    while k < new_order.len()
        invariant
            new_list@ == after.schemas_view(),
            news == by_name(after.schemas_view()),
            new_order@.map_values(|x: usize| x as int) == key_order(namespace_names(new_list@), new_list@.len()),
            new_order@.len() == new_list@.len(),
            forall|t: int| 0 <= t < new_order@.len() ==> (#[trigger] new_order@[t]) < new_list@.len(),
            news.len() == new_order@.len(),
            k <= news.len(),
            change_keys(changelog@) == change_keys(c1) + namespace_additions(news.take(k as int), *before),
        decreases news.len() - k,
    {
        let ghost cc = changelog@;
        assert(news.take(k + 1).drop_last() =~= news.take(k as int));
        assert(new_order@.map_values(|x: usize| x as int)[k as int] == new_order@[k as int] as int);
        assert(news[k as int] == new_list@[new_order@[k as int] as int]);
        let ns = new_list[new_order[k]].namespace.as_str();
        if before.get(ns).is_none() {
            changelog.push(SchemaChangeAction::NamespaceAdded(ns.to_owned()));
            assert(change_keys(changelog@) =~= change_keys(cc).push((5, ns@)));
        }
        k = k + 1;
    }
    assert(news.take(news.len() as int) =~= news);
    proof {
        lemma_no_errors_iff_ok(*before, *after, repo_name@);
    }
    SchemaDiff { changelog, errors }
}

} // verus!

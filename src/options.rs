use vstd::prelude::*;

use crate::json::{find_member, member, take_two, Json};
use crate::overrides::{opt_get, OverrideKey, OverrideStore};
use crate::schema::{entries_accepted, find_option, SchemaRegistry, ValidationError};
use crate::text::same_text;
use vstd::string::StringExecFns;

verus! {

/// Why reading options failed.
#[derive(Debug)]
pub enum OptionsError {
    UnknownNamespace(String),
    UnknownOption { namespace: String, key: String },
    Schema(ValidationError),
    AlreadyInitialized,
}

/// The option values of a values document `{"options": {key: value, ...}}`.
pub open spec fn options_of(doc: Json) -> Option<Vec<(String, Json)>> {
    match doc {
        Json::Object(m) => match member(m@, "options"@) {
            Some(Json::Object(o)) => Some(o),
            _ => None,
        },
        _ => None,
    }
}

/// A values document for `ns` is well-formed and its values are accepted by
/// the namespace's schema.
pub open spec fn values_doc_ok(reg: SchemaRegistry, ns: Seq<char>, doc: Json) -> bool {
    match options_of(doc) {
        Some(o) => match reg.schema(ns) {
            Some(s) => entries_accepted(s, o@),
            None => false,
        },
        None => false,
    }
}

/// Every values document is accepted.
pub open spec fn values_docs_ok(reg: SchemaRegistry, docs: Seq<(String, Json)>) -> bool {
    forall|i: int| 0 <= i < docs.len() ==> values_doc_ok(reg, (#[trigger] docs[i]).0@, docs[i].1)
}

/// `vals` holds, per document, its namespace and its option values.
pub open spec fn values_parsed(docs: Seq<(String, Json)>, vals: Seq<(String, Vec<(String, Json)>)>) -> bool {
    &&& docs.len() == vals.len()
    &&& forall|i: int|
        0 <= i < docs.len() ==> (#[trigger] vals[i]).0 == docs[i].0 && options_of(docs[i].1) == Some(
            vals[i].1,
        )
}

/// The values stored for namespace `ns`: those of its first document.
pub open spec fn ns_values(vals: Seq<(String, Vec<(String, Json)>)>, ns: Seq<char>) -> Option<
    Vec<(String, Json)>,
>
    decreases vals.len(),
{
    if vals.len() == 0 {
        None
    } else if vals[0].0@ == ns {
        Some(vals[0].1)
    } else {
        ns_values(vals.drop_first(), ns)
    }
}

/// Checks values documents against the registry and keeps their option
/// values, all or none.
pub fn load_values(registry: &SchemaRegistry, docs: Vec<(String, Json)>) -> (r: Result<
    Vec<(String, Vec<(String, Json)>)>,
    ValidationError,
>)
    ensures
        r is Ok <==> values_docs_ok(*registry, docs@),
        r matches Ok(v) ==> values_parsed(docs@, v@),
{
    let ghost all = docs@;
    let n = docs.len();
    let mut rest = docs;
    let mut out: Vec<(String, Vec<(String, Json)>)> = Vec::new();
    let mut i: usize = 0;
    while rest.len() > 0
        invariant
            i <= n,
            n == all.len(),
            all == docs@,
            rest@ == all.skip(i as int),
            rest@.len() == n - i,
            out@.len() == i,
            forall|t: int| 0 <= t < i ==> values_doc_ok(*registry, (#[trigger] all[t]).0@, all[t].1),
            forall|t: int|
                0 <= t < i ==> (#[trigger] out@[t]).0 == all[t].0 && options_of(all[t].1) == Some(
                    out@[t].1,
                ),
        decreases rest@.len(),
    {
        let (ns, doc) = rest.remove(0);
        let ghost gdoc = doc;
        proof {
            reveal_strlit("options");
            reveal_strlit("");
            assert("options"@.len() != ""@.len());
        }
        assert(ns == all[i as int].0 && gdoc == all[i as int].1);
        let opts = match doc {
            Json::Object(m) => {
                let (o, _) = take_two(m, "options", "");
                match o {
                    Some(Json::Object(o)) => Some(o),
                    _ => None,
                }
            },
            _ => None,
        };
        let opts = match opts {
            Some(o) => o,
            None => {
                assert(!values_doc_ok(*registry, all[i as int].0@, all[i as int].1));
                return Err(
                    ValidationError::SchemaError {
                        file: ns,
                        message: "values document has no options object".to_owned(),
                    },
                );
            },
        };
        let wrapped = Json::Object(opts);
        match registry.validate_values(ns.as_str(), &wrapped) {
            Ok(()) => {},
            Err(e) => {
                assert(!values_doc_ok(*registry, all[i as int].0@, all[i as int].1));
                return Err(e);
            },
        }
        let opts = match wrapped {
            Json::Object(o) => o,
            _ => Vec::new(),
        };
        out.push((ns, opts));
        assert(rest@ =~= all.skip(i + 1));
        i = i + 1;
    }
    Ok(out)
}


fn find_ns_values<'a>(vals: &'a Vec<(String, Vec<(String, Json)>)>, ns: &str) -> (r: Option<
    &'a Vec<(String, Json)>,
>)
    ensures
        match r {
            Some(v) => ns_values(vals@, ns@) == Some(*v),
            None => ns_values(vals@, ns@) is None,
        },
{
    let ghost s = vals@;
    let mut i: usize = 0;
    assert(s.skip(0) =~= s);
    while i < vals.len()
        invariant
            s == vals@,
            i <= s.len(),
            ns_values(s, ns@) == ns_values(s.skip(i as int), ns@),
        decreases s.len() - i,
    {
        assert(s.skip(i as int).drop_first() =~= s.skip(i + 1));
        assert(s.skip(i as int)[0] == s[i as int]);
        if same_text(vals[i].0.as_str(), ns) {
            return Some(&vals[i].1);
        }
        i = i + 1;
    }
    None
}

/// The store of option values: a registry of schemas and, per namespace,
/// the values read from its values document. Values are replaced only as a
/// whole, by a reload that validates.
pub struct Options {
    registry: SchemaRegistry,
    values: Vec<(String, Vec<(String, Json)>)>,
}

impl Options {
    /// The schemas.
    pub closed spec fn schemas(&self) -> SchemaRegistry {
        self.registry
    }

    /// Per namespace, the stored option values.
    pub closed spec fn values_view(&self) -> Seq<(String, Vec<(String, Json)>)> {
        self.values@
    }

    /// The value stored for `key` in `ns`, not counting defaults.
    pub open spec fn stored(&self, ns: Seq<char>, key: Seq<char>) -> Option<Json> {
        match ns_values(self.values_view(), ns) {
            Some(m) => member(m@, key),
            None => None,
        }
    }

    /// What a read of `key` in `ns` gives: the stored value, else the
    /// schema's default; nothing when the namespace or the key is unknown.
    pub open spec fn resolve(&self, ns: Seq<char>, key: Seq<char>) -> Option<Json> {
        match self.schemas().schema(ns) {
            None => None,
            Some(s) => match self.stored(ns, key) {
                Some(v) => Some(v),
                None => match find_option(s.options@, key) {
                    Some(o) => Some(o.default),
                    None => None,
                },
            },
        }
    }

    /// What a read of `key` in `ns` gives when the overrides `ov` come first.
    pub open spec fn resolve_with(&self, ov: Map<OverrideKey, Json>, ns: Seq<char>, key: Seq<char>) -> Option<Json> {
        match opt_get(ov, (ns, key)) {
            Some(v) => Some(v),
            None => self.resolve(ns, key),
        }
    }

    /// The store after a reload with `docs`: new values when every document
    /// is accepted, else the store as it was.
    pub open spec fn reload_outcome(before: Options, docs: Seq<(String, Json)>, after: Options) -> bool {
        if values_docs_ok(before.schemas(), docs) {
            after.schemas() == before.schemas() && values_parsed(docs, after.values_view())
        } else {
            after == before
        }
    }

    /// Builds the store from a registry and the namespaces' values documents,
    /// rejecting the whole store when a document is not accepted.
    pub fn from_parts(registry: SchemaRegistry, docs: Vec<(String, Json)>) -> (r: Result<
        Options,
        OptionsError,
    >)
        ensures
            r is Ok <==> values_docs_ok(registry, docs@),
            r matches Ok(o) ==> o.schemas() == registry && values_parsed(docs@, o.values_view()),
            r matches Err(e) ==> e is Schema,
    {
        match load_values(&registry, docs) {
            Ok(values) => Ok(Options { registry, values }),
            Err(e) => Err(OptionsError::Schema(e)),
        }
    }

    /// The schema registry.
    pub fn registry(&self) -> (r: &SchemaRegistry)
        ensures
            *r == self.schemas(),
    {
        &self.registry
    }

    /// Reads `key` in `namespace`: the stored value, else the default.
    pub fn get(&self, namespace: &str, key: &str) -> (r: Result<&Json, OptionsError>)
        ensures
            match r {
                Ok(v) => self.resolve(namespace@, key@) == Some(*v),
                Err(OptionsError::UnknownNamespace(n)) => self.schemas().schema(namespace@) is None
                    && n@ == namespace@,
                Err(OptionsError::UnknownOption { namespace: n, key: k }) => self.schemas().schema(
                    namespace@,
                ) is Some && self.resolve(namespace@, key@) is None && n@ == namespace@ && k@
                    == key@,
                _ => false,
            },
    {
        let schema = match self.registry.get(namespace) {
            Some(s) => s,
            None => {
                return Err(OptionsError::UnknownNamespace(namespace.to_owned()));
            },
        };
        if let Some(m) = find_ns_values(&self.values, namespace) {
            if let Some(v) = find_member(m, key) {
                return Ok(v);
            }
        }
        match schema.get_default(key) {
            Some(d) => Ok(d),
            None => Err(
                OptionsError::UnknownOption { namespace: namespace.to_owned(), key: key.to_owned() },
            ),
        }
    }

    /// Reads `key` in `namespace`, where an override in `overrides` comes
    /// before the stored value and the default.
    pub fn get_with<'a>(&'a self, overrides: &'a OverrideStore, namespace: &str, key: &str) -> (r:
        Result<&'a Json, OptionsError>)
        requires
            overrides.wf(),
        ensures
            opt_get(overrides.view(), (namespace@, key@)) matches Some(o) ==> (r matches Ok(v) && *v
                == o),
            opt_get(overrides.view(), (namespace@, key@)) is None ==> match r {
                Ok(v) => self.resolve(namespace@, key@) == Some(*v),
                Err(OptionsError::UnknownNamespace(n)) => self.schemas().schema(namespace@) is None
                    && n@ == namespace@,
                Err(OptionsError::UnknownOption { namespace: n, key: k }) => self.schemas().schema(
                    namespace@,
                ) is Some && self.resolve(namespace@, key@) is None && n@ == namespace@ && k@
                    == key@,
                _ => false,
            },
    {
        match overrides.get(namespace, key) {
            Some(v) => Ok(v),
            None => self.get(namespace, key),
        }
    }

    /// Whether `key` in `namespace` has a stored value rather than only a
    /// default. Unknown namespaces and keys are errors.
    pub fn isset(&self, namespace: &str, key: &str) -> (r: Result<bool, OptionsError>)
        ensures
            match self.schemas().schema(namespace@) {
                None => r matches Err(OptionsError::UnknownNamespace(n)) && n@ == namespace@,
                Some(s) => match find_option(s.options@, key@) {
                    None => r matches Err(OptionsError::UnknownOption { namespace: n, key: k })
                        && n@ == namespace@ && k@ == key@,
                    Some(_) => r == Ok::<bool, OptionsError>(self.stored(namespace@, key@) is Some),
                },
            },
    {
        let schema = match self.registry.get(namespace) {
            Some(s) => s,
            None => {
                return Err(OptionsError::UnknownNamespace(namespace.to_owned()));
            },
        };
        if schema.find(key).is_none() {
            return Err(
                OptionsError::UnknownOption { namespace: namespace.to_owned(), key: key.to_owned() },
            );
        }
        match find_ns_values(&self.values, namespace) {
            Some(m) => Ok(find_member(m, key).is_some()),
            None => Ok(false),
        }
    }

    /// Replaces all values with those of `docs` when every document is
    /// accepted; otherwise keeps the values in force and reports why.
    pub fn reload(&mut self, docs: Vec<(String, Json)>) -> (r: Result<(), ValidationError>)
        ensures
            r is Ok <==> values_docs_ok(old(self).schemas(), docs@),
            Options::reload_outcome(*old(self), docs@, *final(self)),
    {
        match load_values(&self.registry, docs) {
            Ok(values) => {
                self.values = values;
                Ok(())
            },
            Err(e) => Err(e),
        }
    }
}

/// A reload whose documents are not all accepted changes no read: every
/// key of every namespace reads as before.
pub proof fn lemma_rejected_reload_keeps_reads(
    before: Options,
    docs: Seq<(String, Json)>,
    after: Options,
    ns: Seq<char>,
    key: Seq<char>,
)
    requires
        !values_docs_ok(before.schemas(), docs),
        Options::reload_outcome(before, docs, after),
    ensures
        after.resolve(ns, key) == before.resolve(ns, key),
        after.stored(ns, key) == before.stored(ns, key),
{
}

/// Reads options of one namespace.
pub struct NamespaceOptions<'a> {
    pub namespace: String,
    pub options: &'a Options,
}

impl<'a> NamespaceOptions<'a> {
    /// Reads `key`: the stored value, else the default.
    pub fn get(&self, key: &str) -> (r: Result<&'a Json, OptionsError>)
        ensures
            match r {
                Ok(v) => self.options.resolve(self.namespace@, key@) == Some(*v),
                Err(OptionsError::UnknownNamespace(n)) => self.options.schemas().schema(
                    self.namespace@,
                ) is None && n@ == self.namespace@,
                Err(OptionsError::UnknownOption { namespace: n, key: k }) => self.options.schemas().schema(
                    self.namespace@,
                ) is Some && self.options.resolve(self.namespace@, key@) is None && n@
                    == self.namespace@ && k@ == key@,
                _ => false,
            },
    {
        self.options.get(self.namespace.as_str(), key)
    }

    /// Whether `key` has a stored value rather than only a default.
    pub fn isset(&self, key: &str) -> (r: Result<bool, OptionsError>)
        ensures
            match self.options.schemas().schema(self.namespace@) {
                None => r is Err,
                Some(s) => match find_option(s.options@, key@) {
                    None => r is Err,
                    Some(_) => r == Ok::<bool, OptionsError>(
                        self.options.stored(self.namespace@, key@) is Some,
                    ),
                },
            },
    {
        self.options.isset(self.namespace.as_str(), key)
    }
}

/// The key under which feature `name`'s configuration is stored.
pub open spec fn feature_key(name: Seq<char>) -> Seq<char> {
    "features."@ + name
}

/// Finds feature configurations of one namespace.
pub struct FeatureChecker<'a> {
    pub namespace: String,
    pub options: &'a Options,
}

impl<'a> FeatureChecker<'a> {
    pub fn new(namespace: &str, options: &'a Options) -> (r: Self)
        ensures
            r.namespace@ == namespace@,
            r.options == options,
    {
        FeatureChecker { namespace: namespace.to_owned(), options }
    }

    /// The configuration text of feature `feature_name`: the string read,
    /// overrides first, under `features.{feature_name}`. A failed read, or a
    /// value that is not a string, gives none.
    pub fn config_text(&self, overrides: &'a OverrideStore, feature_name: &str) -> (r: Option<&'a String>)
        requires
            overrides.wf(),
        ensures
            match self.options.resolve_with(overrides.view(), self.namespace@, feature_key(feature_name@)) {
                Some(Json::Str(s)) => r == Some(&s),
                _ => r is None,
            },
    {
        let mut key = "features.".to_owned();
        key.append(feature_name);
        match self.options.get_with(overrides, self.namespace.as_str(), key.as_str()) {
            Ok(Json::Str(s)) => Some(s),
            _ => None,
        }
    }
}

/// Installs `loaded` as the one store of a process, kept in `slot`. A
/// failed load is handed back; a second store is refused.
pub fn init<T>(slot: &mut Option<T>, loaded: Result<T, OptionsError>) -> (r: Result<(), OptionsError>)
    ensures
        loaded matches Err(e) ==> (r == Err::<(), OptionsError>(e) && *final(slot) == *old(slot)),
        loaded is Ok && (*old(slot)) is Some ==> (r matches Err(OptionsError::AlreadyInitialized))
            && *final(slot) == *old(slot),
        (*old(slot)) is None ==> (loaded matches Ok(v) ==> r is Ok && *final(slot) == Some(v)),
{
    match loaded {
        Err(e) => Err(e),
        Ok(v) => {
            if slot.is_some() {
                Err(OptionsError::AlreadyInitialized)
            } else {
                *slot = Some(v);
                Ok(())
            }
        },
    }
}

} // verus!

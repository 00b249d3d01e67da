use vstd::prelude::*;

use crate::json::{member, take_three, take_two, Json};
use crate::text::same_text;
use vstd::string::StringExecFns;

verus! {

/// The type an option's values must have.
#[derive(Clone, Copy, PartialEq, Eq, Structural)]
pub enum OptionType {
    String,
    Integer,
    Number,
    Boolean,
}

/// The type named by a schema's `type` string.
pub open spec fn type_named(t: Seq<char>) -> Option<OptionType> {
    if t == "string"@ {
        Some(OptionType::String)
    } else if t == "integer"@ {
        Some(OptionType::Integer)
    } else if t == "number"@ {
        Some(OptionType::Number)
    } else if t == "boolean"@ {
        Some(OptionType::Boolean)
    } else {
        None
    }
}

/// The IEEE-754 double with these bits is a whole number: its exponent puts
/// the binary point at or past the end of the mantissa, or every mantissa
/// bit after the point is zero. Zero is whole; infinities and NaN are not.
pub open spec fn whole_float(bits: u64) -> bool {
    let exp = (bits >> 52u64) & 0x7ffu64;
    let mantissa = bits & 0xf_ffff_ffff_ffffu64;
    if exp == 0 {
        mantissa == 0
    } else if exp == 0x7ffu64 {
        false
    } else if exp < 1023 {
        false
    } else if exp >= 1075 {
        true
    } else {
        mantissa & ((1u64 << ((1075 - exp) as u64)) - 1) as u64 == 0
    }
}

fn is_whole_float(bits: u64) -> (r: bool)
    ensures
        r == whole_float(bits),
{
    let exp = (bits >> 52u64) & 0x7ffu64;
    let mantissa = bits & 0xf_ffff_ffff_ffffu64;
    if exp == 0 {
        mantissa == 0
    } else if exp == 0x7ffu64 {
        false
    } else if exp < 1023 {
        false
    } else if exp >= 1075 {
        true
    } else {
        let shift: u64 = 1075 - exp;
        assert(shift < 64);
        assert((1u64 << shift) >= 1) by (bit_vector)
            requires
                shift < 64,
        ;
        mantissa & ((1u64 << shift) - 1) == 0
    }
}

/// The message for a schema document without a version string.
pub open spec fn missing_version_text() -> Seq<char> {
    "Schema validation failed:\nError: \"version\" is a required property"@
}

/// A value has a type: a string, an integer (a JSON number with no
/// fractional part), any number, or a boolean.
pub open spec fn type_matches(t: OptionType, v: Json) -> bool {
    match t {
        OptionType::String => v is Str,
        OptionType::Integer => v is Int || (v matches Json::Float(b, _) && whole_float(b)),
        OptionType::Number => v is Int || v is Float,
        OptionType::Boolean => v is Bool,
    }
}

fn type_from(t: &str) -> (r: Option<OptionType>)
    ensures
        r == type_named(t@),
{
    if same_text(t, "string") {
        Some(OptionType::String)
    } else if same_text(t, "integer") {
        Some(OptionType::Integer)
    } else if same_text(t, "number") {
        Some(OptionType::Number)
    } else if same_text(t, "boolean") {
        Some(OptionType::Boolean)
    } else {
        None
    }
}

/// Whether `v` has type `t`.
pub fn value_has_type(t: OptionType, v: &Json) -> (r: bool)
    ensures
        r == type_matches(t, *v),
{
    match t {
        OptionType::String => matches!(v, Json::Str(_)),
        OptionType::Integer => match v {
            Json::Int(_) => true,
            Json::Float(b, _) => is_whole_float(*b),
            _ => false,
        },
        OptionType::Number => matches!(v, Json::Int(_) | Json::Float(_, _)),
        OptionType::Boolean => matches!(v, Json::Bool(_)),
    }
}

/// Writes a JSON scalar as serde_json writes it; other values are written
/// by a description.
pub(crate) fn append_json_scalar(out: &mut String, v: &Json) {
    match v {
        Json::Null => out.append("null"),
        Json::Bool(b) => {
            if *b {
                out.append("true")
            } else {
                out.append("false")
            }
        },
        Json::Int(i) => {
            let t = i.to_string();
            out.append(t.as_str());
        },
        Json::Float(_, text) => out.append(text.as_str()),
        Json::Str(s) => {
            out.append("\"");
            let n = s.as_str().unicode_len();
            let mut i: usize = 0;
            while i < n
                invariant
                    n == s@.len(),
                    i <= n,
                decreases n - i,
            {
                let c = s.as_str().get_char(i);
                if c == '"' {
                    out.append("\\\"");
                } else if c == '\\' {
                    out.append("\\\\");
                } else if c == '\n' {
                    out.append("\\n");
                } else if c == '\r' {
                    out.append("\\r");
                } else if c == '\t' {
                    out.append("\\t");
                } else if c == '\u{8}' {
                    out.append("\\b");
                } else if c == '\u{c}' {
                    out.append("\\f");
                } else if (c as u32) < 32 {
                    out.append("\\u00");
                    let code = c as u32;
                    out.append(if code < 16 { "0" } else { "1" });
                    let low = code % 16;
                    let digit = if low < 10 {
                        ((low + 48) as u8 as char).to_string()
                    } else {
                        ((low + 87) as u8 as char).to_string()
                    };
                    out.append(digit.as_str());
                } else {
                    let t = c.to_string();
                    out.append(t.as_str());
                }
                i = i + 1;
            }
            out.append("\"");
        },
        _ => out.append("the default value"),
    }
}

/// One option: its key, its type and its default.
pub struct OptionSchema {
    pub key: String,
    pub option_type: OptionType,
    pub default: Json,
}

/// The options of one namespace. A closed schema rejects keys it does not
/// declare.
pub struct NamespaceSchema {
    pub namespace: String,
    pub options: Vec<OptionSchema>,
    pub closed: bool,
}

/// Why schemas or values were rejected.
#[derive(Debug)]
pub enum ValidationError {
    SchemaError { file: String, message: String },
    ValueError { namespace: String, errors: String },
    UnknownNamespace(String),
    ValidationErrors(Vec<ValidationError>),
}

/// The texts of the errors, one per line.
pub open spec fn lines_text(list: Seq<ValidationError>) -> Seq<char>
    decreases list.len(),
{
    if list.len() == 0 {
        Seq::empty()
    } else if list.len() == 1 {
        list[0].text()
    } else {
        lines_text(list.drop_last()) + "\n"@ + list.last().text()
    }
}

impl ValidationError {
    /// The text of one error, as [`message`](Self::message) gives it for
    /// every kind but a list.
    pub open spec fn text(&self) -> Seq<char> {
        match self {
            ValidationError::SchemaError { file, message } => "Schema error in "@ + file@ + ": "@
                + message@,
            ValidationError::ValueError { namespace, errors } => "Value error for "@ + namespace@
                + ": "@ + errors@,
            ValidationError::UnknownNamespace(n) => "Unknown namespace: "@ + n@,
            ValidationError::ValidationErrors(_) => "Validation errors"@,
        }
    }

    fn single_message(&self) -> (r: String)
        ensures
            r@ == self.text(),
    {
        match self {
            ValidationError::SchemaError { file, message } => {
                let mut m = "Schema error in ".to_owned();
                m.append(file.as_str());
                m.append(": ");
                m.append(message.as_str());
                m
            },
            ValidationError::ValueError { namespace, errors } => {
                let mut m = "Value error for ".to_owned();
                m.append(namespace.as_str());
                m.append(": ");
                m.append(errors.as_str());
                m
            },
            ValidationError::UnknownNamespace(n) => {
                let mut m = "Unknown namespace: ".to_owned();
                m.append(n.as_str());
                m
            },
            ValidationError::ValidationErrors(_) => "Validation errors".to_owned(),
        }
    }

    /// The error as a reader sees it; a list gives one line per error.
    pub fn message(&self) -> (r: String)
        ensures
            match self {
                ValidationError::ValidationErrors(list) => r@ == lines_text(list@),
                _ => r@ == self.text(),
            },
    {
        match self {
            ValidationError::ValidationErrors(list) => {
                let mut m = String::new();
                let mut i: usize = 0;
                assert(list@.take(0) =~= Seq::<ValidationError>::empty());
                while i < list.len()
                    invariant
                        i <= list@.len(),
                        m@ == lines_text(list@.take(i as int)),
                    decreases list@.len() - i,
                {
                    let ghost m0 = m@;
                    assert(list@.take(i + 1).drop_last() =~= list@.take(i as int));
                    if i > 0 {
                        m.append("\n");
                    }
                    let one = list[i].single_message();
                    m.append(one.as_str());
                    proof {
                        reveal_strlit("\n");
                        if i > 0 {
                            assert(m@ =~= m0 + "\n"@ + list@[i as int].text());
                        } else {
                            assert(m@ =~= list@[i as int].text());
                        }
                    }
                    i = i + 1;
                }
                assert(list@.take(list@.len() as int) =~= list@);
                m
            },
            _ => self.single_message(),
        }
    }
}

/// The first option declared under `k`.
pub open spec fn find_option(opts: Seq<OptionSchema>, k: Seq<char>) -> Option<OptionSchema>
    decreases opts.len(),
{
    if opts.len() == 0 {
        None
    } else if opts[0].key@ == k {
        Some(opts[0])
    } else {
        find_option(opts.drop_first(), k)
    }
}

/// An option of the schema document: `{"type": name, "default": value}`,
/// with a supported type and a default of that type.
pub open spec fn option_of(key: String, j: Json) -> Option<OptionSchema> {
    match j {
        Json::Object(m) => match member(m@, "type"@) {
            Some(Json::Str(t)) => match type_named(t@) {
                Some(ty) => match member(m@, "default"@) {
                    Some(d) => if type_matches(ty, d) {
                        Some(OptionSchema { key, option_type: ty, default: d })
                    } else {
                        None
                    },
                    None => None,
                },
                None => None,
            },
            _ => None,
        },
        _ => None,
    }
}

/// Every property is a well-formed option.
pub open spec fn properties_ok(ps: Seq<(String, Json)>) -> bool {
    forall|i: int| 0 <= i < ps.len() ==> (#[trigger] option_of(ps[i].0, ps[i].1)) is Some
}

/// A schema document: an object with a `version` string and a `properties`
/// object of options; `"additionalProperties": false` closes it.
pub open spec fn schema_doc_ok(doc: Json) -> bool {
    match doc {
        Json::Object(m) => {
            &&& member(m@, "version"@) matches Some(Json::Str(_))
            &&& member(m@, "properties"@) matches Some(Json::Object(ps)) && properties_ok(ps@)
        },
        _ => false,
    }
}

/// `s` is the schema that `doc` describes for namespace `ns`.
pub open spec fn schema_parsed(ns: String, doc: Json, s: NamespaceSchema) -> bool {
    match doc {
        Json::Object(m) => match member(m@, "properties"@) {
            Some(Json::Object(ps)) => {
                &&& s.namespace == ns
                &&& s.closed == (member(m@, "additionalProperties"@) == Some(Json::Bool(false)))
                &&& s.options@.len() == ps@.len()
                &&& forall|i: int|
                    0 <= i < ps@.len() ==> #[trigger] option_of(ps@[i].0, ps@[i].1) == Some(
                        s.options@[i],
                    )
            },
            _ => false,
        },
        _ => false,
    }
}

/// A value for `key` is accepted: a declared key needs a value of its type;
/// an undeclared one is accepted only by an open schema.
pub open spec fn value_accepted(s: NamespaceSchema, key: Seq<char>, v: Json) -> bool {
    match find_option(s.options@, key) {
        Some(o) => type_matches(o.option_type, v),
        None => !s.closed,
    }
}

/// Every member is accepted.
pub open spec fn entries_accepted(s: NamespaceSchema, m: Seq<(String, Json)>) -> bool {
    forall|i: int| 0 <= i < m.len() ==> value_accepted(s, (#[trigger] m[i]).0@, m[i].1)
}

/// A namespace's whole value object is accepted.
pub open spec fn values_accepted(s: NamespaceSchema, values: Json) -> bool {
    match values {
        Json::Object(m) => entries_accepted(s, m@),
        _ => false,
    }
}

impl NamespaceSchema {
    /// Reads the schema of namespace `namespace` from its document, read
    /// from `file`.
    pub fn from_document(namespace: String, file: String, doc: Json) -> (r: Result<
        NamespaceSchema,
        ValidationError,
    >)
        ensures
            r is Ok <==> schema_doc_ok(doc),
            r matches Ok(s) ==> schema_parsed(namespace, doc, s),
            r matches Err(e) ==> (e matches ValidationError::SchemaError { file: f, .. } && f == file),
            doc matches Json::Object(m) && !(member(m@, "version"@) matches Some(Json::Str(_))) ==> (
            r matches Err(ValidationError::SchemaError { message, .. }) && message@ == missing_version_text()),
    {
        proof {
            reveal_strlit("version");
            reveal_strlit("properties");
            reveal_strlit("additionalProperties");
            reveal_strlit("type");
            reveal_strlit("default");
            assert("version"@.len() != "properties"@.len());
            assert("version"@.len() != "additionalProperties"@.len());
            assert("properties"@.len() != "additionalProperties"@.len());
            assert("type"@.len() != "default"@.len());
        }
        let ghost g = doc;
        let m = match doc {
            Json::Object(m) => m,
            _ => {
                return Err(
                    ValidationError::SchemaError {
                        file,
                        message: "schema document is not an object".to_owned(),
                    },
                );
            },
        };
        let ghost gm = m;
        let (version, props, extra) = take_three(m, "version", "properties", "additionalProperties");
        match version {
            Some(Json::Str(_)) => {},
            _ => {
                return Err(
                    ValidationError::SchemaError {
                        file,
                        message: "Schema validation failed:\nError: \"version\" is a required property".to_owned(),
                    },
                );
            },
        }
        let closed = match extra {
            Some(Json::Bool(b)) => !b,
            _ => false,
        };
        let ps = match props {
            Some(Json::Object(ps)) => ps,
            _ => {
                return Err(
                    ValidationError::SchemaError {
                        file,
                        message: "schema has no properties object".to_owned(),
                    },
                );
            },
        };
        let ghost gps = ps;
        let ghost all = ps@;
        let n = ps.len();
        let mut rest = ps;
        let mut options: Vec<OptionSchema> = Vec::new();
        let mut i: usize = 0;
        while rest.len() > 0
            invariant
                i <= all.len(),
                n == all.len(),
                rest@ == all.skip(i as int),
                rest@.len() == all.len() - i,
                g == Json::Object(gm),
                g == doc,
                member(gm@, "version"@) matches Some(Json::Str(_)),
                member(gm@, "properties"@) == Some(Json::Object(gps)),
                all == gps@,
                options@.len() == i,
                forall|t: int|
                    0 <= t < i ==> #[trigger] option_of(all[t].0, all[t].1) == Some(options@[t]),
            decreases rest@.len(),
        {
            let (key, j) = rest.remove(0);
            let ghost gk = key;
            let ghost gj = j;
            assert(gk == all[i as int].0 && gj == all[i as int].1);
            proof {
                reveal_strlit("type");
                reveal_strlit("default");
                assert("type"@.len() != "default"@.len());
            }
            let o = match j {
                Json::Object(om) => {
                    let (t, d) = take_two(om, "type", "default");
                    match t {
                        Some(Json::Str(t)) => match type_from(t.as_str()) {
                            Some(ty) => match d {
                                Some(d) => {
                                    if value_has_type(ty, &d) {
                                        Some(OptionSchema { key, option_type: ty, default: d })
                                    } else {
                                        let mut m = "Property '".to_owned();
                                        m.append(key.as_str());
                                        m.append("': default value does not match type '");
                                        m.append(t.as_str());
                                        m.append("': ");
                                        append_json_scalar(&mut m, &d);
                                        m.append(" is not of type \"");
                                        m.append(t.as_str());
                                        m.append("\"");
                                        return Err(ValidationError::SchemaError { file, message: m });
                                    }
                                },
                                None => None,
                            },
                            None => None,
                        },
                        _ => None,
                    }
                },
                _ => None,
            };
            assert(o == option_of(gk, gj));
            match o {
                Some(o) => options.push(o),
                None => {
                    assert(!properties_ok(all));
                    return Err(
                        ValidationError::SchemaError {
                            file,
                            message: "an option lacks a supported type or a default of that type".to_owned(),
                        },
                    );
                },
            }
            assert(rest@ =~= all.skip(i + 1));
            i = i + 1;
        }
        Ok(NamespaceSchema { namespace, options, closed })
    }
}


impl Default for SchemaRegistry {
    fn default() -> (r: Self)
        ensures
            forall|ns: Seq<char>| r.schema(ns) is None,
    {
        SchemaRegistry::new()
    }
}

/// The first schema registered for namespace `ns`.
pub open spec fn find_schema(ss: Seq<NamespaceSchema>, ns: Seq<char>) -> Option<NamespaceSchema>
    decreases ss.len(),
{
    if ss.len() == 0 {
        None
    } else if ss[0].namespace@ == ns {
        Some(ss[0])
    } else {
        find_schema(ss.drop_first(), ns)
    }
}

impl NamespaceSchema {
    /// The option declared under `key`.
    pub fn find(&self, key: &str) -> (r: Option<&OptionSchema>)
        ensures
            match r {
                Some(o) => find_option(self.options@, key@) == Some(*o),
                None => find_option(self.options@, key@) is None,
            },
    {
        let ghost s = self.options@;
        let mut i: usize = 0;
        assert(s.skip(0) =~= s);
        while i < self.options.len()
            invariant
                s == self.options@,
                i <= s.len(),
                find_option(s, key@) == find_option(s.skip(i as int), key@),
            decreases s.len() - i,
        {
            assert(s.skip(i as int).drop_first() =~= s.skip(i + 1));
            assert(s.skip(i as int)[0] == s[i as int]);
            if same_text(self.options[i].key.as_str(), key) {
                return Some(&self.options[i]);
            }
            i = i + 1;
        }
        None
    }

    /// The default of the option declared under `key`.
    pub fn get_default(&self, key: &str) -> (r: Option<&Json>)
        ensures
            match r {
                Some(d) => find_option(self.options@, key@) matches Some(o) && o.default == *d,
                None => find_option(self.options@, key@) is None,
            },
    {
        match self.find(key) {
            Some(o) => Some(&o.default),
            None => None,
        }
    }

    /// Checks a namespace's whole value object against this schema.
    pub fn validate_values(&self, values: &Json) -> (r: Result<(), ValidationError>)
        ensures
            r is Ok <==> values_accepted(*self, *values),
    {
        match values {
            Json::Object(m) => {
                let mut i: usize = 0;
                while i < m.len()
                    invariant
                        *values == Json::Object(*m),
                        i <= m@.len(),
                        forall|t: int|
                            0 <= t < i ==> value_accepted(*self, (#[trigger] m@[t]).0@, m@[t].1),
                    decreases m@.len() - i,
                {
                    let ok = match self.find(m[i].0.as_str()) {
                        Some(o) => value_has_type(o.option_type, &m[i].1),
                        None => !self.closed,
                    };
                    if !ok {
                        assert(!value_accepted(*self, m@[i as int].0@, m@[i as int].1));
                        assert(!entries_accepted(*self, m@));
                        return Err(
                            ValidationError::ValueError {
                                namespace: self.namespace.clone(),
                                errors: "a value does not match its option's type, or its key is not declared".to_owned(),
                            },
                        );
                    }
                    i = i + 1;
                }
                Ok(())
            },
            _ => Err(
                ValidationError::ValueError {
                    namespace: self.namespace.clone(),
                    errors: "values are not an object".to_owned(),
                },
            ),
        }
    }
}

/// The schemas of all namespaces.
pub struct SchemaRegistry {
    schemas: Vec<NamespaceSchema>,
}

impl SchemaRegistry {
    /// The registered schemas, in order of registration.
    pub closed spec fn schemas_view(&self) -> Seq<NamespaceSchema> {
        self.schemas@
    }

    /// The schema of namespace `ns`.
    pub open spec fn schema(&self, ns: Seq<char>) -> Option<NamespaceSchema> {
        find_schema(self.schemas_view(), ns)
    }

    /// A registry with no namespaces.
    pub fn new() -> (r: Self)
        ensures
            r.schemas_view().len() == 0,
            forall|ns: Seq<char>| r.schema(ns) is None,
    {
        SchemaRegistry { schemas: Vec::new() }
    }

    /// Builds a registry from schema documents, each given with its
    /// namespace and the file it was read from. Either every document is
    /// registered or none is.
    pub fn from_documents(docs: Vec<(String, String, Json)>) -> (r: Result<Self, ValidationError>)
        ensures
            r is Ok <==> forall|i: int| 0 <= i < docs@.len() ==> schema_doc_ok(#[trigger] docs@[i].2),
            r matches Err(e) ==> exists|i: int|
                0 <= i < docs@.len() && !schema_doc_ok(#[trigger] docs@[i].2) && (forall|t: int|
                    0 <= t < i ==> schema_doc_ok(#[trigger] docs@[t].2)) && (e matches ValidationError::SchemaError {
                    file: f,
                    ..
                } && f == docs@[i].1),
            r matches Ok(reg) ==> reg.schemas_view().len() == docs@.len() && forall|i: int|
                0 <= i < docs@.len() ==> schema_parsed(
                    #[trigger] docs@[i].0,
                    docs@[i].2,
                    reg.schemas_view()[i],
                ),
    {
        let ghost all = docs@;
        let n = docs.len();
        let mut rest = docs;
        let mut schemas: Vec<NamespaceSchema> = Vec::new();
        let mut i: usize = 0;
        while rest.len() > 0
            invariant
                i <= all.len(),
                n == all.len(),
                all == docs@,
                rest@ == all.skip(i as int),
                rest@.len() == all.len() - i,
                schemas@.len() == i,
                forall|t: int| 0 <= t < i ==> schema_doc_ok(#[trigger] all[t].2),
                forall|t: int| 0 <= t < i ==> schema_parsed(#[trigger] all[t].0, all[t].2, schemas@[t]),
            decreases rest@.len(),
        {
            let (ns, file, doc) = rest.remove(0);
            match NamespaceSchema::from_document(ns, file, doc) {
                Ok(s) => schemas.push(s),
                Err(e) => {
                    assert(!schema_doc_ok(all[i as int].2));
                    assert(forall|t: int| 0 <= t < i ==> schema_doc_ok(#[trigger] all[t].2));
                    return Err(e);
                },
            }
            assert(rest@ =~= all.skip(i + 1));
            i = i + 1;
        }
        Ok(SchemaRegistry { schemas })
    }

    /// The registered schemas, in order of registration.
    pub fn namespaces(&self) -> (r: &Vec<NamespaceSchema>)
        ensures
            r@ == self.schemas_view(),
    {
        &self.schemas
    }

    /// The schema of namespace `namespace`.
    pub fn get(&self, namespace: &str) -> (r: Option<&NamespaceSchema>)
        ensures
            match r {
                Some(s) => self.schema(namespace@) == Some(*s),
                None => self.schema(namespace@) is None,
            },
    {
        let ghost s = self.schemas@;
        let mut i: usize = 0;
        assert(s.skip(0) =~= s);
        while i < self.schemas.len()
            invariant
                s == self.schemas@,
                i <= s.len(),
                find_schema(s, namespace@) == find_schema(s.skip(i as int), namespace@),
            decreases s.len() - i,
        {
            assert(s.skip(i as int).drop_first() =~= s.skip(i + 1));
            assert(s.skip(i as int)[0] == s[i as int]);
            if same_text(self.schemas[i].namespace.as_str(), namespace) {
                return Some(&self.schemas[i]);
            }
            i = i + 1;
        }
        None
    }

    /// The default of `key` in `namespace`.
    pub fn get_default(&self, namespace: &str, key: &str) -> (r: Option<&Json>)
        ensures
            match r {
                Some(d) => self.schema(namespace@) matches Some(s) && find_option(s.options@, key@) matches Some(o) && o.default == *d,
                None => !(self.schema(namespace@) matches Some(s) && find_option(s.options@, key@) is Some),
            },
    {
        match self.get(namespace) {
            Some(s) => s.get_default(key),
            None => None,
        }
    }

    /// Checks a namespace's whole value object against its schema.
    pub fn validate_values(&self, namespace: &str, values: &Json) -> (r: Result<(), ValidationError>)
        ensures
            match self.schema(namespace@) {
                None => r matches Err(ValidationError::UnknownNamespace(n)) && n@ == namespace@,
                Some(s) => r is Ok <==> values_accepted(s, *values),
            },
    {
        match self.get(namespace) {
            None => Err(ValidationError::UnknownNamespace(namespace.to_owned())),
            Some(s) => s.validate_values(values),
        }
    }
}

} // verus!

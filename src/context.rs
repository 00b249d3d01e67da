use vstd::prelude::*;

use sha1::Digest;
use vstd::utf8::encode_utf8;

use crate::text::{
    lemma_strictly_sorted_unique, lemma_text_lt_irreflexive, lemma_text_lt_total,
    lemma_text_lt_transitive, same_text, text_less, text_lt, texts_sorted, texts_strictly_sorted,
};

verus! {

/// A typed value held by a [`FeatureContext`].
#[derive(Debug, PartialEq)]
pub enum ContextValue {
    String(String),
    Int(i64),
    Bool(bool),
    StringList(Vec<String>),
    IntList(Vec<i64>),
    BoolList(Vec<bool>),
}

impl ContextValue {
    /// The UTF-8 text that the value contributes to the identity string:
    /// strings as they are, integers in decimal, `True` or `False`, and lists
    /// as `[a, b]` of their elements' debug forms.
    pub fn identity_text(&self) -> (r: Vec<u8>)
        ensures
            r@ == render(*self),
    {
        let mut out: Vec<u8> = Vec::new();
        append_value(&mut out, self);
        assert(out@ =~= render(*self));
        out
    }

    /// Whether the value is one of the list kinds.
    pub open spec fn is_list(self) -> bool {
        match self {
            ContextValue::StringList(_) | ContextValue::IntList(_) | ContextValue::BoolList(_) => true,
            _ => false,
        }
    }
}

impl From<&str> for ContextValue {
    fn from(s: &str) -> (r: ContextValue)
        ensures
            r matches ContextValue::String(t) && t@ == s@,
    {
        ContextValue::String(s.to_owned())
    }
}

impl vstd::std_specs::convert::FromSpecImpl<&str> for ContextValue {
    open spec fn obeys_from_spec() -> bool {
        false
    }

    open spec fn from_spec(s: &str) -> ContextValue {
        arbitrary()
    }
}

impl From<String> for ContextValue {
    fn from(s: String) -> (r: ContextValue) {
        ContextValue::String(s)
    }
}

impl vstd::std_specs::convert::FromSpecImpl<String> for ContextValue {
    open spec fn obeys_from_spec() -> bool {
        true
    }

    open spec fn from_spec(s: String) -> ContextValue {
        ContextValue::String(s)
    }
}

impl From<i64> for ContextValue {
    fn from(i: i64) -> (r: ContextValue) {
        ContextValue::Int(i)
    }
}

impl vstd::std_specs::convert::FromSpecImpl<i64> for ContextValue {
    open spec fn obeys_from_spec() -> bool {
        true
    }

    open spec fn from_spec(i: i64) -> ContextValue {
        ContextValue::Int(i)
    }
}

impl From<bool> for ContextValue {
    fn from(b: bool) -> (r: ContextValue) {
        ContextValue::Bool(b)
    }
}

impl vstd::std_specs::convert::FromSpecImpl<bool> for ContextValue {
    open spec fn obeys_from_spec() -> bool {
        true
    }

    open spec fn from_spec(b: bool) -> ContextValue {
        ContextValue::Bool(b)
    }
}

impl From<Vec<String>> for ContextValue {
    fn from(v: Vec<String>) -> (r: ContextValue) {
        ContextValue::StringList(v)
    }
}

impl vstd::std_specs::convert::FromSpecImpl<Vec<String>> for ContextValue {
    open spec fn obeys_from_spec() -> bool {
        true
    }

    open spec fn from_spec(v: Vec<String>) -> ContextValue {
        ContextValue::StringList(v)
    }
}

impl From<Vec<i64>> for ContextValue {
    fn from(v: Vec<i64>) -> (r: ContextValue) {
        ContextValue::IntList(v)
    }
}

impl vstd::std_specs::convert::FromSpecImpl<Vec<i64>> for ContextValue {
    open spec fn obeys_from_spec() -> bool {
        true
    }

    open spec fn from_spec(v: Vec<i64>) -> ContextValue {
        ContextValue::IntList(v)
    }
}

impl From<Vec<bool>> for ContextValue {
    fn from(v: Vec<bool>) -> (r: ContextValue) {
        ContextValue::BoolList(v)
    }
}

impl vstd::std_specs::convert::FromSpecImpl<Vec<bool>> for ContextValue {
    open spec fn obeys_from_spec() -> bool {
        true
    }

    open spec fn from_spec(v: Vec<bool>) -> ContextValue {
        ContextValue::BoolList(v)
    }
}

/// The SHA-1 digest of a byte string.
pub uninterp spec fn sha1_of(data: Seq<u8>) -> Seq<u8>;

/// The quoted and escaped form that `str`'s `Debug` gives a string.
pub uninterp spec fn debug_text(s: Seq<char>) -> Seq<char>;

/// Relies on `sha1::Sha1::digest`: the SHA-1 digest of the bytes, which is
/// 20 bytes long.
#[verifier::external_body]
fn sha1_digest(data: &Vec<u8>) -> (r: Vec<u8>)
    ensures
        r@ == sha1_of(data@),
        r@.len() == 20,
{
    sha1::Sha1::digest(data.as_slice()).to_vec()
}

/// Relies on `str`'s `Debug`: the string in double quotes, with escapes.
#[verifier::external_body]
pub(crate) fn debug_quoted(s: &str) -> (r: String)
    ensures
        r@ == debug_text(s@),
{
    format!("{:?}", s)
}

/// Decimal digits of a natural number, as ASCII bytes.
pub open spec fn digits(n: nat) -> Seq<u8>
    decreases n,
{
    if n < 10 {
        seq![(n + 48) as u8]
    } else {
        digits(n / 10).push((n % 10 + 48) as u8)
    }
}

/// Decimal text of an integer, with a leading `-` when negative.
pub open spec fn int_text(i: int) -> Seq<u8> {
    if i < 0 {
        seq![45u8] + digits((-i) as nat)
    } else {
        digits(i as nat)
    }
}

/// `True` or `False`: how a boolean field is written into the identity text.
pub open spec fn bool_text(b: bool) -> Seq<u8> {
    if b {
        seq![84u8, 114, 117, 101]
    } else {
        seq![70u8, 97, 108, 115, 101]
    }
}

/// `true` or `false`: how a boolean is written inside a list.
pub open spec fn bool_word(b: bool) -> Seq<u8> {
    if b {
        seq![116u8, 114, 117, 101]
    } else {
        seq![102u8, 97, 108, 115, 101]
    }
}

/// The parts written one after another with `sep` between each two.
pub open spec fn join(parts: Seq<Seq<u8>>, sep: Seq<u8>) -> Seq<u8>
    decreases parts.len(),
{
    if parts.len() == 0 {
        Seq::empty()
    } else if parts.len() == 1 {
        parts[0]
    } else {
        join(parts.drop_last(), sep) + sep + parts.last()
    }
}

/// `[a, b, c]`.
pub open spec fn list_text(parts: Seq<Seq<u8>>) -> Seq<u8> {
    seq![91u8] + join(parts, seq![44u8, 32u8]) + seq![93u8]
}

/// The UTF-8 text that a value contributes to the identity string.
pub open spec fn render(v: ContextValue) -> Seq<u8> {
    match v {
        ContextValue::String(s) => encode_utf8(s@),
        ContextValue::Int(i) => int_text(i as int),
        ContextValue::Bool(b) => bool_text(b),
        _ => list_text(list_parts(v)),
    }
}

/// The texts of a list's elements: strings in their debug form, integers in
/// decimal, booleans as `true` or `false`. Empty for a scalar.
pub open spec fn list_parts(v: ContextValue) -> Seq<Seq<u8>> {
    match v {
        ContextValue::StringList(l) => l@.map_values(|s: String| encode_utf8(debug_text(s@))),
        ContextValue::IntList(l) => l@.map_values(|i: i64| int_text(i as int)),
        ContextValue::BoolList(l) => l@.map_values(|b: bool| bool_word(b)),
        _ => Seq::empty(),
    }
}

fn list_len(v: &ContextValue) -> (r: usize)
    ensures
        r == list_parts(*v).len(),
{
    match v {
        ContextValue::StringList(l) => l.len(),
        ContextValue::IntList(l) => l.len(),
        ContextValue::BoolList(l) => l.len(),
        _ => 0,
    }
}

fn append_element(out: &mut Vec<u8>, v: &ContextValue, i: usize)
    requires
        i < list_parts(*v).len(),
    ensures
        final(out)@ == old(out)@ + list_parts(*v)[i as int],
{
    match v {
        ContextValue::StringList(l) => {
            let q = debug_quoted(l[i].as_str());
            append_text(out, q.as_str());
        },
        ContextValue::IntList(l) => append_int(out, l[i]),
        ContextValue::BoolList(l) => append_bool_word(out, l[i]),
        _ => {},
    }
}

proof fn lemma_join_step(parts: Seq<Seq<u8>>, sep: Seq<u8>, i: int)
    requires
        0 < i < parts.len(),
    ensures
        join(parts.take(i + 1), sep) == join(parts.take(i), sep) + sep + parts[i],
{
    assert(parts.take(i + 1).drop_last() =~= parts.take(i));
}

proof fn lemma_join_first(parts: Seq<Seq<u8>>, sep: Seq<u8>)
    requires
        0 < parts.len(),
    ensures
        join(parts.take(1), sep) == parts[0],
{
}

fn append_bytes(out: &mut Vec<u8>, b: &[u8])
    ensures
        final(out)@ == old(out)@ + b@,
{
    let ghost start = out@;
    let mut i: usize = 0;
    while i < b.len()
        invariant
            i <= b@.len(),
            out@ == start + b@.take(i as int),
        decreases b@.len() - i,
    {
        out.push(b[i]);
        assert(b@.take(i + 1) =~= b@.take(i as int).push(b@[i as int]));
        i = i + 1;
    }
    assert(b@.take(b@.len() as int) =~= b@);
}

fn append_text(out: &mut Vec<u8>, s: &str)
    ensures
        final(out)@ == old(out)@ + encode_utf8(s@),
{
    append_bytes(out, s.as_bytes());
}

fn append_digits(out: &mut Vec<u8>, n: u64)
    ensures
        final(out)@ == old(out)@ + digits(n as nat),
    decreases n,
{
    if n >= 10 {
        append_digits(out, n / 10);
    }
    let d: u8 = (n % 10) as u8 + 48;
    out.push(d);
    proof {
        if n >= 10 {
            assert(digits(n as nat) == digits((n / 10) as nat).push(d));
        } else {
            assert(digits(n as nat) =~= seq![d]);
        }
    }
    assert(out@ =~= old(out)@ + digits(n as nat));
}

fn append_int(out: &mut Vec<u8>, i: i64)
    ensures
        final(out)@ == old(out)@ + int_text(i as int),
{
    if i < 0 {
        out.push(45u8);
        let m: u64 = (-(i as i128)) as u64;
        append_digits(out, m);
        assert(out@ =~= old(out)@ + int_text(i as int));
    } else {
        append_digits(out, i as u64);
    }
}

fn append_bool_word(out: &mut Vec<u8>, b: bool)
    ensures
        final(out)@ == old(out)@ + bool_word(b),
{
    if b {
        out.push(116u8);
        out.push(114u8);
        out.push(117u8);
        out.push(101u8);
    } else {
        out.push(102u8);
        out.push(97u8);
        out.push(108u8);
        out.push(115u8);
        out.push(101u8);
    }
    assert(out@ =~= old(out)@ + bool_word(b));
}

/// Writes the text of `v` as [`render`] gives it.
fn append_value(out: &mut Vec<u8>, v: &ContextValue)
    ensures
        final(out)@ == old(out)@ + render(*v),
{
    let ghost start = out@;
    match v {
        ContextValue::String(s) => {
            append_text(out, s.as_str());
        },
        ContextValue::Int(i) => {
            append_int(out, *i);
        },
        ContextValue::Bool(b) => {
            if *b {
                out.push(84u8);
                out.push(114u8);
                out.push(117u8);
                out.push(101u8);
            } else {
                out.push(70u8);
                out.push(97u8);
                out.push(108u8);
                out.push(115u8);
                out.push(101u8);
            }
            assert(out@ =~= start + bool_text(*b));
        },
        _ => {
            let ghost parts = list_parts(*v);
            let n = list_len(v);
            out.push(91u8);
            let mut i: usize = 0;
            while i < n
                invariant
                    n == parts.len(),
                    parts == list_parts(*v),
                    i <= n,
                    out@ == start + seq![91u8] + join(parts.take(i as int), seq![44u8, 32u8]),
                decreases n - i,
            {
                if i > 0 {
                    out.push(44u8);
                    out.push(32u8);
                }
                append_element(out, v, i);
                proof {
                    if i > 0 {
                        lemma_join_step(parts, seq![44u8, 32u8], i as int);
                    } else {
                        lemma_join_first(parts, seq![44u8, 32u8]);
                    }
                }
                assert(out@ =~= start + seq![91u8] + join(parts.take(i + 1), seq![44u8, 32u8]));
                i = i + 1;
            }
            out.push(93u8);
            assert(parts.take(n as int) =~= parts);
            assert(out@ =~= start + render(*v));
        },
    }
}

/// The digest read as a big-endian number.
pub open spec fn be_value(d: Seq<u8>) -> nat
    decreases d.len(),
{
    if d.len() == 0 {
        0
    } else {
        be_value(d.drop_last()) * 256 + d.last() as nat
    }
}

/// The digest read as a big-endian number, reduced modulo 100.
fn reduce_mod_100(d: &Vec<u8>) -> (r: u8)
    ensures
        r as nat == be_value(d@) % 100,
{
    let mut acc: u64 = 0;
    let mut i: usize = 0;
    assert(d@.take(0) =~= Seq::<u8>::empty());
    while i < d.len()
        invariant
            i <= d@.len(),
            acc < 100,
            acc as nat == be_value(d@.take(i as int)) % 100,
        decreases d@.len() - i,
    {
        let b = d[i];
        let ghost x = be_value(d@.take(i as int)) as int;
        assert(d@.take(i + 1).drop_last() =~= d@.take(i as int));
        assert(be_value(d@.take(i + 1)) == x * 256 + b as int);
        proof {
            vstd::arithmetic::div_mod::lemma_mul_mod_noop_left(x, 256, 100);
            vstd::arithmetic::div_mod::lemma_add_mod_noop(x * 256, b as int, 100);
            vstd::arithmetic::div_mod::lemma_add_mod_noop((x % 100) * 256, b as int, 100);
        }
        acc = (acc * 256 + b as u64) % 100;
        i = i + 1;
    }
    assert(d@.take(d@.len() as int) =~= d@);
    acc as u8
}


/// The field names of a list of entries, in order.
pub open spec fn keys(s: Seq<(String, ContextValue)>) -> Seq<Seq<char>> {
    s.map_values(|e: (String, ContextValue)| e.0@)
}

pub open spec fn has_key_at(s: Seq<(String, ContextValue)>, i: int, k: Seq<char>) -> bool {
    0 <= i < s.len() && s[i].0@ == k
}

/// The value stored under `k`, if any.
pub open spec fn lookup(s: Seq<(String, ContextValue)>, k: Seq<char>) -> Option<ContextValue> {
    if exists|i: int| has_key_at(s, i, k) {
        Some(s[choose|i: int| has_key_at(s, i, k)].1)
    } else {
        None
    }
}

/// The fields that the identity text is built from: the identity fields when
/// there are any, else every key present.
pub open spec fn chosen_fields(s: Seq<(String, ContextValue)>, ident: Seq<Seq<char>>) -> Seq<
    Seq<char>,
> {
    if ident.len() == 0 {
        keys(s)
    } else {
        ident
    }
}

/// The rendered values of those of `fields` that are present, in order.
pub open spec fn parts_of(fields: Seq<Seq<char>>, s: Seq<(String, ContextValue)>) -> Seq<Seq<u8>>
    decreases fields.len(),
{
    if fields.len() == 0 {
        Seq::empty()
    } else {
        let rest = parts_of(fields.drop_last(), s);
        match lookup(s, fields.last()) {
            Some(v) => rest.push(render(v)),
            None => rest,
        }
    }
}

/// The bytes that are hashed: the rendered values joined with `:`.
pub open spec fn identity_bytes(s: Seq<(String, ContextValue)>, ident: Seq<Seq<char>>) -> Seq<u8> {
    join(parts_of(chosen_fields(s, ident), s), seq![58u8])
}

/// The bucket id: the SHA-1 digest of the identity bytes as a big-endian
/// number, modulo 100.
pub open spec fn bucket_of(s: Seq<(String, ContextValue)>, ident: Seq<Seq<char>>) -> nat {
    be_value(sha1_of(identity_bytes(s, ident))) % 100
}

proof fn lemma_lookup_at(s: Seq<(String, ContextValue)>, i: int, k: Seq<char>)
    requires
        texts_strictly_sorted(keys(s)),
        has_key_at(s, i, k),
    ensures
        lookup(s, k) == Some(s[i].1),
{
    let j = choose|j: int| has_key_at(s, j, k);
    if j != i {
        lemma_text_lt_irreflexive(k);
        if j < i {
            assert(text_lt(keys(s)[j], keys(s)[i]));
        } else {
            assert(text_lt(keys(s)[i], keys(s)[j]));
        }
    }
}

proof fn lemma_keys_contain(s: Seq<(String, ContextValue)>, k: Seq<char>)
    ensures
        keys(s).contains(k) <==> lookup(s, k) is Some,
{
    if keys(s).contains(k) {
        let i = choose|i: int| 0 <= i < keys(s).len() && keys(s)[i] == k;
        assert(has_key_at(s, i, k));
    }
    if lookup(s, k) is Some {
        let i = choose|i: int| has_key_at(s, i, k);
        assert(keys(s)[i] == k);
    }
}

proof fn lemma_parts_agree(
    fields: Seq<Seq<char>>,
    s1: Seq<(String, ContextValue)>,
    s2: Seq<(String, ContextValue)>,
)
    requires
        forall|k: Seq<char>| lookup(s1, k) == lookup(s2, k),
    ensures
        parts_of(fields, s1) == parts_of(fields, s2),
    decreases fields.len(),
{
    if fields.len() > 0 {
        lemma_parts_agree(fields.drop_last(), s1, s2);
        assert(lookup(s1, fields.last()) == lookup(s2, fields.last()));
    }
}

/// Application data that a feature is evaluated against.
///
/// Entries are kept sorted by key, with each key once; identity fields are
/// kept sorted. The bucket id is computed on first use and kept until a
/// field or the identity fields change.
pub struct FeatureContext {
    entries: Vec<(String, ContextValue)>,
    identity: Vec<String>,
    cached_id: Option<u8>,
}

impl FeatureContext {
    /// The entries, sorted by key.
    pub closed spec fn entries_view(&self) -> Seq<(String, ContextValue)> {
        self.entries@
    }

    /// The identity field names, sorted.
    pub closed spec fn identity_view(&self) -> Seq<Seq<char>> {
        self.identity@.map_values(|s: String| s@)
    }

    pub closed spec fn wf(&self) -> bool {
        &&& texts_strictly_sorted(keys(self.entries@))
        &&& texts_sorted(self.identity_view())
        &&& (self.cached_id matches Some(c) ==> c as nat == self.bucket() && c < 100)
    }

    /// The value stored under `k`.
    pub open spec fn value_of(&self, k: Seq<char>) -> Option<ContextValue> {
        lookup(self.entries_view(), k)
    }

    /// The bucket id of this context, in `0..100`.
    pub open spec fn bucket(&self) -> nat {
        bucket_of(self.entries_view(), self.identity_view())
    }

    /// An empty context, with no identity fields.
    pub fn new() -> (r: Self)
        ensures
            r.wf(),
            forall|k: Seq<char>| r.value_of(k) is None,
            r.identity_view().len() == 0,
            r.entries_view().len() == 0,
    {
        let r = FeatureContext { entries: Vec::new(), identity: Vec::new(), cached_id: None };
        assert(r.identity_view() =~= Seq::<Seq<char>>::empty());
        r
    }

    /// Stores `value` under `key`, replacing what was there.
    pub fn insert(&mut self, key: &str, value: ContextValue)
        requires
            old(self).wf(),
        ensures
            final(self).wf(),
            final(self).value_of(key@) == Some(value),
            forall|k: Seq<char>| k != key@ ==> final(self).value_of(k) == old(self).value_of(k),
            final(self).identity_view() == old(self).identity_view(),
    {
        let ghost old_s = self.entries@;
        let n = self.entries.len();
        let mut i: usize = 0;
        while i < n && text_less(self.entries[i].0.as_str(), key)
            invariant
                n == self.entries@.len(),
                self.entries@ == old_s,
                i <= n,
                forall|j: int| 0 <= j < i ==> text_lt(#[trigger] keys(old_s)[j], key@),
            decreases n - i,
        {
            i = i + 1;
        }
        let ghost ks = keys(old_s);
        if i < n && same_text(self.entries[i].0.as_str(), key) {
            self.entries.set(i, (key.to_owned(), value));
            let ghost new_s = self.entries@;
            assert(keys(new_s) =~= ks);
            proof {
                assert(has_key_at(new_s, i as int, key@));
                lemma_lookup_at(new_s, i as int, key@);
                assert forall|k: Seq<char>| k != key@ implies lookup(new_s, k) == lookup(old_s, k) by {
                    if exists|j: int| has_key_at(old_s, j, k) {
                        let j = choose|j: int| has_key_at(old_s, j, k);
                        lemma_lookup_at(old_s, j, k);
                        assert(has_key_at(new_s, j, k));
                        lemma_lookup_at(new_s, j, k);
                    }
                    if exists|j: int| has_key_at(new_s, j, k) {
                        let j = choose|j: int| has_key_at(new_s, j, k);
                        assert(has_key_at(old_s, j, k));
                    }
                }
            }
        } else {
            self.entries.insert(i, (key.to_owned(), value));
            let ghost new_s = self.entries@;
            proof {
                assert(keys(new_s) =~= ks.insert(i as int, key@));
                if i < n {
                    assert(ks[i as int] != key@);
                    lemma_text_lt_total(ks[i as int], key@);
                }
                assert forall|a: int, b: int| 0 <= a < b < keys(new_s).len() implies text_lt(
                    #[trigger] keys(new_s)[a],
                    #[trigger] keys(new_s)[b],
                ) by {
                    if b < i {
                        assert(keys(new_s)[a] == ks[a]);
                        assert(keys(new_s)[b] == ks[b]);
                    } else if b == i {
                        assert(keys(new_s)[a] == ks[a]);
                    } else if a == i {
                        assert(keys(new_s)[b] == ks[b - 1]);
                        if b - 1 > i {
                            lemma_text_lt_transitive(key@, ks[i as int], ks[b - 1]);
                        }
                    } else if a < i {
                        assert(keys(new_s)[a] == ks[a]);
                        assert(keys(new_s)[b] == ks[b - 1]);
                        assert(text_lt(ks[a], key@));
                        if b - 1 >= i {
                            lemma_text_lt_transitive(ks[a], key@, ks[i as int]);
                            if b - 1 > i {
                                lemma_text_lt_transitive(ks[a], ks[i as int], ks[b - 1]);
                            }
                        }
                    } else {
                        assert(keys(new_s)[a] == ks[a - 1]);
                        assert(keys(new_s)[b] == ks[b - 1]);
                    }
                }
                assert(has_key_at(new_s, i as int, key@));
                lemma_lookup_at(new_s, i as int, key@);
                assert forall|k: Seq<char>| k != key@ implies lookup(new_s, k) == lookup(old_s, k) by {
                    if exists|j: int| has_key_at(old_s, j, k) {
                        let j = choose|j: int| has_key_at(old_s, j, k);
                        lemma_lookup_at(old_s, j, k);
                        if j < i {
                            assert(has_key_at(new_s, j, k));
                            lemma_lookup_at(new_s, j, k);
                        } else {
                            assert(has_key_at(new_s, j + 1, k));
                            lemma_lookup_at(new_s, j + 1, k);
                        }
                    }
                    if exists|j: int| has_key_at(new_s, j, k) {
                        let j = choose|j: int| has_key_at(new_s, j, k);
                        if j < i {
                            assert(has_key_at(old_s, j, k));
                        } else {
                            assert(j != i);
                            assert(has_key_at(old_s, j - 1, k));
                        }
                    }
                }
            }
        }
        self.cached_id = None;
    }

    /// Sets the identity fields, which are kept sorted. Duplicates stay.
    pub fn identity_fields(&mut self, fields: Vec<&str>)
        requires
            old(self).wf(),
        ensures
            final(self).wf(),
            texts_sorted(final(self).identity_view()),
            final(self).identity_view().to_multiset() =~= fields@.map_values(
                |s: &str| s@,
            ).to_multiset(),
            final(self).entries_view() == old(self).entries_view(),
    {
        let ghost names = fields@.map_values(|s: &str| s@);
        let mut sorted: Vec<String> = Vec::new();
        let mut i: usize = 0;
        assert(names.take(0) =~= Seq::<Seq<char>>::empty());
        assert(sorted@.map_values(|s: String| s@) =~= names.take(0));
        while i < fields.len()
            invariant
                i <= fields@.len(),
                names == fields@.map_values(|s: &str| s@),
                texts_sorted(sorted@.map_values(|s: String| s@)),
                sorted@.map_values(|s: String| s@).to_multiset() == names.take(i as int).to_multiset(),
            decreases fields@.len() - i,
        {
            let name: &str = fields[i];
            let ghost sv = sorted@.map_values(|s: String| s@);
            let mut j: usize = 0;
            while j < sorted.len() && !text_less(name, sorted[j].as_str())
                invariant
                    j <= sorted@.len(),
                    sv == sorted@.map_values(|s: String| s@),
                    forall|t: int| 0 <= t < j ==> !text_lt(name@, #[trigger] sv[t]),
                decreases sorted@.len() - j,
            {
                j = j + 1;
            }
            sorted.insert(j, name.to_owned());
            let ghost nv = sorted@.map_values(|s: String| s@);
            proof {
                assert(nv =~= sv.insert(j as int, name@));
                assert forall|a: int, b: int| 0 <= a < b < nv.len() implies !text_lt(
                    #[trigger] nv[b],
                    #[trigger] nv[a],
                ) by {
                    if b < j {
                        assert(nv[a] == sv[a] && nv[b] == sv[b]);
                    } else if b == j {
                        assert(nv[a] == sv[a]);
                    } else if a == j {
                        assert(nv[b] == sv[b - 1]);
                        assert(text_lt(name@, sv[j as int]));
                        if text_lt(sv[b - 1], name@) {
                            lemma_text_lt_transitive(sv[b - 1], name@, sv[j as int]);
                            if b - 1 == j {
                                lemma_text_lt_irreflexive(sv[j as int]);
                            }
                        }
                    } else if a < j {
                        assert(nv[a] == sv[a] && nv[b] == sv[b - 1]);
                    } else {
                        assert(nv[a] == sv[a - 1] && nv[b] == sv[b - 1]);
                    }
                }
                vstd::seq_lib::to_multiset_insert(sv, j as int, name@);
                assert(names.take(i + 1) =~= names.take(i as int).push(name@));
                vstd::seq_lib::to_multiset_build(names.take(i as int), name@);
            }
            i = i + 1;
        }
        assert(names.take(fields@.len() as int) =~= names);
        self.identity = sorted;
        self.cached_id = None;
    }

    /// The value stored under `key`.
    pub fn get(&self, key: &str) -> (r: Option<&ContextValue>)
        requires
            self.wf(),
        ensures
            match r {
                Some(v) => self.value_of(key@) == Some(*v),
                None => self.value_of(key@) is None,
            },
    {
        let mut i: usize = 0;
        while i < self.entries.len()
            invariant
                self.wf(),
                i <= self.entries@.len(),
                forall|j: int| 0 <= j < i ==> !has_key_at(self.entries@, j, key@),
            decreases self.entries@.len() - i,
        {
            if same_text(self.entries[i].0.as_str(), key) {
                proof {
                    lemma_lookup_at(self.entries@, i as int, key@);
                }
                return Some(&self.entries[i].1);
            }
            i = i + 1;
        }
        None
    }

    /// Whether a value is stored under `key`.
    pub fn has(&self, key: &str) -> (r: bool)
        requires
            self.wf(),
        ensures
            r == self.value_of(key@) is Some,
    {
        self.get(key).is_some()
    }

    fn compute_id(&self) -> (r: u8)
        requires
            self.wf(),
        ensures
            r as nat == self.bucket(),
            r < 100,
    {
        let ghost s = self.entries@;
        let ghost fields = chosen_fields(s, self.identity_view());
        let use_identity = self.identity.len() > 0;
        let n = if use_identity {
            self.identity.len()
        } else {
            self.entries.len()
        };
        let mut buf: Vec<u8> = Vec::new();
        let mut count: usize = 0;
        let mut i: usize = 0;
        assert(fields.take(0) =~= Seq::<Seq<char>>::empty());
        while i < n
            invariant
                self.wf(),
                s == self.entries@,
                fields == chosen_fields(s, self.identity_view()),
                n == fields.len(),
                use_identity == (self.identity_view().len() > 0),
                i <= n,
                count <= i,
                count as int == parts_of(fields.take(i as int), s).len(),
                buf@ == join(parts_of(fields.take(i as int), s), seq![58u8]),
            decreases n - i,
        {
            let value: Option<&ContextValue> = if use_identity {
                self.get(self.identity[i].as_str())
            } else {
                proof {
                    assert(has_key_at(s, i as int, fields[i as int]));
                    lemma_lookup_at(s, i as int, fields[i as int]);
                }
                Some(&self.entries[i].1)
            };
            let ghost prev = parts_of(fields.take(i as int), s);
            assert(fields.take(i + 1).drop_last() =~= fields.take(i as int));
            assert(fields.take(i + 1).last() == fields[i as int]);
            match value {
                Some(v) => {
                    if count > 0 {
                        buf.push(58u8);
                    }
                    append_value(&mut buf, v);
                    proof {
                        let next = parts_of(fields.take(i + 1), s);
                        assert(next == prev.push(render(*v)));
                        if count > 0 {
                            lemma_join_step(next, seq![58u8], count as int);
                            assert(next.take(count + 1) =~= next);
                            assert(next.take(count as int) =~= prev);
                        } else {
                            assert(prev.len() == 0);
                            assert(buf@ =~= render(*v));
                        }
                    }
                    count = count + 1;
                },
                None => {},
            }
            i = i + 1;
        }
        assert(fields.take(n as int) =~= fields);
        let digest = sha1_digest(&buf);
        reduce_mod_100(&digest)
    }

    /// The bucket id, in `0..100`, computed once and then kept until the
    /// context changes.
    pub fn id(&mut self) -> (r: u64)
        requires
            old(self).wf(),
        ensures
            final(self).wf(),
            r as nat == old(self).bucket(),
            final(self).entries_view() == old(self).entries_view(),
            final(self).identity_view() == old(self).identity_view(),
    {
        match self.cached_id {
            Some(c) => c as u64,
            None => {
                let c = self.compute_id();
                self.cached_id = Some(c);
                c as u64
            },
        }
    }
}

impl Default for FeatureContext {
    fn default() -> (r: Self)
        ensures
            r.wf(),
            forall|k: Seq<char>| r.value_of(k) is None,
            r.identity_view().len() == 0,
    {
        FeatureContext::new()
    }
}

/// The bucket id depends only on the stored values and the identity fields,
/// not on the order in which the fields were inserted.
pub proof fn lemma_id_ignores_insertion_order(c1: FeatureContext, c2: FeatureContext)
    requires
        c1.wf(),
        c2.wf(),
        forall|k: Seq<char>| c1.value_of(k) == c2.value_of(k),
        c1.identity_view() == c2.identity_view(),
    ensures
        c1.bucket() == c2.bucket(),
{
    let s1 = c1.entries_view();
    let s2 = c2.entries_view();
    assert forall|k: Seq<char>| lookup(s1, k) == lookup(s2, k) by {
        assert(c1.value_of(k) == c2.value_of(k));
    }
    assert forall|k: Seq<char>| keys(s1).contains(k) <==> keys(s2).contains(k) by {
        lemma_keys_contain(s1, k);
        lemma_keys_contain(s2, k);
    }
    lemma_strictly_sorted_unique(keys(s1), keys(s2));
    lemma_parts_agree(chosen_fields(s1, c1.identity_view()), s1, s2);
}

} // verus!

use vstd::prelude::*;

use std::collections::BTreeMap;
use std::collections::HashMap;
use vstd::string::StringExecFns;
use vstd::utf8::encode_utf8;

use crate::json::Json;
use crate::schema::{entries_accepted, SchemaRegistry};
use crate::text::{lemma_text_lt_irreflexive, lemma_text_lt_transitive, same_text, text_less, text_lt, texts_sorted};

verus! {

/// The longest name a ConfigMap may have.
pub const MAX_CONFIGMAP_NAME_LEN: usize = 253;

/// Errors of the option-file tooling.
#[derive(Debug)]
pub enum AppError {
    Validation(String),
    DuplicateKey { key: String, first_file: String, second_file: String },
}

impl AppError {
    /// The error as a reader sees it.
    pub fn message(&self) -> (r: String)
        ensures
            match self {
                AppError::Validation(m) => r@ == m@,
                AppError::DuplicateKey { key, first_file, second_file } => r@ == "Duplicate key '"@
                    + key@ + "' found in "@ + first_file@ + " and "@ + second_file@,
            },
    {
        match self {
            AppError::Validation(m) => m.clone(),
            AppError::DuplicateKey { key, first_file, second_file } => {
                let mut s = "Duplicate key '".to_owned();
                s.append(key.as_str());
                s.append("' found in ");
                s.append(first_file.as_str());
                s.append(" and ");
                s.append(second_file.as_str());
                s
            },
        }
    }
}

/// How the write command emits its result.
#[derive(Clone, Copy, PartialEq, Eq, Structural)]
pub enum OutputFormat {
    Json,
    Configmap,
}

impl OutputFormat {
    pub fn default() -> (r: Self)
        ensures
            r == OutputFormat::Json,
    {
        OutputFormat::Json
    }
}

/// The metadata of a generated ConfigMap.
pub struct ConfigMapMetadata {
    pub name: String,
    pub labels: BTreeMap<String, String>,
    pub annotations: BTreeMap<String, String>,
}

/// A Kubernetes ConfigMap holding one namespace's merged values.
pub struct ConfigMap {
    pub api_version: String,
    pub kind: String,
    pub metadata: ConfigMapMetadata,
    pub data: BTreeMap<String, String>,
}

/// Where to fetch one repository's schemas.
pub struct RepoSchemaConfig {
    pub url: String,
    pub sha: String,
    pub path: String,
}

/// Schema sources, by repository name.
pub struct RepoSchemaConfigs {
    pub repos: HashMap<String, RepoSchemaConfig>,
}

/// One repository that holds option schemas.
pub struct RepoConfig {
    pub url: String,
    pub sha: String,
    pub schemas_path: String,
}

/// Repositories, by name.
pub struct ReposConfig {
    pub repos: HashMap<String, RepoConfig>,
}

/// A lower-case ASCII letter, a digit, `-` or `.`.
pub open spec fn configmap_char(c: char) -> bool {
    ('a' <= c && c <= 'z') || ('0' <= c && c <= '9') || c == '-' || c == '.'
}

/// An ASCII letter or digit.
pub open spec fn ascii_alnum(c: char) -> bool {
    ('a' <= c && c <= 'z') || ('A' <= c && c <= 'Z') || ('0' <= c && c <= '9')
}

/// A valid ConfigMap name (a DNS subdomain): at most 253 bytes, only
/// lower-case letters, digits, `-` and `.`, and starting and ending with a
/// letter or digit.
pub open spec fn configmap_name_ok(name: Seq<char>) -> bool {
    &&& encode_utf8(name).len() <= 253
    &&& forall|i: int| 0 <= i < name.len() ==> configmap_char(#[trigger] name[i])
    &&& name.len() > 0
    &&& ascii_alnum(name[0])
    &&& ascii_alnum(name[name.len() - 1])
}

fn is_ascii_alnum(c: char) -> (r: bool)
    ensures
        r == ascii_alnum(c),
{
    ('a' <= c && c <= 'z') || ('A' <= c && c <= 'Z') || ('0' <= c && c <= '9')
}

/// Checks a ConfigMap name: its length first, then its characters, then its
/// first and last character.
pub fn validate_configmap_name(name: &str) -> (r: Result<(), AppError>)
    ensures
        r is Ok <==> configmap_name_ok(name@),
        encode_utf8(name@).len() > 253 ==> (r matches Err(AppError::Validation(m)) && m@
            == "ConfigMap name '"@ + name@ + "' exceeds 253 character limit"@),
        encode_utf8(name@).len() <= 253 && (exists|i: int|
            0 <= i < name@.len() && !configmap_char(#[trigger] name@[i])) ==> (r matches Err(
            AppError::Validation(m),
        ) && m@.take(("Invalid ConfigMap name '"@ + name@ + "': invalid character '"@).len() as int)
            == "Invalid ConfigMap name '"@ + name@ + "': invalid character '"@),
        encode_utf8(name@).len() <= 253 && (forall|i: int|
            0 <= i < name@.len() ==> configmap_char(#[trigger] name@[i])) && !configmap_name_ok(
            name@,
        ) ==> (r matches Err(AppError::Validation(m)) && m@ == "Invalid ConfigMap name '"@ + name@
            + "': must start and end with alphanumeric character"@),
{
    if name.as_bytes().len() > MAX_CONFIGMAP_NAME_LEN {
        let mut m = "ConfigMap name '".to_owned();
        m.append(name);
        m.append("' exceeds 253 character limit");
        return Err(AppError::Validation(m));
    }
    let n = name.unicode_len();
    let mut i: usize = 0;
    while i < n
        invariant
            n == name@.len(),
            encode_utf8(name@).len() <= 253,
            i <= n,
            forall|t: int| 0 <= t < i ==> configmap_char(#[trigger] name@[t]),
        decreases n - i,
    {
        let c = name.get_char(i);
        if !(('a' <= c && c <= 'z') || ('0' <= c && c <= '9') || c == '-' || c == '.') {
            let mut m = "Invalid ConfigMap name '".to_owned();
            m.append(name);
            m.append("': invalid character '");
            let ghost head = m@;
            let cs = c.to_string();
            m.append(cs.as_str());
            m.append("'. Use lowercase alphanumeric, '-', or '.'");
            assert(m@.take(head.len() as int) =~= head);
            return Err(AppError::Validation(m));
        }
        i = i + 1;
    }
    if n == 0 || !is_ascii_alnum(name.get_char(0)) || !is_ascii_alnum(name.get_char(n - 1)) {
        let mut m = "Invalid ConfigMap name '".to_owned();
        m.append(name);
        m.append("': must start and end with alphanumeric character");
        return Err(AppError::Validation(m));
    }
    Ok(())
}


/// Unicode's White_Space property, which `char::is_whitespace` tests.
pub open spec fn white_space(c: char) -> bool {
    ('\u{9}' <= c && c <= '\u{d}') || c == ' ' || c == '\u{85}' || c == '\u{a0}' || c == '\u{1680}'
        || ('\u{2000}' <= c && c <= '\u{200a}') || c == '\u{2028}' || c == '\u{2029}' || c
        == '\u{202f}' || c == '\u{205f}' || c == '\u{3000}'
}

fn is_white_space(c: char) -> (r: bool)
    ensures
        r == white_space(c),
{
    ('\u{9}' <= c && c <= '\u{d}') || c == ' ' || c == '\u{85}' || c == '\u{a0}' || c == '\u{1680}'
        || ('\u{2000}' <= c && c <= '\u{200a}') || c == '\u{2028}' || c == '\u{2029}' || c
        == '\u{202f}' || c == '\u{205f}' || c == '\u{3000}'
}

/// Start and end of each maximal run of non-white-space characters.
pub open spec fn word_ranges(s: Seq<char>) -> Seq<(int, int)>
    decreases s.len(),
{
    if s.len() == 0 {
        Seq::empty()
    } else {
        let prev = word_ranges(s.drop_last());
        let n = s.len() as int;
        if white_space(s.last()) {
            prev
        } else if n >= 2 && !white_space(s[n - 2]) {
            prev.update(prev.len() - 1, (prev.last().0, n))
        } else {
            prev.push((n - 1, n))
        }
    }
}

/// The white-space separated words of `s`, as `str::split_whitespace`
/// gives them.
pub open spec fn words(s: Seq<char>) -> Seq<Seq<char>> {
    word_ranges(s).map_values(|r: (int, int)| s.subrange(r.0, r.1))
}

/// The words that `used` holds, in order.
pub open spec fn kept(ws: Seq<Seq<char>>, used: Seq<Seq<char>>) -> Seq<Seq<char>>
    decreases ws.len(),
{
    if ws.len() == 0 {
        Seq::empty()
    } else {
        let k = kept(ws.drop_last(), used);
        if used.contains(ws.last()) {
            k.push(ws.last())
        } else {
            k
        }
    }
}

/// The words joined with single spaces.
pub open spec fn spaced(ws: Seq<Seq<char>>) -> Seq<char>
    decreases ws.len(),
{
    if ws.len() == 0 {
        Seq::empty()
    } else if ws.len() == 1 {
        ws[0]
    } else {
        spaced(ws.drop_last()) + seq![' '] + ws.last()
    }
}

fn split_words(s: &str) -> (r: Vec<(usize, usize)>)
    ensures
        r@.map_values(|p: (usize, usize)| (p.0 as int, p.1 as int)) == word_ranges(s@),
        forall|k: int| 0 <= k < r@.len() ==> (#[trigger] r@[k]).0 < r@[k].1 <= s@.len(),
{
    let n = s.unicode_len();
    let mut rs: Vec<(usize, usize)> = Vec::new();
    let mut i: usize = 0;
    assert(s@.take(0) =~= Seq::<char>::empty());
    while i < n
        invariant
            n == s@.len(),
            i <= n,
            rs@.map_values(|p: (usize, usize)| (p.0 as int, p.1 as int)) == word_ranges(s@.take(i as int)),
            forall|k: int| 0 <= k < rs@.len() ==> (#[trigger] rs@[k]).0 < rs@[k].1 <= i,
            i > 0 && !white_space(s@[i - 1]) ==> rs@.len() > 0 && rs@.last().1 == i,
        decreases n - i,
    {
        let c = s.get_char(i);
        let ghost t = s@.take(i + 1);
        let ghost prev = rs@.map_values(|p: (usize, usize)| (p.0 as int, p.1 as int));
        assert(t.drop_last() =~= s@.take(i as int));
        assert(t.last() == c);
        if is_white_space(c) {
        } else if i > 0 && !is_white_space(s.get_char(i - 1)) {
            assert(t[i - 1] == s@[i - 1]);
            let last = rs.len() - 1;
            let start = rs[last].0;
            rs.set(last, (start, i + 1));
            assert(rs@.map_values(|p: (usize, usize)| (p.0 as int, p.1 as int)) =~= prev.update(
                prev.len() - 1,
                (prev.last().0, (i + 1) as int),
            ));
        } else {
            proof {
                if i > 0 {
                    assert(t[i - 1] == s@[i - 1]);
                }
            }
            rs.push((i, i + 1));
            assert(rs@.map_values(|p: (usize, usize)| (p.0 as int, p.1 as int)) =~= prev.push(
                (i as int, (i + 1) as int),
            ));
        }
        i = i + 1;
    }
    assert(s@.take(n as int) =~= s@);
    rs
}

fn has_colon(s: &str, from: usize, to: usize) -> (r: bool)
    requires
        from <= to <= s@.len(),
    ensures
        r == s@.subrange(from as int, to as int).contains(':'),
{
    let mut j: usize = from;
    while j < to
        invariant
            from <= j <= to,
            to <= s@.len(),
            forall|t: int| from <= t < j ==> s@[t] != ':',
        decreases to - j,
    {
        if s.get_char(j) == ':' {
            assert(s@.subrange(from as int, to as int)[j - from] == ':');
            return true;
        }
        j = j + 1;
    }
    assert forall|t: int| 0 <= t < to - from implies s@.subrange(from as int, to as int)[t] != ':' by {
        assert(s@.subrange(from as int, to as int)[t] == s@[from + t]);
    }
    false
}

fn contains_text(used: &Vec<String>, w: &str) -> (r: bool)
    ensures
        r == used@.map_values(|u: String| u@).contains(w@),
{
    let ghost uv = used@.map_values(|u: String| u@);
    let mut k: usize = 0;
    while k < used.len()
        invariant
            uv == used@.map_values(|u: String| u@),
            k <= used@.len(),
            forall|t: int| 0 <= t < k ==> uv[t] != w@,
        decreases used@.len() - k,
    {
        if same_text(used[k].as_str(), w) {
            assert(uv[k as int] == w@);
            return true;
        }
        k = k + 1;
    }
    false
}

fn first_unqualified(deletions: &str, rs: &Vec<(usize, usize)>) -> (r: Option<usize>)
    requires
        rs@.map_values(|p: (usize, usize)| (p.0 as int, p.1 as int)) == word_ranges(deletions@),
        forall|t: int| 0 <= t < rs@.len() ==> (#[trigger] rs@[t]).0 < rs@[t].1 <= deletions@.len(),
    ensures
        match r {
            Some(k) => k < rs@.len() && !words(deletions@)[k as int].contains(':') && forall|t: int|
                0 <= t < k ==> (#[trigger] words(deletions@)[t]).contains(':'),
            None => forall|t: int|
                0 <= t < words(deletions@).len() ==> (#[trigger] words(deletions@)[t]).contains(':'),
        },
{
    let ghost ws = words(deletions@);
    let mut k: usize = 0;
    while k < rs.len()
        invariant
            ws == words(deletions@),
            rs@.map_values(|p: (usize, usize)| (p.0 as int, p.1 as int)) == word_ranges(deletions@),
            forall|t: int| 0 <= t < rs@.len() ==> (#[trigger] rs@[t]).0 < rs@[t].1 <= deletions@.len(),
            ws.len() == rs@.len(),
            k <= rs@.len(),
            forall|t: int| 0 <= t < k ==> (#[trigger] ws[t]).contains(':'),
        decreases rs@.len() - k,
    {
        let (a, b) = rs[k];
        assert(ws[k as int] == deletions@.subrange(a as int, b as int));
        if !has_colon(deletions, a, b) {
            return Some(k);
        }
        k = k + 1;
    }
    None
}

fn join_kept(deletions: &str, rs: &Vec<(usize, usize)>, options_in_use: &Vec<String>) -> (r: String)
    requires
        rs@.map_values(|p: (usize, usize)| (p.0 as int, p.1 as int)) == word_ranges(deletions@),
        forall|t: int| 0 <= t < rs@.len() ==> (#[trigger] rs@[t]).0 < rs@[t].1 <= deletions@.len(),
    ensures
        r@ == spaced(kept(words(deletions@), options_in_use@.map_values(|u: String| u@))),
{
    let ghost ws = words(deletions@);
    let ghost used = options_in_use@.map_values(|u: String| u@);
    let mut out = String::new();
    let mut count: usize = 0;
    let mut k: usize = 0;
    assert(ws.take(0) =~= Seq::<Seq<char>>::empty());
    while k < rs.len()
        invariant
            ws == words(deletions@),
            used == options_in_use@.map_values(|u: String| u@),
            rs@.map_values(|p: (usize, usize)| (p.0 as int, p.1 as int)) == word_ranges(deletions@),
            forall|t: int| 0 <= t < rs@.len() ==> (#[trigger] rs@[t]).0 < rs@[t].1 <= deletions@.len(),
            ws.len() == rs@.len(),
            k <= rs@.len(),
            count <= k,
            count == kept(ws.take(k as int), used).len(),
            out@ == spaced(kept(ws.take(k as int), used)),
        decreases rs@.len() - k,
    {
        let (a, b) = rs[k];
        let w = deletions.substring_char(a, b);
        assert(w@ == ws[k as int]);
        let ghost before = kept(ws.take(k as int), used);
        let ghost out0 = out@;
        assert(ws.take(k + 1).drop_last() =~= ws.take(k as int));
        assert(ws.take(k + 1).last() == ws[k as int]);
        if contains_text(options_in_use, w) {
            if count > 0 {
                out.append(" ");
            }
            out.append(w);
            proof {
                reveal_strlit(" ");
                let after = kept(ws.take(k + 1), used);
                assert(after == before.push(w@));
                assert(after.drop_last() =~= before);
                if count > 0 {
                    assert(out@ =~= out0 + seq![' '] + w@);
                } else {
                    assert(before.len() == 0);
                    assert(out@ =~= w@);
                }
            }
            count = count + 1;
        }
        k = k + 1;
    }
    assert(ws.take(rs@.len() as int) =~= ws);
    out
}

/// Of the `namespace:option` keys listed, white-space separated, in
/// `deletions`, those that `options_in_use` holds, in order and joined by
/// single spaces. A key without a `:` is refused.
pub fn check_option_usage(deletions: &str, options_in_use: &Vec<String>) -> (r: Result<String, AppError>)
    ensures
        r is Err <==> exists|i: int|
            0 <= i < words(deletions@).len() && !(#[trigger] words(deletions@)[i]).contains(':'),
        r matches Ok(out) ==> out@ == spaced(
            kept(words(deletions@), options_in_use@.map_values(|u: String| u@)),
        ),
        r matches Err(e) ==> exists|i: int|
            0 <= i < words(deletions@).len() && !(#[trigger] words(deletions@)[i]).contains(':')
                && (forall|t: int| 0 <= t < i ==> words(deletions@)[t].contains(':'))
                && e is Validation && e->Validation_0@ == "Invalid key format '"@
                + words(deletions@)[i] + "', expected 'namespace:option'"@,
{
    let rs = split_words(deletions);
    match first_unqualified(deletions, &rs) {
        Some(k) => {
            let (a, b) = rs[k];
            assert(words(deletions@)[k as int] == deletions@.subrange(a as int, b as int));
            let mut m = "Invalid key format '".to_owned();
            m.append(deletions.substring_char(a, b));
            m.append("', expected 'namespace:option'");
            Err(AppError::Validation(m))
        },
        None => Ok(join_kept(deletions, &rs, options_in_use)),
    }
}


/// One parsed values file: its path and its options, in file order.
pub struct FileData {
    pub path: String,
    pub data: Vec<(String, Json)>,
}

/// Values files grouped by namespace, then by target.
pub type NamespaceMap = Vec<(String, Vec<(String, Vec<FileData>)>)>;

pub open spec fn keys_of(d: Seq<(String, Json)>) -> Seq<Seq<char>> {
    d.map_values(|e: (String, Json)| e.0@)
}

/// The option keys of the files, file after file.
pub open spec fn flat_keys(files: Seq<FileData>) -> Seq<Seq<char>>
    decreases files.len(),
{
    if files.len() == 0 {
        Seq::empty()
    } else {
        flat_keys(files.drop_last()) + keys_of(files.last().data@)
    }
}

/// No key occurs twice.
pub open spec fn no_repeats(ks: Seq<Seq<char>>) -> bool {
    forall|i: int, j: int| 0 <= i < j < ks.len() ==> #[trigger] ks[i] != #[trigger] ks[j]
}

fn position_of(seen: &Vec<(String, String)>, key: &String) -> (r: Option<usize>)
    ensures
        match r {
            Some(k) => k < seen@.len() && seen@[k as int].0@ == key@,
            None => forall|t: int| 0 <= t < seen@.len() ==> seen@[t].0@ != key@,
        },
{
    let mut k: usize = 0;
    while k < seen.len()
        invariant
            k <= seen@.len(),
            forall|t: int| 0 <= t < k ==> seen@[t].0@ != key@,
        decreases seen@.len() - k,
    {
        if same_text(seen[k].0.as_str(), key.as_str()) {
            return Some(k);
        }
        k = k + 1;
    }
    None
}

proof fn lemma_found_repeat(files: Seq<FileData>, f: int, a: int, k: int)
    requires
        0 <= f < files.len(),
        0 <= a < files[f].data@.len(),
        0 <= k < flat_keys(files.take(f)).len() + a,
        (flat_keys(files.take(f)) + keys_of(files[f].data@).take(a))[k] == files[f].data@[a].0@,
    ensures
        !no_repeats(flat_keys(files)),
{
    let base = flat_keys(files.take(f));
    let ks = keys_of(files[f].data@);
    let whole = flat_keys(files.take(f + 1));
    assert(files.take(f + 1).drop_last() =~= files.take(f));
    assert(whole == base + ks);
    if k < base.len() {
        assert(whole[k] == base[k]);
    } else {
        assert(whole[k] == ks[k - base.len()]);
    }
    assert(whole[base.len() + a] == ks[a]);
    assert(!no_repeats(whole));
    lemma_prefix_repeat(files, f + 1);
}

fn check_target(files: &Vec<FileData>) -> (r: Result<(), AppError>)
    ensures
        r is Ok <==> no_repeats(flat_keys(files@)),
{
    let mut seen: Vec<(String, String)> = Vec::new();
    let mut f: usize = 0;
    assert(files@.take(0) =~= Seq::<FileData>::empty());
    while f < files.len()
        invariant
            f <= files@.len(),
            seen@.map_values(|e: (String, String)| e.0@) == flat_keys(files@.take(f as int)),
            no_repeats(flat_keys(files@.take(f as int))),
        decreases files@.len() - f,
    {
        let file = &files[f];
        let ghost base = flat_keys(files@.take(f as int));
        let mut a: usize = 0;
        assert(keys_of(file.data@).take(0) =~= Seq::<Seq<char>>::empty());
        assert(base + keys_of(file.data@).take(0) =~= base);
        while a < file.data.len()
            invariant
                f < files@.len(),
                *file == files@[f as int],
                a <= file.data@.len(),
                base == flat_keys(files@.take(f as int)),
                seen@.map_values(|e: (String, String)| e.0@) == base + keys_of(file.data@).take(a as int),
                no_repeats(base + keys_of(file.data@).take(a as int)),
            decreases file.data@.len() - a,
        {
            let key = &file.data[a].0;
            let ghost sv = seen@.map_values(|e: (String, String)| e.0@);
            match position_of(&seen, key) {
                Some(k) => {
                    proof {
                        assert(sv[k as int] == seen@[k as int].0@);
                        assert(sv.len() == seen@.len());
                        assert((base + keys_of(file.data@).take(a as int)).len() == base.len() + a);
                        lemma_found_repeat(files@, f as int, a as int, k as int);
                    }
                    return Err(
                        AppError::DuplicateKey {
                            key: key.clone(),
                            first_file: seen[k].1.clone(),
                            second_file: file.path.clone(),
                        },
                    );
                },
                None => {},
            }
            seen.push((key.clone(), file.path.clone()));
            proof {
                let next = base + keys_of(file.data@).take(a + 1);
                assert(next =~= sv.push(key@));
                assert forall|i: int, j: int| 0 <= i < j < next.len() implies #[trigger] next[i] != #[trigger] next[j] by {
                    if j == next.len() - 1 {
                        assert(next[i] == sv[i]);
                        assert(sv[i] == seen@[i].0@);
                    } else {
                        assert(next[i] == sv[i] && next[j] == sv[j]);
                    }
                }
            }
            a = a + 1;
        }
        assert(files@.take(f + 1).drop_last() =~= files@.take(f as int));
        assert(keys_of(file.data@).take(file.data@.len() as int) =~= keys_of(file.data@));
        f = f + 1;
    }
    assert(files@.take(files@.len() as int) =~= files@);
    Ok(())
}

proof fn lemma_prefix_repeat(files: Seq<FileData>, n: int)
    requires
        0 <= n <= files.len(),
        !no_repeats(flat_keys(files.take(n))),
    ensures
        !no_repeats(flat_keys(files)),
    decreases files.len() - n,
{
    if n < files.len() {
        let p = flat_keys(files.take(n));
        let q = flat_keys(files.take(n + 1));
        assert(files.take(n + 1).drop_last() =~= files.take(n));
        assert(q == p + keys_of(files[n].data@));
        let (i, j) = choose|i: int, j: int| 0 <= i < j < p.len() && p[i] == p[j];
        assert(q[i] == p[i] && q[j] == p[j]);
        lemma_prefix_repeat(files, n + 1);
    } else {
        assert(files.take(n) =~= files);
    }
}

/// Checks that within each target of each namespace no option is set by
/// two files (or twice by one).
pub fn ensure_no_duplicate_keys(grouped: &NamespaceMap) -> (r: Result<(), AppError>)
    ensures
        r is Ok <==> forall|n: int, t: int|
            0 <= n < grouped@.len() && 0 <= t < grouped@[n].1@.len() ==> no_repeats(
                flat_keys(#[trigger] grouped@[n].1@[t].1@),
            ),
{
    let mut n: usize = 0;
    while n < grouped.len()
        invariant
            n <= grouped@.len(),
            forall|x: int, t: int|
                0 <= x < n && 0 <= t < grouped@[x].1@.len() ==> no_repeats(
                    flat_keys(#[trigger] grouped@[x].1@[t].1@),
                ),
        decreases grouped@.len() - n,
    {
        let targets = &grouped[n].1;
        let mut t: usize = 0;
        while t < targets.len()
            invariant
                n < grouped@.len(),
                *targets == grouped@[n as int].1,
                t <= targets@.len(),
                forall|x: int, y: int|
                    0 <= x < n && 0 <= y < grouped@[x].1@.len() ==> no_repeats(
                        flat_keys(#[trigger] grouped@[x].1@[y].1@),
                    ),
                forall|y: int| 0 <= y < t ==> no_repeats(flat_keys(#[trigger] targets@[y].1@)),
            decreases targets@.len() - t,
        {
            match check_target(&targets[t].1) {
                Ok(()) => {},
                Err(e) => {
                    assert(targets@[t as int] == grouped@[n as int].1@[t as int]);
                    assert(!no_repeats(flat_keys(grouped@[n as int].1@[t as int].1@)));
                    return Err(e);
                },
            }
            t = t + 1;
        }
        assert forall|x: int, y: int| 0 <= x < n + 1 && 0 <= y < grouped@[x].1@.len() implies no_repeats(
            flat_keys(#[trigger] grouped@[x].1@[y].1@),
        ) by {
            if x == n {
                assert(targets@[y] == grouped@[n as int].1@[y]);
                assert(no_repeats(flat_keys(targets@[y].1@)));
            }
        }
        n = n + 1;
    }
    Ok(())
}


/// The value of the first element named `k`.
pub open spec fn lookup_named<T>(s: Seq<(String, T)>, k: Seq<char>) -> Option<T>
    decreases s.len(),
{
    if s.len() == 0 {
        None
    } else if s[0].0@ == k {
        Some(s[0].1)
    } else {
        lookup_named(s.drop_first(), k)
    }
}

fn find_named<'a, T>(s: &'a Vec<(String, T)>, k: &str) -> (r: Option<&'a T>)
    ensures
        match r {
            Some(v) => lookup_named(s@, k@) == Some(*v),
            None => lookup_named(s@, k@) is None,
        },
{
    let ghost all = s@;
    let mut i: usize = 0;
    assert(all.skip(0) =~= all);
    while i < s.len()
        invariant
            all == s@,
            i <= all.len(),
            lookup_named(all, k@) == lookup_named(all.skip(i as int), k@),
        decreases all.len() - i,
    {
        assert(all.skip(i as int).drop_first() =~= all.skip(i + 1));
        assert(all.skip(i as int)[0] == all[i as int]);
        if same_text(s[i].0.as_str(), k) {
            return Some(&s[i].1);
        }
        i = i + 1;
    }
    None
}

/// Options set by entries in order, each entry overriding earlier ones.
pub open spec fn merge_entries(m: Map<Seq<char>, Json>, d: Seq<(String, Json)>) -> Map<Seq<char>, Json>
    decreases d.len(),
{
    if d.len() == 0 {
        m
    } else {
        merge_entries(m, d.drop_last()).insert(d.last().0@, d.last().1)
    }
}

/// Options set by files in order, later files overriding earlier ones.
pub open spec fn merge_files(m: Map<Seq<char>, Json>, files: Seq<FileData>) -> Map<Seq<char>, Json>
    decreases files.len(),
{
    if files.len() == 0 {
        m
    } else {
        merge_entries(merge_files(m, files.drop_last()), files.last().data@)
    }
}

pub open spec fn named_at(s: Seq<(String, &Json)>, i: int, k: Seq<char>) -> bool {
    0 <= i < s.len() && s[i].0@ == k
}

/// The map that a list of distinct keys and their values describes.
pub open spec fn keyed_map(s: Seq<(String, &Json)>) -> Map<Seq<char>, Json> {
    Map::new(
        |k: Seq<char>| exists|i: int| named_at(s, i, k),
        |k: Seq<char>| *s[choose|i: int| named_at(s, i, k)].1,
    )
}

pub open spec fn distinct_names(s: Seq<(String, &Json)>) -> bool {
    forall|i: int, j: int| 0 <= i < j < s.len() ==> #[trigger] s[i].0@ != #[trigger] s[j].0@
}

proof fn lemma_keyed_at(s: Seq<(String, &Json)>, i: int)
    requires
        distinct_names(s),
        0 <= i < s.len(),
    ensures
        keyed_map(s).dom().contains(s[i].0@),
        keyed_map(s)[s[i].0@] == *s[i].1,
{
    let k = s[i].0@;
    assert(named_at(s, i, k));
    let j = choose|j: int| named_at(s, j, k);
    if j < i {
        assert(s[j].0@ != s[i].0@);
    } else if i < j {
        assert(s[i].0@ != s[j].0@);
    }
}

fn put<'a>(acc: &mut Vec<(String, &'a Json)>, key: &String, value: &'a Json)
    requires
        distinct_names(old(acc)@),
    ensures
        distinct_names(final(acc)@),
        keyed_map(final(acc)@) == keyed_map(old(acc)@).insert(key@, *value),
{
    let ghost s0 = acc@;
    let mut i: usize = 0;
    while i < acc.len() && !same_text(acc[i].0.as_str(), key.as_str())
        invariant
            acc@ == s0,
            i <= s0.len(),
            forall|t: int| 0 <= t < i ==> s0[t].0@ != key@,
        decreases s0.len() - i,
    {
        i = i + 1;
    }
    let m2 = Ghost(keyed_map(s0).insert(key@, *value));
    if i < acc.len() {
        acc.set(i, (key.clone(), value));
        let ghost s1 = acc@;
        proof {
            assert forall|a: int, b: int| 0 <= a < b < s1.len() implies #[trigger] s1[a].0@ != #[trigger] s1[b].0@ by {
                assert(s0[a].0@ != s0[b].0@);
            }
            let m1 = keyed_map(s1);
            assert forall|k: Seq<char>| #[trigger] m1.dom().contains(k) == m2@.dom().contains(k) && (
            m1.dom().contains(k) ==> m1[k] == m2@[k]) by {
                if k == key@ {
                    lemma_keyed_at(s1, i as int);
                } else {
                    if exists|j: int| named_at(s0, j, k) {
                        let j = choose|j: int| named_at(s0, j, k);
                        assert(named_at(s1, j, k));
                        lemma_keyed_at(s0, j);
                        lemma_keyed_at(s1, j);
                    }
                    if exists|j: int| named_at(s1, j, k) {
                        let j = choose|j: int| named_at(s1, j, k);
                        assert(named_at(s0, j, k));
                    }
                }
            }
            assert(m1 =~= m2@);
        }
    } else {
        acc.push((key.clone(), value));
        let ghost s1 = acc@;
        proof {
            assert forall|a: int, b: int| 0 <= a < b < s1.len() implies #[trigger] s1[a].0@ != #[trigger] s1[b].0@ by {
                if b < s0.len() {
                    assert(s0[a].0@ != s0[b].0@);
                }
            }
            let m1 = keyed_map(s1);
            assert forall|k: Seq<char>| #[trigger] m1.dom().contains(k) == m2@.dom().contains(k) && (
            m1.dom().contains(k) ==> m1[k] == m2@[k]) by {
                if k == key@ {
                    lemma_keyed_at(s1, s0.len() as int);
                } else {
                    if exists|j: int| named_at(s0, j, k) {
                        let j = choose|j: int| named_at(s0, j, k);
                        assert(named_at(s1, j, k));
                        lemma_keyed_at(s0, j);
                        lemma_keyed_at(s1, j);
                    }
                    if exists|j: int| named_at(s1, j, k) {
                        let j = choose|j: int| named_at(s1, j, k);
                        assert(named_at(s0, j, k));
                    }
                }
            }
            assert(m1 =~= m2@);
        }
    }
}

fn merge_into<'a>(acc: &mut Vec<(String, &'a Json)>, files: &'a Vec<FileData>)
    requires
        distinct_names(old(acc)@),
    ensures
        distinct_names(final(acc)@),
        keyed_map(final(acc)@) == merge_files(keyed_map(old(acc)@), files@),
{
    let ghost m0 = keyed_map(acc@);
    let mut f: usize = 0;
    assert(files@.take(0) =~= Seq::<FileData>::empty());
    while f < files.len()
        invariant
            f <= files@.len(),
            distinct_names(acc@),
            keyed_map(acc@) == merge_files(m0, files@.take(f as int)),
        decreases files@.len() - f,
    {
        let d = &files[f].data;
        let ghost base = keyed_map(acc@);
        let mut a: usize = 0;
        assert(d@.take(0) =~= Seq::<(String, Json)>::empty());
        while a < d.len()
            invariant
                a <= d@.len(),
                distinct_names(acc@),
                keyed_map(acc@) == merge_entries(base, d@.take(a as int)),
            decreases d@.len() - a,
        {
            put(acc, &d[a].0, &d[a].1);
            assert(d@.take(a + 1).drop_last() =~= d@.take(a as int));
            a = a + 1;
        }
        assert(d@.take(d@.len() as int) =~= d@);
        assert(files@.take(f + 1).drop_last() =~= files@.take(f as int));
        f = f + 1;
    }
    assert(files@.take(files@.len() as int) =~= files@);
}

/// The options of `target` in `namespace`: those of the `default` target's
/// files, overridden by those of the target's own files, each file in order.
pub fn merge_options_for_target<'a>(maps: &'a NamespaceMap, namespace: &str, target: &str) -> (r: Result<
    Vec<(String, &'a Json)>,
    AppError,
>)
    ensures
        match lookup_named(maps@, namespace@) {
            None => r is Err,
            Some(targets) => match lookup_named(targets@, "default"@) {
                None => r is Err,
                Some(dfiles) => if target@ == "default"@ {
                    r matches Ok(v) && distinct_names(v@) && keyed_map(v@) == merge_files(
                        Map::empty(),
                        dfiles@,
                    )
                } else {
                    match lookup_named(targets@, target@) {
                        None => r is Err,
                        Some(tfiles) => r matches Ok(v) && distinct_names(v@) && keyed_map(v@)
                            == merge_files(merge_files(Map::empty(), dfiles@), tfiles@),
                    }
                },
            },
        },
{
    let targets = match find_named(maps, namespace) {
        Some(t) => t,
        None => {
            let mut m = "Namespace '".to_owned();
            m.append(namespace);
            m.append("' not found in values");
            return Err(AppError::Validation(m));
        },
    };
    let default_files = match find_named(targets, "default") {
        Some(f) => f,
        None => {
            let mut m = "Namespace '".to_owned();
            m.append(namespace);
            m.append("' is missing required 'default' target");
            return Err(AppError::Validation(m));
        },
    };
    let mut merged: Vec<(String, &'a Json)> = Vec::new();
    assert(keyed_map(merged@) =~= Map::<Seq<char>, Json>::empty());
    merge_into(&mut merged, default_files);
    if !same_text(target, "default") {
        let target_files = match find_named(targets, target) {
            Some(f) => f,
            None => {
                let mut m = "Target '".to_owned();
                m.append(target);
                m.append("' not found in namespace '");
                m.append(namespace);
                m.append("'");
                return Err(AppError::Validation(m));
            },
        };
        merge_into(&mut merged, target_files);
    }
    Ok(merged)
}


/// What the values loader does with one file under the values root.
pub enum FileRole {
    /// Not a YAML file: ignored.
    Skip,
    /// A values file of `namespace`, for `target`.
    Values { namespace: String, target: String },
}

/// How the values loader treats a file, given its path relative to the
/// root as normal components and its extension: `.yml` is refused, other
/// non-`.yaml` files are skipped, and a values file must lie at
/// `namespace/target/file.yaml` for a namespace that has a schema.
pub fn classify_values_file(
    path: &str,
    parts: &Vec<String>,
    extension: Option<&str>,
    registry: &SchemaRegistry,
) -> (r: Result<FileRole, AppError>)
    ensures
        extension matches Some(e) && e@ == "yml"@ ==> r is Err,
        !(extension matches Some(e) && (e@ == "yml"@ || e@ == "yaml"@)) ==> r matches Ok(FileRole::Skip),
        extension matches Some(e) && e@ == "yaml"@ ==> (if parts@.len() != 3 {
            r is Err
        } else if registry.schema(parts@[0]@) is None {
            r is Err
        } else {
            r matches Ok(FileRole::Values { namespace, target }) && namespace@ == parts@[0]@
                && target@ == parts@[1]@
        }),
{
    proof {
        reveal_strlit("yml");
        reveal_strlit("yaml");
        assert("yml"@.len() != "yaml"@.len());
    }
    let ext = match extension {
        Some(e) => e,
        None => {
            return Ok(FileRole::Skip);
        },
    };
    if same_text(ext, "yml") {
        let mut m = "Invalid file ".to_owned();
        m.append(path);
        m.append(": expected .yaml, found .yml");
        return Err(AppError::Validation(m));
    }
    if !same_text(ext, "yaml") {
        return Ok(FileRole::Skip);
    }
    if parts.len() != 3 {
        let mut m = "Invalid directory structure in ".to_owned();
        let mut i: usize = 0;
        while i < parts.len()
            decreases parts@.len() - i,
        {
            if i > 0 {
                m.append("/");
            }
            m.append(parts[i].as_str());
            i = i + 1;
        }
        m.append(": expected namespace/target/file.yaml");
        return Err(AppError::Validation(m));
    }
    let namespace = parts[0].as_str();
    if registry.get(namespace).is_none() {
        let mut m = "Unknown namespace '".to_owned();
        m.append(namespace);
        m.append("' in file ");
        m.append(path);
        m.append(". No schema found for this namespace.");
        return Err(AppError::Validation(m));
    }
    Ok(FileRole::Values { namespace: parts[0].clone(), target: parts[1].clone() })
}

fn member_names(m: &Vec<(String, Json)>) -> String {
    let mut out = "[".to_owned();
    let mut i: usize = 0;
    while i < m.len()
        decreases m@.len() - i,
    {
        if i > 0 {
            out.append(", ");
        }
        let q = crate::context::debug_quoted(m[i].0.as_str());
        out.append(q.as_str());
        i = i + 1;
    }
    out.append("]");
    out
}

/// A values document as the values files hold it: exactly one top-level
/// key, `options`, whose value is a mapping that the namespace's schema
/// accepts.
pub open spec fn values_file_ok(doc: Json, reg: SchemaRegistry, namespace: Seq<char>) -> bool {
    match doc {
        Json::Object(m) => m@.len() == 1 && m@[0].0@ == "options"@ && match m@[0].1 {
            Json::Object(o) => match reg.schema(namespace) {
                Some(s) => entries_accepted(s, o@),
                None => false,
            },
            _ => false,
        },
        _ => false,
    }
}

/// Checks a parsed values file and hands back its options.
pub fn options_of_values_file(path: &str, namespace: &str, doc: Json, registry: &SchemaRegistry) -> (r:
    Result<Vec<(String, Json)>, AppError>)
    ensures
        r is Ok <==> values_file_ok(doc, *registry, namespace@),
        r matches Ok(o) ==> doc matches Json::Object(m) && m@[0].1 == Json::Object(o),
{
    let ghost g = doc;
    let mut m = match doc {
        Json::Object(m) => m,
        _ => {
            let mut e = "Invalid YAML structure in ".to_owned();
            e.append(path);
            e.append(": expected exactly one top level key 'options', found []");
            return Err(AppError::Validation(e));
        },
    };
    if m.len() != 1 {
        let mut e = "Invalid YAML structure in ".to_owned();
        e.append(path);
        e.append(": expected exactly one top level key 'options', found ");
        let names = member_names(&m);
        e.append(names.as_str());
        return Err(AppError::Validation(e));
    }
    if !same_text(m[0].0.as_str(), "options") {
        let mut e = "Invalid YAML structure in ".to_owned();
        e.append(path);
        e.append(": expected top level key 'options', found ");
        let names = member_names(&m);
        e.append(names.as_str());
        return Err(AppError::Validation(e));
    }
    let (_, value) = m.remove(0);
    let ghost gv = value;
    match registry.validate_values(namespace, &value) {
        Ok(()) => {},
        Err(err) => {
            let mut e = "In file ".to_owned();
            e.append(path);
            e.append(": ");
            match value {
                Json::Object(_) => {
                    let text = err.message();
                    e.append(text.as_str());
                },
                _ => {
                    e = "Invalid YAML structure in ".to_owned();
                    e.append(path);
                    e.append(": expected 'options' to be a mapping");
                },
            }
            return Err(AppError::Validation(e));
        },
    }
    match value {
        Json::Object(o) => Ok(o),
        _ => Err(AppError::Validation("options are not a mapping".to_owned())),
    }
}


proof fn lemma_lookup_first<T>(s: Seq<(String, T)>, i: int, k: Seq<char>)
    requires
        0 <= i < s.len(),
        s[i].0@ == k,
        forall|j: int| 0 <= j < i ==> s[j].0@ != k,
    ensures
        lookup_named(s, k) == Some(s[i].1),
    decreases i,
{
    if i > 0 {
        assert(s.drop_first()[i - 1] == s[i]);
        assert forall|j: int| 0 <= j < i - 1 implies (#[trigger] s.drop_first()[j]).0@ != k by {
            assert(s.drop_first()[j] == s[j + 1]);
        }
        lemma_lookup_first(s.drop_first(), i - 1, k);
    }
}

proof fn lemma_lookup_absent<T>(s: Seq<(String, T)>, k: Seq<char>)
    requires
        forall|j: int| 0 <= j < s.len() ==> s[j].0@ != k,
    ensures
        lookup_named(s, k) is None,
    decreases s.len(),
{
    if s.len() > 0 {
        assert forall|j: int| 0 <= j < s.len() - 1 implies (#[trigger] s.drop_first()[j]).0@ != k by {
            assert(s.drop_first()[j] == s[j + 1]);
        }
        lemma_lookup_absent(s.drop_first(), k);
    }
}

proof fn lemma_lookup_update<T>(s: Seq<(String, T)>, i: int, e: (String, T), k: Seq<char>)
    requires
        0 <= i < s.len(),
        e.0@ == s[i].0@,
        forall|j: int| 0 <= j < i ==> s[j].0@ != s[i].0@,
    ensures
        lookup_named(s.update(i, e), k) == if k == e.0@ {
            Some(e.1)
        } else {
            lookup_named(s, k)
        },
    decreases i,
{
    let t = s.update(i, e);
    if i == 0 {
        if k != e.0@ {
            assert(t.drop_first() =~= s.drop_first());
        }
    } else {
        assert(t.drop_first() =~= s.drop_first().update(i - 1, e));
        assert forall|j: int| 0 <= j < i - 1 implies (#[trigger] s.drop_first()[j]).0@ != s.drop_first()[i - 1].0@ by {
            assert(s.drop_first()[j] == s[j + 1]);
        }
        lemma_lookup_update(s.drop_first(), i - 1, e, k);
    }
}

proof fn lemma_lookup_push<T>(s: Seq<(String, T)>, e: (String, T), k: Seq<char>)
    requires
        forall|j: int| 0 <= j < s.len() ==> s[j].0@ != e.0@,
    ensures
        lookup_named(s.push(e), k) == if k == e.0@ {
            Some(e.1)
        } else {
            lookup_named(s, k)
        },
    decreases s.len(),
{
    if s.len() == 0 {
        assert(s.push(e)[0] == e);
        assert(s.push(e).drop_first() =~= Seq::<(String, T)>::empty());
        assert(lookup_named(s.push(e).drop_first(), k) is None);
    } else {
        assert(s.push(e)[0] == s[0]);
        assert(s[0].0@ != e.0@);
        assert(s.push(e).drop_first() =~= s.drop_first().push(e));
        assert forall|j: int| 0 <= j < s.len() - 1 implies (#[trigger] s.drop_first()[j]).0@ != e.0@ by {
            assert(s.drop_first()[j] == s[j + 1]);
        }
        lemma_lookup_push(s.drop_first(), e, k);
    }
}

fn position_named<T>(s: &Vec<(String, T)>, k: &str) -> (r: Option<usize>)
    ensures
        match r {
            Some(i) => i < s@.len() && s@[i as int].0@ == k@ && forall|j: int| 0 <= j < i ==> s@[j].0@ != k@,
            None => forall|j: int| 0 <= j < s@.len() ==> s@[j].0@ != k@,
        },
{
    let mut i: usize = 0;
    while i < s.len()
        invariant
            i <= s@.len(),
            forall|j: int| 0 <= j < i ==> s@[j].0@ != k@,
        decreases s@.len() - i,
    {
        if same_text(s[i].0.as_str(), k) {
            return Some(i);
        }
        i = i + 1;
    }
    None
}

/// The items of a group that may be missing.
pub open spec fn items_or_empty<T>(o: Option<Vec<T>>) -> Seq<T> {
    match o {
        Some(v) => v@,
        None => Seq::empty(),
    }
}

fn add_to_group<T>(groups: &mut Vec<(String, Vec<T>)>, name: &str, item: T)
    ensures
        lookup_named(final(groups)@, name@) is Some,
        items_or_empty(lookup_named(final(groups)@, name@)) == items_or_empty(
            lookup_named(old(groups)@, name@),
        ).push(item),
        forall|k: Seq<char>| k != name@ ==> lookup_named(final(groups)@, k) == lookup_named(old(groups)@, k),
{
    let ghost s0 = groups@;
    match position_named(groups, name) {
        Some(i) => {
            let (key, mut items) = groups.remove(i);
            let ghost w = items;
            items.push(item);
            let ghost e = (key, items);
            groups.insert(i, (key, items));
            proof {
                assert(groups@ =~= s0.update(i as int, e));
                lemma_lookup_first(s0, i as int, name@);
                lemma_lookup_update(s0, i as int, e, name@);
                assert forall|k: Seq<char>| k != name@ implies lookup_named(groups@, k) == lookup_named(s0, k) by {
                    lemma_lookup_update(s0, i as int, e, k);
                }
            }
        },
        None => {
            let e = (name.to_owned(), vec![item]);
            let ghost ge = e;
            groups.push(e);
            proof {
                lemma_lookup_absent(s0, name@);
                lemma_lookup_push(s0, ge, name@);
                assert(ge.1@ =~= seq![item]);
                assert forall|k: Seq<char>| k != name@ implies lookup_named(groups@, k) == lookup_named(s0, k) by {
                    lemma_lookup_push(s0, ge, k);
                }
            }
        },
    }
}

/// Files a values file under its namespace and target, creating either
/// group when it is the first file there.
pub fn add_file(grouped: &mut NamespaceMap, namespace: &str, target: &str, file: FileData)
    ensures
        forall|n: Seq<char>| n != namespace@ ==> lookup_named(final(grouped)@, n) == lookup_named(old(grouped)@, n),
        lookup_named(final(grouped)@, namespace@) is Some,
        forall|t: Seq<char>|
            t != target@ ==> lookup_named(items_or_empty(lookup_named(final(grouped)@, namespace@)), t)
                == lookup_named(items_or_empty(lookup_named(old(grouped)@, namespace@)), t),
        lookup_named(items_or_empty(lookup_named(final(grouped)@, namespace@)), target@) is Some,
        items_or_empty(lookup_named(items_or_empty(lookup_named(final(grouped)@, namespace@)), target@))
            == items_or_empty(
            lookup_named(items_or_empty(lookup_named(old(grouped)@, namespace@)), target@),
        ).push(file),
{
    let ghost g0 = grouped@;
    match position_named(grouped, namespace) {
        Some(i) => {
            let (name, mut targets) = grouped.remove(i);
            let ghost t0 = targets@;
            add_to_group(&mut targets, target, file);
            let ghost e = (name, targets);
            grouped.insert(i, (name, targets));
            proof {
                assert(grouped@ =~= g0.update(i as int, e));
                lemma_lookup_first(g0, i as int, namespace@);
                lemma_lookup_update(g0, i as int, e, namespace@);
                assert forall|n: Seq<char>| n != namespace@ implies lookup_named(grouped@, n) == lookup_named(g0, n) by {
                    lemma_lookup_update(g0, i as int, e, n);
                }
            }
        },
        None => {
            let mut targets: Vec<(String, Vec<FileData>)> = Vec::new();
            add_to_group(&mut targets, target, file);
            let e = (namespace.to_owned(), targets);
            let ghost ge = e;
            grouped.push(e);
            proof {
                lemma_lookup_absent(g0, namespace@);
                lemma_lookup_push(g0, ge, namespace@);
                assert forall|n: Seq<char>| n != namespace@ implies lookup_named(grouped@, n) == lookup_named(g0, n) by {
                    lemma_lookup_push(g0, ge, n);
                }
            }
        },
    }
}

/// Every namespace has a `default` target.
pub fn ensure_default_targets(grouped: &NamespaceMap) -> (r: Result<(), AppError>)
    ensures
        r is Ok <==> forall|n: int| 0 <= n < grouped@.len() ==> lookup_named((#[trigger] grouped@[n]).1@, "default"@) is Some,
{
    let mut n: usize = 0;
    while n < grouped.len()
        invariant
            n <= grouped@.len(),
            forall|x: int| 0 <= x < n ==> lookup_named((#[trigger] grouped@[x]).1@, "default"@) is Some,
        decreases grouped@.len() - n,
    {
        if find_named(&grouped[n].1, "default").is_none() {
            let mut m = "Namespace '".to_owned();
            m.append(grouped[n].0.as_str());
            m.append("' is missing required 'default' target");
            return Err(AppError::Validation(m));
        }
        n = n + 1;
    }
    Ok(())
}


pub open spec fn paths_of(files: Seq<FileData>) -> Seq<Seq<char>> {
    files.map_values(|f: FileData| f.path@)
}

/// Sorts files by path, keeping files with equal paths in their order.
pub fn sort_files(files: Vec<FileData>) -> (r: Vec<FileData>)
    ensures
        texts_sorted(paths_of(r@)),
        r@.to_multiset() == files@.to_multiset(),
{
    let ghost all = files@;
    let mut rest = files;
    let mut sorted: Vec<FileData> = Vec::new();
    let mut i: usize = 0;
    let n = rest.len();
    assert(all.take(0) =~= Seq::<FileData>::empty());
    assert(sorted@ =~= all.take(0));
    while rest.len() > 0
        invariant
            i <= n,
            n == all.len(),
            rest@ == all.skip(i as int),
            rest@.len() == n - i,
            texts_sorted(paths_of(sorted@)),
            sorted@.to_multiset() == all.take(i as int).to_multiset(),
        decreases rest@.len(),
    {
        let file = rest.remove(0);
        let ghost gf = file;
        assert(gf == all[i as int]);
        let ghost sv = paths_of(sorted@);
        let mut j: usize = 0;
        while j < sorted.len() && !text_less(file.path.as_str(), sorted[j].path.as_str())
            invariant
                j <= sorted@.len(),
                sv == paths_of(sorted@),
                forall|t: int| 0 <= t < j ==> !text_lt(file.path@, #[trigger] sv[t]),
            decreases sorted@.len() - j,
        {
            j = j + 1;
        }
        let ghost s0 = sorted@;
        sorted.insert(j, file);
        proof {
            let nv = paths_of(sorted@);
            assert(sorted@ =~= s0.insert(j as int, gf));
            assert(nv =~= sv.insert(j as int, gf.path@));
            assert forall|a: int, b: int| 0 <= a < b < nv.len() implies !text_lt(
                #[trigger] nv[b],
                #[trigger] nv[a],
            ) by {
                if b < j {
                    assert(nv[a] == sv[a] && nv[b] == sv[b]);
                } else if b == j {
                    assert(nv[a] == sv[a]);
                } else if a == j {
                    assert(nv[b] == sv[b - 1]);
                    assert(text_lt(gf.path@, sv[j as int]));
                    if text_lt(sv[b - 1], gf.path@) {
                        lemma_text_lt_transitive(sv[b - 1], gf.path@, sv[j as int]);
                        if b - 1 == j {
                            lemma_text_lt_irreflexive(sv[j as int]);
                        }
                    }
                } else if a < j {
                    assert(nv[a] == sv[a] && nv[b] == sv[b - 1]);
                } else {
                    assert(nv[a] == sv[a - 1] && nv[b] == sv[b - 1]);
                }
            }
            vstd::seq_lib::to_multiset_insert(s0, j as int, gf);
            assert(all.take(i + 1) =~= all.take(i as int).push(gf));
            vstd::seq_lib::to_multiset_build(all.take(i as int), gf);
        }
        assert(rest@ =~= all.skip(i + 1));
        i = i + 1;
    }
    assert(all.take(n as int) =~= all);
    sorted
}

} // verus!

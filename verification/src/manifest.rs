//! Direct dependency declarations of a Cargo manifest.
use vstd::prelude::*;
use crate::error::{is_invalid, AppError, AppResult};
use crate::facts::{DependencyEdge, DependencyEdgeView, opt_view};
use crate::order::{lemma_is_sorted_list, sort_unique, sorted_list, strictly_sorted, string_views};
use crate::rules::edge_views;
use crate::sort::{insertion_sort, lemma_sort_map, stable_sort};
use crate::text::{
    chars_of, ends_with, has_prefix, has_suffix, lines_of, lines_seq, seq_lt, slice_range,
    split_once, split_once_seq, starts_with, str_eq, str_lt, string_of, trim_chars, trim_seq,
};
use vstd::string::StringExecFns;

verus! {

/// A TOML value, as far as the manifest rules read it.
#[derive(Debug)]
pub enum TomlValue {
    String(String),
    Integer(i64),
    /// A floating-point value; the manifest rules never read its number.
    Float,
    Boolean(bool),
    /// An offset or local date-time, in its TOML spelling.
    Datetime(String),
    Array(Vec<TomlValue>),
    /// Key-value pairs in the order of the parsed table; each key occurs once.
    Table(Vec<(String, TomlValue)>),
}

#[verifier::external_type_specification]
#[verifier::external_body]
pub struct ExTomlValue(toml::Value);

/// The document that the `toml` crate parses from a manifest text, or the display text of
/// its parse error.
pub uninterp spec fn toml_document(text: Seq<char>) -> Result<TomlValue, Seq<char>>;

/// A `toml::Value` as a [`TomlValue`], variant for variant: strings, integers and booleans as
/// they are, a date-time in its `Display` spelling, arrays and tables item by item.
#[verifier::external_body]
fn toml_value_of(value: &toml::Value) -> (v: TomlValue) {
    match value {
        toml::Value::String(s) => TomlValue::String(s.clone()),
        toml::Value::Integer(i) => TomlValue::Integer(*i),
        toml::Value::Float(_) => TomlValue::Float,
        toml::Value::Boolean(b) => TomlValue::Boolean(*b),
        toml::Value::Datetime(d) => TomlValue::Datetime(d.to_string()),
        toml::Value::Array(items) => TomlValue::Array(items.iter().map(toml_value_of).collect()),
        toml::Value::Table(t) => TomlValue::Table(t.iter().map(|(k, v)| (k.clone(), toml_value_of(v))).collect()),
    }
}

/// `str::parse::<toml::Table>`: a whole TOML document, which is a table, or the error's display
/// text.
#[verifier::external_body]
fn parse_toml(source: &str) -> (r: Result<TomlValue, String>)
    ensures
        match r {
            Ok(v) => toml_document(source@) == Ok::<TomlValue, Seq<char>>(v) && v is Table,
            Err(m) => toml_document(source@) == Err::<TomlValue, Seq<char>>(m@),
        },
{
    match source.parse::<toml::Table>() {
        Ok(table) => Ok(toml_value_of(&toml::Value::Table(table))),
        Err(error) => Err(error.to_string()),
    }
}

/// The value of the first entry of a table with this key.
pub open spec fn table_get(t: Seq<(String, TomlValue)>, key: Seq<char>) -> Option<TomlValue>
    decreases t.len(),
{
    if t.len() == 0 {
        None
    } else if t[0].0@ == key {
        Some(t[0].1)
    } else {
        table_get(t.drop_first(), key)
    }
}

pub fn get<'a>(t: &'a Vec<(String, TomlValue)>, key: &str) -> (r: Option<&'a TomlValue>)
    ensures
        match r {
            Some(v) => table_get(t@, key@) == Some(*v),
            None => table_get(t@, key@) is None,
        },
{
    let mut k: usize = 0;
    assert(t@.skip(0) =~= t@);
    while k < t.len()
        invariant
            k <= t@.len(),
            table_get(t@, key@) == table_get(t@.skip(k as int), key@),
        decreases t@.len() - k,
    {
        assert(t@.skip(k as int)[0] == t@[k as int]);
        assert(t@.skip(k as int).drop_first() =~= t@.skip(k + 1));
        if str_eq(t[k].0.as_str(), key) {
            return Some(&t[k].1);
        }
        k = k + 1;
    }
    None
}

/// The string of a string value.
pub open spec fn as_str(v: Option<TomlValue>) -> Option<Seq<char>> {
    match v {
        Some(TomlValue::String(s)) => Some(s@),
        _ => None,
    }
}

/// The strings among the elements of an array, in order.
pub open spec fn array_strings(a: Seq<TomlValue>) -> Seq<Seq<char>>
    decreases a.len(),
{
    if a.len() == 0 {
        Seq::empty()
    } else {
        let prev = array_strings(a.drop_last());
        match a.last() {
            TomlValue::String(s) => prev.push(s@),
            _ => prev,
        }
    }
}

/// A header line naming the table: quotes removed.
pub open spec fn canonical_header_seq(h: Seq<char>) -> Seq<char> {
    h.filter(|c: char| c != '\'' && c != '"')
}

pub fn canonical_header(header: &[char]) -> (r: Vec<char>)
    ensures
        r@ == canonical_header_seq(header@),
{
    let mut r: Vec<char> = Vec::new();
    let mut k: usize = 0;
    assert(header@.take(0) =~= Seq::<char>::empty());
    while k < header.len()
        invariant
            k <= header@.len(),
            r@ == canonical_header_seq(header@.take(k as int)),
        decreases header@.len() - k,
    {
        let c = header[k];
        proof {
            assert(header@.take(k + 1).drop_last() =~= header@.take(k as int));
            assert(header@.take(k + 1).last() == c);
            reveal_with_fuel(Seq::filter, 1);
        }
        if c != '\'' && c != '"' {
            r.push(c);
        }
        k = k + 1;
    }
    assert(header@.take(header@.len() as int) =~= header@);
    r
}

/// `s` without trailing `/` characters.
pub open spec fn trim_slashes(s: Seq<char>) -> Seq<char>
    decreases s.len(),
{
    if s.len() > 0 && s.last() == '/' {
        trim_slashes(s.drop_last())
    } else {
        s
    }
}

/// A trimmed source locator without trailing slashes; `.` stays `.`.
pub open spec fn normalize_locator_seq(s: Seq<char>) -> Seq<char> {
    let t = trim_seq(s);
    if t == seq!['.'] {
        t
    } else {
        trim_slashes(t)
    }
}

pub fn normalize_locator(locator: &str) -> (r: String)
    ensures
        r@ == normalize_locator_seq(locator@),
{
    let chars = chars_of(locator);
    let t = trim_chars(chars.as_slice());
    if t.len() == 1 && t[0] == '.' {
        assert(t@ =~= seq!['.']);
        return string_of(t.as_slice());
    }
    proof {
        if t@ == seq!['.'] {
            assert(t@.len() == 1 && t@[0] == '.');
        }
    }
    let mut end = t.len();
    assert(t@.take(end as int) =~= t@);
    while end > 0 && t[end - 1] == '/'
        invariant
            end <= t@.len(),
            trim_slashes(t@) == trim_slashes(t@.take(end as int)),
        decreases end,
    {
        assert(t@.take(end as int).drop_last() =~= t@.take(end - 1));
        end = end - 1;
    }
    proof {
        if end > 0 {
            assert(t@.take(end as int).last() == t@[end - 1]);
        }
    }
    let r = slice_range(t.as_slice(), 0, end);
    assert(r@ =~= t@.take(end as int));
    string_of(r.as_slice())
}

/// A trimmed line that opens a table: `[` ... `]`.
pub open spec fn is_header(line: Seq<char>) -> bool {
    has_prefix(line, seq!['[']) && has_suffix(line, seq![']'])
}

/// A trimmed line whose text before its first `=`, trimmed, is the key, bare or quoted.
pub open spec fn declares_key(line: Seq<char>, key: Seq<char>) -> bool {
    match split_once_seq(line, seq!['=']) {
        Some((k, _)) => trim_seq(k) == key || trim_seq(k) == seq!['"'] + key + seq!['"'],
        None => false,
    }
}

/// The one-based number of the first line, from line `i` on, that declares `key` inside the
/// table whose header is `header`; 1 when there is none.
pub open spec fn declaration_line_from(
    lines: Seq<Seq<char>>,
    i: int,
    in_table: bool,
    header: Seq<char>,
    key: Seq<char>,
) -> int
    decreases lines.len() - i,
{
    if i < 0 || i >= lines.len() {
        1
    } else {
        let line = trim_seq(lines[i]);
        if is_header(line) {
            declaration_line_from(lines, i + 1, canonical_header_seq(line) == header, header, key)
        } else if in_table && declares_key(line, key) {
            i + 1
        } else {
            declaration_line_from(lines, i + 1, in_table, header, key)
        }
    }
}

/// Where a manifest declares `key` in the table `table_path`.
pub open spec fn declaration_line(source: Seq<char>, table_path: Seq<char>, key: Seq<char>) -> int {
    declaration_line_from(lines_seq(source), 0, false, seq!['['] + table_path + seq![']'], key)
}

fn chars_eq(a: &[char], b: &[char]) -> (r: bool)
    ensures
        r == (a@ == b@),
{
    if a.len() != b.len() {
        return false;
    }
    let mut k: usize = 0;
    while k < a.len()
        invariant
            a@.len() == b@.len(),
            k <= a@.len(),
            forall|j: int| 0 <= j < k ==> a@[j] == b@[j],
        decreases a@.len() - k,
    {
        if a[k] != b[k] {
            return false;
        }
        k = k + 1;
    }
    assert(a@ =~= b@);
    true
}

/// The one-based line that declares a dependency in a manifest, or 1 when none is found.
pub fn dependency_line(source: &str, table_path: &str, dependency_key: &str) -> (n: usize)
    ensures
        n == declaration_line(source@, table_path@, dependency_key@),
{
    let chars = chars_of(source);
    let lines = lines_of(chars.as_slice());
    let mut expected: Vec<char> = Vec::new();
    expected.push('[');
    let path_chars = chars_of(table_path);
    let mut j: usize = 0;
    while j < path_chars.len()
        invariant
            j <= path_chars@.len(),
            expected@ == seq!['['] + path_chars@.take(j as int),
        decreases path_chars@.len() - j,
    {
        expected.push(path_chars[j]);
        j = j + 1;
        assert(expected@ =~= seq!['['] + path_chars@.take(j as int));
    }
    expected.push(']');
    assert(path_chars@.take(path_chars@.len() as int) =~= path_chars@);
    assert(expected@ =~= seq!['['] + table_path@ + seq![']']);
    let key = chars_of(dependency_key);
    let mut quoted: Vec<char> = Vec::new();
    quoted.push('"');
    let mut q: usize = 0;
    while q < key.len()
        invariant
            q <= key@.len(),
            quoted@ == seq!['"'] + key@.take(q as int),
        decreases key@.len() - q,
    {
        quoted.push(key[q]);
        q = q + 1;
        assert(quoted@ =~= seq!['"'] + key@.take(q as int));
    }
    quoted.push('"');
    assert(key@.take(key@.len() as int) =~= key@);
    assert(quoted@ =~= seq!['"'] + dependency_key@ + seq!['"']);
    let open = ['['];
    let close = [']'];
    let equals = ['='];
    assert(open@ =~= seq!['[']);
    assert(close@ =~= seq![']']);
    assert(equals@ =~= seq!['=']);
    let mut in_table = false;
    let mut k: usize = 0;
    let ghost ls = lines.deep_view();
    let ghost header = seq!['['] + table_path@ + seq![']'];
    while k < lines.len()
        invariant
            ls == lines.deep_view(),
            ls == lines_seq(source@),
            expected@ == header,
            header == seq!['['] + table_path@ + seq![']'],
            quoted@ == seq!['"'] + dependency_key@ + seq!['"'],
            key@ == dependency_key@,
            open@ == seq!['['],
            close@ == seq![']'],
            equals@ == seq!['='],
            k <= ls.len(),
            declaration_line(source@, table_path@, dependency_key@) == declaration_line_from(
                ls,
                k as int,
                in_table,
                header,
                dependency_key@,
            ),
        decreases ls.len() - k,
    {
        assert(ls[k as int] == lines@[k as int]@);
        let line = trim_chars(lines[k].as_slice());
        if starts_with(line.as_slice(), open.as_slice()) && ends_with(line.as_slice(), close.as_slice()) {
            let canonical = canonical_header(line.as_slice());
            in_table = chars_eq(canonical.as_slice(), expected.as_slice());
            k = k + 1;
            continue;
        }
        if in_table {
            match split_once(line.as_slice(), equals.as_slice()) {
                Some((before, _)) => {
                    let name = trim_chars(before.as_slice());
                    if chars_eq(name.as_slice(), key.as_slice()) || chars_eq(
                        name.as_slice(),
                        quoted.as_slice(),
                    ) {
                        return k + 1;
                    }
                },
                None => {},
            }
        }
        k = k + 1;
    }
    1
}

/// Where a dependency comes from: `git`, then `path`, then a registry when a version is
/// given, else unspecified; with its normalized locator.
pub open spec fn source_of(d: Seq<(String, TomlValue)>) -> (Seq<char>, Option<Seq<char>>) {
    match as_str(table_get(d, "git"@)) {
        Some(g) => ("git"@, Some(normalize_locator_seq(g))),
        None => match as_str(table_get(d, "path"@)) {
            Some(p) => ("path"@, Some(normalize_locator_seq(p))),
            None => if table_get(d, "version"@) is Some {
                ("registry"@, None)
            } else {
                ("unspecified"@, None)
            },
        },
    }
}

/// `default-features`, when given as a boolean; otherwise enabled.
pub open spec fn default_features_of(d: Seq<(String, TomlValue)>) -> bool {
    match table_get(d, "default-features"@) {
        Some(TomlValue::Boolean(b)) => b,
        _ => true,
    }
}

/// The string entries of the `features` array.
pub open spec fn feature_names(d: Seq<(String, TomlValue)>) -> Seq<Seq<char>> {
    match table_get(d, "features"@) {
        Some(TomlValue::Array(a)) => array_strings(a@),
        _ => Seq::empty(),
    }
}

/// The edge that a dependency entry declares: a string is a registry version requirement,
/// a table gives the details; any other value declares none.
pub open spec fn edge_of(
    table_path: Seq<char>,
    key: Seq<char>,
    v: TomlValue,
    source: Seq<char>,
) -> Option<DependencyEdgeView> {
    let line = declaration_line(source, table_path, key) as usize;
    match v {
        TomlValue::String(version) => Some(
            DependencyEdgeView {
                table_path,
                dependency_key: key,
                package: None,
                source_kind: "registry"@,
                source: None,
                default_features: true,
                features: Seq::empty(),
                version: Some(version@),
                line,
            },
        ),
        TomlValue::Table(d) => Some(
            DependencyEdgeView {
                table_path,
                dependency_key: key,
                package: as_str(table_get(d@, "package"@)),
                source_kind: source_of(d@).0,
                source: source_of(d@).1,
                default_features: default_features_of(d@),
                features: sorted_list(feature_names(d@).to_set()),
                version: as_str(table_get(d@, "version"@)),
                line,
            },
        ),
        _ => None,
    }
}

/// The edges of one dependency table in document order; the first entry that is neither a
/// string nor a table is the error.
pub open spec fn table_edges(
    t: Seq<(String, TomlValue)>,
    table_path: Seq<char>,
    source: Seq<char>,
) -> Result<Seq<DependencyEdgeView>, Seq<char>>
    decreases t.len(),
{
    if t.len() == 0 {
        Ok(Seq::empty())
    } else {
        match table_edges(t.drop_last(), table_path, source) {
            Err(d) => Err(d),
            Ok(prev) => match edge_of(table_path, t.last().0@, t.last().1, source) {
                Some(e) => Ok(prev.push(e)),
                None => Err(table_path + "."@ + t.last().0@ + " must be a string or table"@),
            },
        }
    }
}

fn array_string_values(a: &Vec<TomlValue>) -> (r: Vec<String>)
    ensures
        string_views(r@) == array_strings(a@),
{
    let mut r: Vec<String> = Vec::new();
    let mut k: usize = 0;
    assert(a@.take(0) =~= Seq::<TomlValue>::empty());
    assert(string_views(r@) =~= Seq::<Seq<char>>::empty());
    while k < a.len()
        invariant
            k <= a@.len(),
            string_views(r@) == array_strings(a@.take(k as int)),
        decreases a@.len() - k,
    {
        proof {
            assert(a@.take(k + 1).drop_last() =~= a@.take(k as int));
            assert(a@.take(k + 1).last() == a@[k as int]);
        }
        match &a[k] {
            TomlValue::String(s) => {
                let ghost before = r@;
                r.push(s.clone());
                assert(string_views(r@) =~= string_views(before).push(s@));
            },
            _ => {},
        }
        k = k + 1;
    }
    assert(a@.take(a@.len() as int) =~= a@);
    r
}

fn str_of(v: Option<&TomlValue>) -> (r: Option<String>)
    ensures
        opt_view(r) == as_str(match v {
            Some(x) => Some(*x),
            None => None,
        }),
{
    match v {
        Some(TomlValue::String(s)) => Some(s.clone()),
        _ => None,
    }
}

fn edge_from(table_path: &str, key: &str, value: &TomlValue, source: &str) -> (r: Option<DependencyEdge>)
    ensures
        match r {
            Some(e) => edge_of(table_path@, key@, *value, source@) == Some(e@),
            None => edge_of(table_path@, key@, *value, source@) is None,
        },
{
    match value {
        TomlValue::String(version) => {
            let line = dependency_line(source, table_path, key);
            let e = DependencyEdge {
                table_path: table_path.to_owned(),
                dependency_key: key.to_owned(),
                package: None,
                source_kind: "registry".to_owned(),
                source: None,
                default_features: true,
                features: Vec::new(),
                version: Some(version.clone()),
                line,
            };
            assert(e@.features =~= Seq::<Seq<char>>::empty());
            Some(e)
        },
        TomlValue::Table(details) => {
            let package = str_of(get(details, "package"));
            let (source_kind, locator) = match str_of(get(details, "git")) {
                Some(git) => ("git".to_owned(), Some(normalize_locator(git.as_str()))),
                None => match str_of(get(details, "path")) {
                    Some(path) => ("path".to_owned(), Some(normalize_locator(path.as_str()))),
                    None => if get(details, "version").is_some() {
                        ("registry".to_owned(), None)
                    } else {
                        ("unspecified".to_owned(), None)
                    },
                },
            };
            let default_features = match get(details, "default-features") {
                Some(TomlValue::Boolean(b)) => *b,
                _ => true,
            };
            let names = match get(details, "features") {
                Some(TomlValue::Array(values)) => array_string_values(values),
                _ => {
                    let v: Vec<String> = Vec::new();
                    assert(string_views(v@) =~= Seq::<Seq<char>>::empty());
                    v
                },
            };
            let features = sort_unique(names);
            proof {
                lemma_is_sorted_list(string_views(features@));
            }
            let version = str_of(get(details, "version"));
            let line = dependency_line(source, table_path, key);
            Some(
                DependencyEdge {
                    table_path: table_path.to_owned(),
                    dependency_key: key.to_owned(),
                    package,
                    source_kind,
                    source: locator,
                    default_features,
                    features,
                    version,
                    line,
                },
            )
        },
        _ => None,
    }
}

fn collect_dependency_table(
    table: &Vec<(String, TomlValue)>,
    table_path: &str,
    source: &str,
    edges: &mut Vec<DependencyEdge>,
) -> (r: Result<(), String>)
    ensures
        match r {
            Ok(()) => table_edges(table@, table_path@, source@) matches Ok(more) && edge_views(
                final(edges)@,
            ) == edge_views(old(edges)@) + more,
            Err(d) => table_edges(table@, table_path@, source@) == Err::<Seq<DependencyEdgeView>, Seq<char>>(d@),
        },
{
    let ghost start = edge_views(edges@);
    let mut k: usize = 0;
    assert(table@.take(0) =~= Seq::<(String, TomlValue)>::empty());
    assert(edge_views(edges@) =~= start + Seq::<DependencyEdgeView>::empty());
    while k < table.len()
        invariant
            k <= table@.len(),
            table_edges(table@.take(k as int), table_path@, source@) matches Ok(done) && edge_views(
                edges@,
            ) == start + done,
        decreases table@.len() - k,
    {
        let entry = &table[k];
        proof {
            assert(table@.take(k + 1).drop_last() =~= table@.take(k as int));
            assert(table@.take(k + 1).last() == *entry);
        }
        let ghost done = table_edges(table@.take(k as int), table_path@, source@)->Ok_0;
        match edge_from(table_path, entry.0.as_str(), &entry.1, source) {
            Some(e) => {
                let ghost before = edges@;
                edges.push(e);
                assert(edge_views(edges@) =~= edge_views(before).push(e@));
                assert(edge_views(edges@) =~= start + done.push(e@));
            },
            None => {
                proof {
                    lemma_table_error_persists(table@, table_path@, source@, k + 1);
                    assert(table@.take(table@.len() as int) =~= table@);
                }
                let detail = String::from_str(table_path).concat(".").concat(entry.0.as_str()).concat(
                    " must be a string or table",
                );
                return Err(detail);
            },
        }
        k = k + 1;
    }
    assert(table@.take(table@.len() as int) =~= table@);
    Ok(())
}

proof fn lemma_table_error_persists(
    t: Seq<(String, TomlValue)>,
    table_path: Seq<char>,
    source: Seq<char>,
    i: int,
)
    requires
        0 <= i <= t.len(),
        table_edges(t.take(i), table_path, source) is Err,
    ensures
        table_edges(t, table_path, source) == table_edges(t.take(i), table_path, source),
    decreases t.len() - i,
{
    if i < t.len() {
        assert(t.take(i + 1).drop_last() =~= t.take(i));
        lemma_table_error_persists(t, table_path, source, i + 1);
    } else {
        assert(t.take(i) =~= t);
    }
}

/// A manifest error: whether it concerns one dependency entry (else the manifest's
/// structure), and its detail text.
pub type ManifestFault = (bool, Seq<char>);

/// `a` then `b`, stopping at the first error.
pub open spec fn then_edges(
    a: Result<Seq<DependencyEdgeView>, ManifestFault>,
    b: Result<Seq<DependencyEdgeView>, ManifestFault>,
) -> Result<Seq<DependencyEdgeView>, ManifestFault> {
    match a {
        Err(e) => Err(e),
        Ok(x) => match b {
            Err(e) => Err(e),
            Ok(y) => Ok(x + y),
        },
    }
}

pub open spec fn entry_fault(r: Result<Seq<DependencyEdgeView>, Seq<char>>) -> Result<Seq<DependencyEdgeView>, ManifestFault> {
    match r {
        Ok(x) => Ok(x),
        Err(d) => Err((true, d)),
    }
}

/// The edges of the table `name` inside `t`, reported under `prefix + name`; it must be a
/// table when present.
pub open spec fn section_edges(
    t: Seq<(String, TomlValue)>,
    prefix: Seq<char>,
    name: Seq<char>,
    source: Seq<char>,
) -> Result<Seq<DependencyEdgeView>, ManifestFault> {
    match table_get(t, name) {
        None => Ok(Seq::empty()),
        Some(TomlValue::Table(d)) => entry_fault(table_edges(d@, prefix + name, source)),
        Some(_) => Err((false, prefix + name + " must be a table"@)),
    }
}

/// Production and build dependency tables under `prefix`.
pub open spec fn both_sections(
    t: Seq<(String, TomlValue)>,
    prefix: Seq<char>,
    source: Seq<char>,
) -> Result<Seq<DependencyEdgeView>, ManifestFault> {
    then_edges(
        section_edges(t, prefix, "dependencies"@, source),
        section_edges(t, prefix, "build-dependencies"@, source),
    )
}

/// The dependency tables of each platform target in document order.
pub open spec fn target_edges(targets: Seq<(String, TomlValue)>, source: Seq<char>) -> Result<Seq<DependencyEdgeView>, ManifestFault>
    decreases targets.len(),
{
    if targets.len() == 0 {
        Ok(Seq::empty())
    } else {
        let (selector, target) = targets.last();
        then_edges(
            target_edges(targets.drop_last(), source),
            match target {
                TomlValue::Table(tt) => both_sections(tt@, "target."@ + selector@ + "."@, source),
                _ => Err((false, "target."@ + selector@ + " must be a table"@)),
            },
        )
    }
}

/// All direct production and build dependency edges of a manifest, before ordering.
pub open spec fn manifest_edges(document: TomlValue, source: Seq<char>) -> Result<Seq<DependencyEdgeView>, ManifestFault> {
    match document {
        TomlValue::Table(root) => then_edges(
            both_sections(root@, Seq::empty(), source),
            match table_get(root@, "target"@) {
                None => Ok(Seq::empty()),
                Some(TomlValue::Table(targets)) => target_edges(targets@, source),
                Some(_) => Err((false, "target must be a table"@)),
            },
        ),
        _ => Err((false, "root must be a table"@)),
    }
}

/// Edges in order of table path, then dependency key.
pub open spec fn edge_lt(a: DependencyEdgeView, b: DependencyEdgeView) -> bool {
    if a.table_path != b.table_path {
        seq_lt(a.table_path, b.table_path)
    } else {
        seq_lt(a.dependency_key, b.dependency_key)
    }
}

pub open spec fn edge_view_order() -> spec_fn(DependencyEdgeView, DependencyEdgeView) -> bool {
    |a: DependencyEdgeView, b: DependencyEdgeView| edge_lt(a, b)
}

pub open spec fn edge_order() -> spec_fn(DependencyEdge, DependencyEdge) -> bool {
    |a: DependencyEdge, b: DependencyEdge| edge_lt(a@, b@)
}

fn edge_less(a: &DependencyEdge, b: &DependencyEdge) -> (lt: bool)
    ensures
        lt == edge_lt(a@, b@),
{
    if !str_eq(a.table_path.as_str(), b.table_path.as_str()) {
        str_lt(a.table_path.as_str(), b.table_path.as_str())
    } else {
        str_lt(a.dependency_key.as_str(), b.dependency_key.as_str())
    }
}

fn collect_section(
    t: &Vec<(String, TomlValue)>,
    prefix: &str,
    name: &str,
    source: &str,
    edges: &mut Vec<DependencyEdge>,
) -> (r: Result<(), (bool, String)>)
    ensures
        match r {
            Ok(()) => section_edges(t@, prefix@, name@, source@) matches Ok(more) && edge_views(
                final(edges)@,
            ) == edge_views(old(edges)@) + more,
            Err((flag, d)) => section_edges(t@, prefix@, name@, source@) == Err::<Seq<DependencyEdgeView>, ManifestFault>((flag, d@)),
        },
{
    let path = String::from_str(prefix).concat(name);
    match get(t, name) {
        None => {
            assert(edge_views(edges@) =~= edge_views(old(edges)@) + Seq::<DependencyEdgeView>::empty());
            Ok(())
        },
        Some(TomlValue::Table(d)) => match collect_dependency_table(d, path.as_str(), source, edges) {
            Ok(()) => Ok(()),
            Err(detail) => Err((true, detail)),
        },
        Some(_) => Err((false, path.concat(" must be a table"))),
    }
}

fn collect_both(
    t: &Vec<(String, TomlValue)>,
    prefix: &str,
    source: &str,
    edges: &mut Vec<DependencyEdge>,
) -> (r: Result<(), (bool, String)>)
    ensures
        match r {
            Ok(()) => both_sections(t@, prefix@, source@) matches Ok(more) && edge_views(
                final(edges)@,
            ) == edge_views(old(edges)@) + more,
            Err((flag, d)) => both_sections(t@, prefix@, source@) == Err::<Seq<DependencyEdgeView>, ManifestFault>((flag, d@)),
        },
{
    match collect_section(t, prefix, "dependencies", source, edges) {
        Ok(()) => {},
        Err(e) => {
            return Err(e);
        },
    }
    let ghost mid = edges@;
    match collect_section(t, prefix, "build-dependencies", source, edges) {
        Ok(()) => {
            proof {
                let a = section_edges(t@, prefix@, "dependencies"@, source@)->Ok_0;
                let b = section_edges(t@, prefix@, "build-dependencies"@, source@)->Ok_0;
                assert(edge_views(edges@) =~= edge_views(old(edges)@) + (a + b));
            }
            Ok(())
        },
        Err(e) => Err(e),
    }
}

/// Extracts direct production and build dependency edges from a parsed Cargo manifest,
/// ordered by table path and dependency key; `source` is the manifest text, searched for
/// each declaration's line.
#[verifier::loop_isolation(false)]
pub fn document_edges(document: &TomlValue, source: &str) -> (r: AppResult<Vec<DependencyEdge>>)
    ensures
        match r {
            Ok(edges) => manifest_edges(*document, source@) matches Ok(found) && edge_views(edges@)
                == stable_sort(found, edge_view_order()),
            Err(e) => manifest_edges(*document, source@) matches Err((flag, detail)) && is_invalid(
                e,
                if flag {
                    "Cargo dependency"@
                } else {
                    "Cargo manifest"@
                },
                detail,
            ),
        },
{
    let root = match document {
        TomlValue::Table(root) => root,
        _ => {
            return Err(AppError::invalid("Cargo manifest", "root must be a table".to_owned()));
        },
    };
    let mut edges: Vec<DependencyEdge> = Vec::new();
    proof {
        reveal_strlit("");
        assert(""@ =~= Seq::<char>::empty());
    }
    match collect_both(root, "", source, &mut edges) {
        Ok(()) => {},
        Err((flag, detail)) => {
            return Err(manifest_error(flag, detail));
        },
    }
    let ghost first = edges@;
    match get(root, "target") {
        None => {},
        Some(TomlValue::Table(targets)) => {
            let mut k: usize = 0;
            assert(targets@.take(0) =~= Seq::<(String, TomlValue)>::empty());
            assert(edge_views(edges@) =~= edge_views(first) + Seq::<DependencyEdgeView>::empty());
            while k < targets.len()
                invariant
                    k <= targets@.len(),
                    target_edges(targets@.take(k as int), source@) matches Ok(done) && edge_views(
                        edges@,
                    ) == edge_views(first) + done,
                decreases targets@.len() - k,
            {
                let (selector, target) = (&targets[k].0, &targets[k].1);
                proof {
                    assert(targets@.take(k + 1).drop_last() =~= targets@.take(k as int));
                    assert(targets@.take(k + 1).last() == targets@[k as int]);
                }
                let ghost done = target_edges(targets@.take(k as int), source@)->Ok_0;
                let ghost before = edges@;
                match target {
                    TomlValue::Table(tt) => {
                        let prefix = String::from_str("target.").concat(selector.as_str()).concat(".");
                        match collect_both(tt, prefix.as_str(), source, &mut edges) {
                            Ok(()) => {
                                proof {
                                    let more = both_sections(tt@, prefix@, source@)->Ok_0;
                                    assert(edge_views(edges@) =~= edge_views(first) + (done + more));
                                }
                            },
                            Err((flag, detail)) => {
                                proof {
                                    lemma_target_error_persists(targets@, source@, k + 1);
                                    assert(targets@.take(targets@.len() as int) =~= targets@);
                                }
                                return Err(manifest_error(flag, detail));
                            },
                        }
                    },
                    _ => {
                        proof {
                            lemma_target_error_persists(targets@, source@, k + 1);
                            assert(targets@.take(targets@.len() as int) =~= targets@);
                        }
                        let detail = String::from_str("target.").concat(selector.as_str()).concat(
                            " must be a table",
                        );
                        return Err(manifest_error(false, detail));
                    },
                }
                k = k + 1;
            }
            assert(targets@.take(targets@.len() as int) =~= targets@);
        },
        Some(_) => {
            return Err(AppError::invalid("Cargo manifest", "target must be a table".to_owned()));
        },
    }
    let ghost unsorted = edges@;
    let sorted = insertion_sort(edges, edge_less, Ghost(edge_order()));
    proof {
        assert(edge_views(first) + Seq::<DependencyEdgeView>::empty() =~= edge_views(first));
        let f = |e: DependencyEdge| e@;
        assert(forall|a: DependencyEdge, b: DependencyEdge| #[trigger] edge_order()(a, b) == edge_view_order()(f(a), f(b)));
        lemma_sort_map(unsorted, edge_order(), f, edge_view_order());
        assert(edge_views(unsorted) == unsorted.map_values(f));
        assert(edge_views(sorted@) == sorted@.map_values(f));
    }
    Ok(sorted)
}

fn manifest_error(flag: bool, detail: String) -> (e: AppError)
    ensures
        is_invalid(
            e,
            if flag {
                "Cargo dependency"@
            } else {
                "Cargo manifest"@
            },
            detail@,
        ),
{
    if flag {
        AppError::invalid("Cargo dependency", detail)
    } else {
        AppError::invalid("Cargo manifest", detail)
    }
}

proof fn lemma_target_error_persists(t: Seq<(String, TomlValue)>, source: Seq<char>, i: int)
    requires
        0 <= i <= t.len(),
        target_edges(t.take(i), source) is Err,
    ensures
        target_edges(t, source) == target_edges(t.take(i), source),
    decreases t.len() - i,
{
    if i < t.len() {
        assert(t.take(i + 1).drop_last() =~= t.take(i));
        lemma_target_error_persists(t, source, i + 1);
    } else {
        assert(t.take(i) =~= t);
    }
}

/// Extracts direct production and build dependency edges from a Cargo manifest's text: text
/// that is not TOML is refused with the parser's message, and the parsed document goes to
/// [`document_edges`].
pub fn dependency_edges(source: &str) -> (r: AppResult<Vec<DependencyEdge>>)
    ensures
        match toml_document(source@) {
            Err(m) => r matches Err(e) && is_invalid(e, "Cargo manifest"@, m),
            Ok(document) => match r {
                Ok(edges) => manifest_edges(document, source@) matches Ok(found) && edge_views(edges@)
                    == stable_sort(found, edge_view_order()),
                Err(e) => manifest_edges(document, source@) matches Err((flag, detail)) && is_invalid(
                    e,
                    if flag {
                        "Cargo dependency"@
                    } else {
                        "Cargo manifest"@
                    },
                    detail,
                ),
            },
        },
{
    match parse_toml(source) {
        Ok(document) => document_edges(&document, source),
        Err(detail) => Err(AppError::invalid("Cargo manifest", detail)),
    }
}

} // verus!

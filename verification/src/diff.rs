//! Parsing of Git diff output: zero-context hunk headers and name-status records.
use std::collections::BTreeSet;
use vstd::prelude::*;
use crate::error::{is_invalid, AppError, AppResult};
use crate::encoding::{lossy_utf8, utf8_lossy, utf8_text, utf8_error_text};
use crate::order::{sort_unique, strictly_sorted, string_views};
use crate::path::{is_relative_path, relative_path};
use crate::text::{
    chars_of, contains_seq, ends_with, find_seq, has_prefix, has_suffix, lines_of, lines_seq,
    parse_usize, parse_usize_seq, slice_range, split_bytes, split_chars, split_once,
    split_once_seq, split_seq, starts_with, string_of, trim_chars, trim_seq,
    lemma_split_nonempty,
};
use vstd::utf8::{decode_utf8, valid_utf8};

verus! {

broadcast use {vstd::std_specs::btree::group_btree_axioms, vstd::laws_cmp::group_laws_cmp, vstd::array::group_array_axioms};

/// One-based head-revision lines added by a Git diff.
#[derive(Debug, Clone, Default, PartialEq, Eq)]
pub struct ChangedLineSet {
    lines: BTreeSet<usize>,
}

impl View for ChangedLineSet {
    type V = Set<usize>;

    closed spec fn view(&self) -> Set<usize> {
        self.lines@
    }
}

impl ChangedLineSet {
    /// The empty set of lines.
    pub fn new() -> (s: Self)
        ensures
            s@ == Set::<usize>::empty(),
    {
        ChangedLineSet { lines: BTreeSet::new() }
    }

    /// A set holding exactly the given lines.
    pub fn from_lines(lines: &[usize]) -> (s: Self)
        ensures
            s@ == lines@.to_set(),
            s@.finite(),
    {
        let mut set = ChangedLineSet::new();
        let mut k: usize = 0;
        while k < lines.len()
            invariant
                k <= lines@.len(),
                set@ == lines@.take(k as int).to_set(),
                set@.finite(),
            decreases lines@.len() - k,
        {
            set.insert(lines[k]);
            proof {
                let a = lines@.take(k as int);
                let b = lines@.take(k + 1);
                assert(b =~= a.push(lines@[k as int]));
                assert forall|x: usize| b.contains(x) <==> a.contains(x) || x == lines@[k as int] by {
                    if b.contains(x) && x != lines@[k as int] {
                        let w = choose|w: int| 0 <= w < b.len() && b[w] == x;
                        assert(a[w] == x);
                    }
                    if a.contains(x) {
                        let w = choose|w: int| 0 <= w < a.len() && a[w] == x;
                        assert(b[w] == x);
                    }
                    if x == lines@[k as int] {
                        assert(b[k as int] == x);
                    }
                }
                assert(b.to_set() =~= a.to_set().insert(lines@[k as int]));
            }
            k = k + 1;
        }
        assert(lines@.take(lines@.len() as int) =~= lines@);
        set
    }

    fn insert(&mut self, line: usize)
        ensures
            final(self)@ == old(self)@.insert(line),
    {
        self.lines.insert(line);
    }

    /// Returns whether a one-based head line is included.
    pub fn contains(&self, line: usize) -> (b: bool)
        ensures
            b == self@.contains(line),
    {
        self.lines.contains(&line)
    }

    /// Returns the number of added lines.
    pub fn len(&self) -> (n: usize)
        ensures
            n == self@.len(),
    {
        self.lines.len()
    }
}

/// The text after the leading sign of a range, when that sign is a one-byte character
/// (`str::get(1..)`).
pub open spec fn after_sign(range: Seq<char>) -> Option<Seq<char>> {
    if range.len() == 0 || (range[0] as u32) >= 0x80 {
        None
    } else {
        Some(range.drop_first())
    }
}

/// `start[,count]` after the sign; a missing count is one.
pub open spec fn diff_range_seq(range: Seq<char>) -> Option<(usize, usize)> {
    match after_sign(range) {
        None => None,
        Some(r) => {
            let (start, count) = match split_once_seq(r, seq![',']) {
                Some((a, b)) => (a, b),
                None => (r, seq!['1']),
            };
            match (parse_usize_seq(start), parse_usize_seq(count)) {
                (Some(s), Some(c)) => Some((s, c)),
                _ => None,
            }
        },
    }
}

/// The half-open range `[start, end)` of head lines that a well-formed hunk header adds.
pub open spec fn hunk_lines(line: Seq<char>) -> Option<(usize, usize)> {
    if !has_prefix(line, seq!['@', '@', ' ']) {
        None
    } else {
        match split_once_seq(line.skip(3), seq![' ', '@', '@']) {
            None => None,
            Some((ranges, _)) => {
                let fields = split_seq(ranges, ' ');
                if fields.len() != 2 || !has_prefix(fields[0], seq!['-']) || !has_prefix(
                    fields[1],
                    seq!['+'],
                ) {
                    None
                } else {
                    match (diff_range_seq(fields[0]), diff_range_seq(fields[1])) {
                        (Some(_), Some((s, c))) => if s + c <= usize::MAX {
                            Some((s, (s + c) as usize))
                        } else {
                            None
                        },
                        _ => None,
                    }
                }
            },
        }
    }
}

/// Added head lines of a diff read line by line: every line that starts with `@@` must be a
/// well-formed hunk header, and contributes its range; the first malformed one is the error.
pub open spec fn added_lines_result(ls: Seq<Seq<char>>) -> Result<Set<usize>, Seq<char>>
    decreases ls.len(),
{
    if ls.len() == 0 {
        Ok(Set::empty())
    } else {
        match added_lines_result(ls.drop_last()) {
            Err(bad) => Err(bad),
            Ok(acc) => {
                let l = ls.last();
                if !has_prefix(l, seq!['@', '@']) {
                    Ok(acc)
                } else {
                    match hunk_lines(l) {
                        None => Err(l),
                        Some((s, e)) => Ok(acc.union(Set::new(|x: usize| s <= x < e))),
                    }
                }
            },
        }
    }
}

fn first_is(s: &[char], c: char) -> (b: bool)
    ensures
        b == has_prefix(s@, seq![c]),
{
    let r = s.len() > 0 && s[0] == c;
    proof {
        if s@.len() > 0 {
            if s@[0] == c {
                assert(s@.take(1) =~= seq![c]);
            } else {
                assert(s@.take(1)[0] != seq![c][0]);
            }
        }
    }
    r
}

/// Character-level form of [`parse_diff_range`].
fn diff_range_chars(range: &[char]) -> (r: Option<(usize, usize)>)
    ensures
        r == diff_range_seq(range@),
{
    if range.len() == 0 || (range[0] as u32) >= 0x80 {
        return None;
    }
    let rest = slice_range(range, 1, range.len());
    assert(rest@ =~= range@.drop_first());
    let comma = [','];
    assert(comma@ =~= seq![',']);
    let (start, count) = match split_once(rest.as_slice(), comma.as_slice()) {
        Some((a, b)) => (a, b),
        None => {
            let one = ['1'];
            let v = slice_range(one.as_slice(), 0, 1);
            assert(v@ =~= seq!['1']);
            (rest, v)
        },
    };
    let s = parse_usize(start.as_slice());
    let c = parse_usize(count.as_slice());
    match (s, c) {
        (Some(s), Some(c)) => Some((s, c)),
        _ => None,
    }
}

/// Parses one `-start[,count]` or `+start[,count]` range of a hunk header.
pub fn parse_diff_range(range: &str, line: &str) -> (r: AppResult<(usize, usize)>)
    ensures
        match r {
            Ok(p) => diff_range_seq(range@) == Some(p),
            Err(e) => diff_range_seq(range@) is None && is_invalid(e, "Git diff hunk"@, line@),
        },
{
    let chars = chars_of(range);
    match diff_range_chars(chars.as_slice()) {
        Some(p) => Ok(p),
        None => Err(AppError::invalid("Git diff hunk", line.to_owned())),
    }
}

/// Character-level hunk header parsing.
fn hunk_bounds(line: &[char]) -> (r: Option<(usize, usize)>)
    ensures
        r == hunk_lines(line@),
{
    let prefix = ['@', '@', ' '];
    assert(prefix@ =~= seq!['@', '@', ' ']);
    if !crate::text::starts_with(line, prefix.as_slice()) {
        return None;
    }
    let header = slice_range(line, 3, line.len());
    assert(header@ =~= line@.skip(3));
    let closing = [' ', '@', '@'];
    assert(closing@ =~= seq![' ', '@', '@']);
    let ranges = match split_once(header.as_slice(), closing.as_slice()) {
        Some((ranges, _)) => ranges,
        None => {
            return None;
        },
    };
    let fields = split_chars(ranges.as_slice(), ' ');
    proof {
        lemma_split_nonempty(ranges@, ' ');
    }
    if fields.len() != 2 {
        return None;
    }
    assert(fields.deep_view()[0] == fields@[0]@);
    assert(fields.deep_view()[1] == fields@[1]@);
    if !first_is(fields[0].as_slice(), '-') || !first_is(fields[1].as_slice(), '+') {
        return None;
    }
    let old_range = diff_range_chars(fields[0].as_slice());
    let new_range = diff_range_chars(fields[1].as_slice());
    match (old_range, new_range) {
        (Some(_), Some((s, c))) => match s.checked_add(c) {
            Some(e) => Some((s, e)),
            None => None,
        },
        _ => None,
    }
}

/// Returns head line numbers added by a zero-context Git diff.
///
/// Every line that starts with `@@` must be a well-formed hunk header; a malformed one
/// fails the whole parse, so no partial result is returned.
pub fn parse_added_lines(diff: &str) -> (r: AppResult<ChangedLineSet>)
    ensures
        match r {
            Ok(set) => added_lines_result(lines_seq(diff@)) == Ok::<Set<usize>, Seq<char>>(set@)
                && set@.finite(),
            Err(e) => added_lines_result(lines_seq(diff@)) matches Err(bad) && is_invalid(
                e,
                "Git diff hunk"@,
                bad,
            ),
        },
{
    let chars = chars_of(diff);
    let lines = lines_of(chars.as_slice());
    let ghost ls = lines.deep_view();
    let mut set = ChangedLineSet::new();
    let mut k: usize = 0;
    let marker = ['@', '@'];
    assert(marker@ =~= seq!['@', '@']);
    assert(ls.take(0) =~= Seq::<Seq<char>>::empty());
    while k < lines.len()
        invariant
            ls == lines.deep_view(),
            ls == lines_seq(diff@),
            marker@ == seq!['@', '@'],
            k <= ls.len(),
            added_lines_result(ls.take(k as int)) == Ok::<Set<usize>, Seq<char>>(set@),
            set@.finite(),
        decreases ls.len() - k,
    {
        let line = &lines[k];
        assert(ls[k as int] == line@);
        assert(ls.take(k + 1).drop_last() =~= ls.take(k as int));
        assert(ls.take(k + 1).last() == line@);
        if crate::text::starts_with(line.as_slice(), marker.as_slice()) {
            match hunk_bounds(line.as_slice()) {
                None => {
                    proof {
                        assert forall|j: int| k + 1 <= j <= ls.len() implies #[trigger] added_lines_result(ls.take(j)) == Err::<Set<usize>, Seq<char>>(line@) by {
                            lemma_error_persists(ls, k + 1, j, line@);
                        }
                        assert(ls.take(ls.len() as int) =~= ls);
                    }
                    let detail = string_of(line.as_slice());
                    return Err(AppError::invalid("Git diff hunk", detail));
                },
                Some((s, e)) => {
                    let ghost before = set@;
                    let mut x = s;
                    while x < e
                        invariant
                            s <= x <= e,
                            set@ == before.union(Set::new(|y: usize| s <= y < x)),
                            set@.finite(),
                            before.finite(),
                        decreases e - x,
                    {
                        set.insert(x);
                        x = x + 1;
                        assert(set@ =~= before.union(Set::new(|y: usize| s <= y < x)));
                    }
                    assert(set@ =~= before.union(Set::new(|y: usize| s <= y < e)));
                },
            }
        }
        k = k + 1;
    }
    assert(ls.take(ls.len() as int) =~= ls);
    Ok(set)
}

proof fn lemma_error_persists(ls: Seq<Seq<char>>, i: int, j: int, bad: Seq<char>)
    requires
        0 <= i <= j <= ls.len(),
        added_lines_result(ls.take(i)) == Err::<Set<usize>, Seq<char>>(bad),
    ensures
        added_lines_result(ls.take(j)) == Err::<Set<usize>, Seq<char>>(bad),
    decreases j - i,
{
    if j > i {
        lemma_error_persists(ls, i, j - 1, bad);
        assert(ls.take(j).drop_last() =~= ls.take(j - 1));
    }
}

/// A trimmed Git diagnostic line that reports a path absent from a revision.
pub open spec fn missing_blob_line(line: Seq<char>) -> bool {
    let t = trim_seq(line);
    &&& has_prefix(t, "fatal: path '"@)
    &&& (contains_seq(t, " does not exist in '"@) || contains_seq(
        t,
        " exists on disk, but not in '"@,
    ))
}

/// Some line of `detail` reports a path absent from a revision.
pub open spec fn missing_blob_text(detail: Seq<char>) -> bool {
    exists|k: int| 0 <= k < lines_seq(detail).len() && missing_blob_line(#[trigger] lines_seq(detail)[k])
}

/// Whether Git's diagnostic text says that a path does not exist in a revision.
pub fn is_missing_blob_text(detail: &str) -> (b: bool)
    ensures
        b == missing_blob_text(detail@),
{
    let chars = chars_of(detail);
    let lines = lines_of(chars.as_slice());
    let prefix = chars_of("fatal: path '");
    let absent = chars_of(" does not exist in '");
    let untracked = chars_of(" exists on disk, but not in '");
    let mut k: usize = 0;
    while k < lines.len()
        invariant
            lines.deep_view() == lines_seq(detail@),
            prefix@ == "fatal: path '"@,
            absent@ == " does not exist in '"@,
            untracked@ == " exists on disk, but not in '"@,
            k <= lines@.len(),
            forall|j: int| 0 <= j < k ==> !missing_blob_line(#[trigger] lines_seq(detail@)[j]),
        decreases lines@.len() - k,
    {
        let t = trim_chars(lines[k].as_slice());
        assert(lines.deep_view()[k as int] == lines@[k as int]@);
        if starts_with(t.as_slice(), prefix.as_slice()) && (find_seq(
            t.as_slice(),
            absent.as_slice(),
        ).is_some() || find_seq(t.as_slice(), untracked.as_slice()).is_some()) {
            assert(missing_blob_line(lines_seq(detail@)[k as int]));
            return true;
        }
        k = k + 1;
    }
    false
}

/// Whether Git's standard error output says that a path does not exist in a revision.
pub fn is_missing_blob_diagnostic(stderr: &[u8]) -> (b: bool)
    ensures
        b == missing_blob_text(lossy_utf8(stderr@)),
{
    let detail = utf8_lossy(stderr);
    is_missing_blob_text(detail.as_str())
}

/// A path that the change analysis follows: a relative Rust source or Cargo manifest.
pub open spec fn supported_changed_path(path: Seq<char>) -> bool {
    relative_path(path) && (has_suffix(path, ".rs"@) || has_suffix(path, "Cargo.toml"@))
}

pub fn is_supported_changed_path(path: &str) -> (b: bool)
    ensures
        b == supported_changed_path(path@),
{
    let chars = chars_of(path);
    let rs = chars_of(".rs");
    let manifest = chars_of("Cargo.toml");
    is_relative_path(path) && (ends_with(chars.as_slice(), rs.as_slice()) || ends_with(
        chars.as_slice(),
        manifest.as_slice(),
    ))
}

/// Why a name-status listing could not be read.
pub enum NameStatusFault {
    /// A status field is not UTF-8.
    Status(Seq<u8>),
    /// A path field is not UTF-8.
    Path(Seq<u8>),
    /// A rename or copy record ends before its source path.
    MissingSource,
    /// A rename or copy record ends before its destination path.
    MissingDestination,
}

/// What a name-status listing says about the head revision.
pub struct ChangeSummary {
    /// Changed Rust source paths.
    pub rust: Set<Seq<char>>,
    /// Changed Cargo manifest paths.
    pub cargo: Set<Seq<char>>,
    /// Head path to base path of each followed rename.
    pub renamed: Map<Seq<char>, Seq<char>>,
}

pub open spec fn empty_summary() -> ChangeSummary {
    ChangeSummary { rust: Set::empty(), cargo: Set::empty(), renamed: Map::empty() }
}

/// `a` followed by `b`: a later rename of the same head path wins.
pub open spec fn merge_summary(a: ChangeSummary, b: ChangeSummary) -> ChangeSummary {
    ChangeSummary {
        rust: a.rust.union(b.rust),
        cargo: a.cargo.union(b.cargo),
        renamed: a.renamed.union_prefer_right(b.renamed),
    }
}

/// The effect of a rename (`R`) or copy (`C`) record from `old` to `new`.
pub open spec fn moved_record(status: Seq<char>, old: Seq<char>, new: Seq<char>) -> ChangeSummary {
    if !supported_changed_path(new) {
        empty_summary()
    } else {
        let rs = has_suffix(new, ".rs"@);
        let follow = status[0] == 'R' && ((rs && has_suffix(old, ".rs"@))
            || supported_changed_path(old));
        ChangeSummary {
            rust: if rs { set![new] } else { Set::empty() },
            cargo: if rs { Set::empty() } else { set![new] },
            renamed: if follow { map![new => old] } else { Map::empty() },
        }
    }
}

/// The effect of any other record naming `path`.
pub open spec fn plain_record(path: Seq<char>) -> ChangeSummary {
    if !supported_changed_path(path) {
        empty_summary()
    } else {
        ChangeSummary {
            rust: if has_suffix(path, ".rs"@) { set![path] } else { Set::empty() },
            cargo: if has_suffix(path, "Cargo.toml"@) { set![path] } else { Set::empty() },
            renamed: Map::empty(),
        }
    }
}

/// A `git diff --name-status -z` listing read from field `i` on: empty status fields are
/// skipped, a status starting with `R` or `C` takes two paths, any other one path.
pub open spec fn name_status_from(f: Seq<Seq<u8>>, i: int) -> Result<ChangeSummary, NameStatusFault>
    decreases f.len() - i,
{
    if i < 0 || i >= f.len() {
        Ok(empty_summary())
    } else if f[i].len() == 0 {
        name_status_from(f, i + 1)
    } else if !valid_utf8(f[i]) {
        Err(NameStatusFault::Status(f[i]))
    } else {
        let status = decode_utf8(f[i]);
        if status[0] == 'R' || status[0] == 'C' {
            if i + 1 >= f.len() {
                Err(NameStatusFault::MissingSource)
            } else if i + 2 >= f.len() {
                Err(NameStatusFault::MissingDestination)
            } else if !valid_utf8(f[i + 1]) {
                Err(NameStatusFault::Path(f[i + 1]))
            } else if !valid_utf8(f[i + 2]) {
                Err(NameStatusFault::Path(f[i + 2]))
            } else {
                match name_status_from(f, i + 3) {
                    Err(e) => Err(e),
                    Ok(rest) => Ok(
                        merge_summary(
                            moved_record(status, decode_utf8(f[i + 1]), decode_utf8(f[i + 2])),
                            rest,
                        ),
                    ),
                }
            }
        } else if i + 1 >= f.len() {
            Ok(empty_summary())
        } else if !valid_utf8(f[i + 1]) {
            Err(NameStatusFault::Path(f[i + 1]))
        } else {
            match name_status_from(f, i + 2) {
                Err(e) => Err(e),
                Ok(rest) => Ok(merge_summary(plain_record(decode_utf8(f[i + 1])), rest)),
            }
        }
    }
}

/// The error with which a fault is reported.
pub open spec fn fault_error(e: AppError, fault: NameStatusFault) -> bool {
    match fault {
        NameStatusFault::Status(b) => e matches AppError::Utf8 { subject, detail } && subject@
            == "Git status"@ && detail@ == utf8_error_text(b),
        NameStatusFault::Path(b) => e matches AppError::Utf8 { subject, detail } && subject@
            == "Git path"@ && detail@ == utf8_error_text(b),
        NameStatusFault::MissingSource => is_invalid(e, "Git diff"@, "missing rename source path"@),
        NameStatusFault::MissingDestination => is_invalid(
            e,
            "Git diff"@,
            "missing rename destination path"@,
        ),
    }
}

/// Changed head paths and rename sources for a `base..head` diff.
pub struct ChangedPaths {
    /// Changed Rust source paths, sorted and unique.
    pub paths: Vec<String>,
    /// Changed Cargo manifest paths, sorted and unique.
    pub cargo_paths: Vec<String>,
    /// Head path and base path of each followed rename; a later pair for the same head
    /// path replaces an earlier one.
    pub renamed_from: Vec<(String, String)>,
}

/// The map that inserting the pairs in order builds.
pub open spec fn pairs_map(v: Seq<(String, String)>) -> Map<Seq<char>, Seq<char>>
    decreases v.len(),
{
    if v.len() == 0 {
        Map::empty()
    } else {
        pairs_map(v.drop_last()).insert(v.last().0@, v.last().1@)
    }
}

proof fn lemma_merge_assoc(a: ChangeSummary, b: ChangeSummary, c: ChangeSummary)
    ensures
        merge_summary(merge_summary(a, b), c) == merge_summary(a, merge_summary(b, c)),
{
    assert(merge_summary(merge_summary(a, b), c).rust =~= merge_summary(a, merge_summary(b, c)).rust);
    assert(merge_summary(merge_summary(a, b), c).cargo =~= merge_summary(a, merge_summary(b, c)).cargo);
    assert(merge_summary(merge_summary(a, b), c).renamed =~= merge_summary(a, merge_summary(b, c)).renamed);
}

proof fn lemma_merge_empty(a: ChangeSummary)
    ensures
        merge_summary(empty_summary(), a) == a,
        merge_summary(a, empty_summary()) == a,
{
    assert(merge_summary(empty_summary(), a).rust =~= a.rust);
    assert(merge_summary(empty_summary(), a).cargo =~= a.cargo);
    assert(merge_summary(empty_summary(), a).renamed =~= a.renamed);
    assert(merge_summary(a, empty_summary()).rust =~= a.rust);
    assert(merge_summary(a, empty_summary()).cargo =~= a.cargo);
    assert(merge_summary(a, empty_summary()).renamed =~= a.renamed);
}

/// The summary that the collected vectors describe.
pub open spec fn collected(rust: Seq<String>, cargo: Seq<String>, renamed: Seq<(String, String)>) -> ChangeSummary {
    ChangeSummary {
        rust: string_views(rust).to_set(),
        cargo: string_views(cargo).to_set(),
        renamed: pairs_map(renamed),
    }
}

proof fn lemma_push_view(v: Seq<String>, x: String)
    ensures
        string_views(v.push(x)).to_set() == string_views(v).to_set().insert(x@),
{
    let a = string_views(v);
    let b = string_views(v.push(x));
    assert(b =~= a.push(x@));
    assert forall|y: Seq<char>| b.contains(y) <==> a.contains(y) || y == x@ by {
        if b.contains(y) && y != x@ {
            let w = choose|w: int| 0 <= w < b.len() && b[w] == y;
            assert(a[w] == y);
        }
        if a.contains(y) {
            let w = choose|w: int| 0 <= w < a.len() && a[w] == y;
            assert(b[w] == y);
        }
        if y == x@ {
            assert(b[a.len() as int] == y);
        }
    }
    assert(b.to_set() =~= a.to_set().insert(x@));
}

/// Reads a `git diff --name-status -z` listing into the changed Rust and manifest paths
/// and the rename sources of the head revision.
pub fn parse_name_status(output: &[u8]) -> (r: AppResult<ChangedPaths>)
    ensures
        match r {
            Ok(c) => {
                let f = split_seq(output@, 0u8);
                &&& name_status_from(f, 0) matches Ok(summary)
                &&& string_views(c.paths@).to_set() == summary.rust
                &&& strictly_sorted(string_views(c.paths@))
                &&& string_views(c.cargo_paths@).to_set() == summary.cargo
                &&& strictly_sorted(string_views(c.cargo_paths@))
                &&& pairs_map(c.renamed_from@) == summary.renamed
            },
            Err(e) => name_status_from(split_seq(output@, 0u8), 0) matches Err(fault)
                && fault_error(e, fault),
        },
{
    let fields = split_bytes(output, 0u8);
    let ghost f = fields.deep_view();
    let mut rust: Vec<String> = Vec::new();
    let mut cargo: Vec<String> = Vec::new();
    let mut renamed: Vec<(String, String)> = Vec::new();
    let rs = chars_of(".rs");
    let manifest = chars_of("Cargo.toml");
    let mut i: usize = 0;
    proof {
        lemma_merge_empty(name_status_from(f, 0)->Ok_0);
        assert(collected(rust@, cargo@, renamed@).rust =~= Set::empty());
        assert(collected(rust@, cargo@, renamed@).cargo =~= Set::empty());
        assert(collected(rust@, cargo@, renamed@).renamed =~= Map::empty());
    }
    while i < fields.len()
        invariant
            f == fields.deep_view(),
            f == split_seq(output@, 0u8),
            rs@ == ".rs"@,
            manifest@ == "Cargo.toml"@,
            i <= f.len(),
            name_status_from(f, 0) == match name_status_from(f, i as int) {
                Err(e) => Err(e),
                Ok(rest) => Ok(merge_summary(collected(rust@, cargo@, renamed@), rest)),
            },
        decreases f.len() - i,
    {
        let ghost acc = collected(rust@, cargo@, renamed@);
        assert(f[i as int] == fields@[i as int]@);
        if fields[i].len() == 0 {
            i = i + 1;
            continue;
        }
        let status = match utf8_text(fields[i].as_slice()) {
            Ok(text) => text,
            Err(message) => {
                return Err(AppError::Utf8 { subject: "Git status", detail: message });
            },
        };
        let status_chars = chars_of(status.as_str());
        assert(status_chars@.len() > 0) by {
            assert(decode_utf8(f[i as int]).len() > 0) by {
                lemma_decode_nonempty(f[i as int]);
            }
        }
        if status_chars[0] == 'R' || status_chars[0] == 'C' {
            if i + 1 >= fields.len() {
                return Err(AppError::invalid("Git diff", "missing rename source path".to_owned()));
            }
            if i + 2 >= fields.len() {
                return Err(
                    AppError::invalid("Git diff", "missing rename destination path".to_owned()),
                );
            }
            assert(f[i + 1] == fields@[i + 1]@);
            assert(f[i + 2] == fields@[i + 2]@);
            let old_path = match utf8_text(fields[i + 1].as_slice()) {
                Ok(text) => text,
                Err(message) => {
                    return Err(AppError::Utf8 { subject: "Git path", detail: message });
                },
            };
            let new_path = match utf8_text(fields[i + 2].as_slice()) {
                Ok(text) => text,
                Err(message) => {
                    return Err(AppError::Utf8 { subject: "Git path", detail: message });
                },
            };
            let ghost rec = moved_record(status@, old_path@, new_path@);
            if is_supported_changed_path(new_path.as_str()) {
                let new_chars = chars_of(new_path.as_str());
                let old_chars = chars_of(old_path.as_str());
                let new_rs = ends_with(new_chars.as_slice(), rs.as_slice());
                let follow = status_chars[0] == 'R' && ((new_rs && ends_with(
                    old_chars.as_slice(),
                    rs.as_slice(),
                )) || is_supported_changed_path(old_path.as_str()));
                let ghost before = collected(rust@, cargo@, renamed@);
                if new_rs {
                    proof {
                        lemma_push_view(rust@, new_path);
                    }
                    rust.push(new_path.clone());
                } else {
                    proof {
                        lemma_push_view(cargo@, new_path);
                    }
                    cargo.push(new_path.clone());
                }
                if follow {
                    let ghost prev = renamed@;
                    renamed.push((new_path, old_path));
                    assert(renamed@.drop_last() =~= prev);
                }
                proof {
                    let after = collected(rust@, cargo@, renamed@);
                    assert(after.rust =~= merge_summary(before, rec).rust);
                    assert(after.cargo =~= merge_summary(before, rec).cargo);
                    assert(after.renamed =~= merge_summary(before, rec).renamed);
                }
            } else {
                proof {
                    lemma_merge_empty(acc);
                }
            }
            proof {
                lemma_merge_assoc(acc, rec, name_status_from(f, i + 3)->Ok_0);
            }
            i = i + 3;
        } else {
            if i + 1 >= fields.len() {
                proof {
                    lemma_merge_empty(acc);
                }
                i = fields.len();
                assert(name_status_from(f, i as int) == Ok::<ChangeSummary, NameStatusFault>(empty_summary()));
            } else {
                assert(f[i + 1] == fields@[i + 1]@);
                let path = match utf8_text(fields[i + 1].as_slice()) {
                    Ok(text) => text,
                    Err(message) => {
                        return Err(AppError::Utf8 { subject: "Git path", detail: message });
                    },
                };
                let ghost rec = plain_record(path@);
                let ghost before = collected(rust@, cargo@, renamed@);
                if is_supported_changed_path(path.as_str()) {
                    let path_chars = chars_of(path.as_str());
                    if ends_with(path_chars.as_slice(), rs.as_slice()) {
                        proof {
                            lemma_push_view(rust@, path);
                        }
                        rust.push(path.clone());
                    }
                    if ends_with(path_chars.as_slice(), manifest.as_slice()) {
                        proof {
                            lemma_push_view(cargo@, path);
                        }
                        cargo.push(path.clone());
                    }
                }
                proof {
                    let after = collected(rust@, cargo@, renamed@);
                    assert(after.rust =~= merge_summary(before, rec).rust);
                    assert(after.cargo =~= merge_summary(before, rec).cargo);
                    assert(after.renamed =~= merge_summary(before, rec).renamed);
                    lemma_merge_assoc(acc, rec, name_status_from(f, i + 2)->Ok_0);
                }
                i = i + 2;
            }
        }
    }
    proof {
        lemma_merge_empty(collected(rust@, cargo@, renamed@));
    }
    let paths = sort_unique(rust);
    let cargo_paths = sort_unique(cargo);
    Ok(ChangedPaths { paths, cargo_paths, renamed_from: renamed })
}

proof fn lemma_decode_nonempty(b: Seq<u8>)
    requires
        b.len() > 0,
        valid_utf8(b),
    ensures
        decode_utf8(b).len() > 0,
{
    reveal_with_fuel(decode_utf8, 2);
}

} // verus!

//! What the library makes of the Git command's results: command success, text, optional
//! blobs, and the Rust paths of file listings.
use vstd::prelude::*;
use crate::diff::{is_missing_blob_diagnostic, missing_blob_text};
use crate::encoding::{lossy_utf8, utf8_error_text, utf8_lossy, utf8_text};
use crate::error::{is_invalid, AppError, AppResult};
use crate::order::{lemma_is_sorted_list, sort_unique, sorted_list, strictly_sorted, string_views};
use crate::path::{is_relative_path, relative_path};
use crate::text::{chars_of, debug_quoted, debug_str, ends_with, has_suffix, lines_of, lines_seq, string_of, trim_chars, trim_seq};
use vstd::utf8::{decode_utf8, valid_utf8};

verus! {

/// `e` is a Git error of this operation with this detail.
pub open spec fn is_git_error(e: AppError, operation: Seq<char>, detail: Seq<char>) -> bool {
    e matches AppError::Git { operation: o, detail: d } && o@ == operation && d@ == detail
}

/// The diagnostic of a failed command: its standard error, decoded leniently and trimmed.
pub open spec fn diagnostic(stderr: Seq<u8>) -> Seq<char> {
    trim_seq(lossy_utf8(stderr))
}

fn diagnostic_text(stderr: &[u8]) -> (s: String)
    ensures
        s@ == diagnostic(stderr@),
{
    let text = utf8_lossy(stderr);
    let chars = chars_of(text.as_str());
    let t = trim_chars(chars.as_slice());
    string_of(t.as_slice())
}

/// A command's standard output when it succeeded; otherwise a `command` error with its
/// diagnostic.
pub fn command_output(success: bool, stdout: Vec<u8>, stderr: &[u8]) -> (r: AppResult<Vec<u8>>)
    ensures
        success ==> (r matches Ok(out) && out@ == stdout@),
        !success ==> (r matches Err(e) && is_git_error(e, "command"@, diagnostic(stderr@))),
{
    if success {
        Ok(stdout)
    } else {
        Err(AppError::Git { operation: "command", detail: diagnostic_text(stderr) })
    }
}

/// `e` is a UTF-8 error of this subject for these bytes.
pub open spec fn is_utf8_error(e: AppError, subject: Seq<char>, bytes: Seq<u8>) -> bool {
    e matches AppError::Utf8 { subject: s, detail: d } && s@ == subject && d@ == utf8_error_text(
        bytes,
    )
}

/// A command's output as text.
pub fn command_text(stdout: &[u8]) -> (r: AppResult<String>)
    ensures
        valid_utf8(stdout@) ==> (r matches Ok(s) && s@ == decode_utf8(stdout@)),
        !valid_utf8(stdout@) ==> (r matches Err(e) && is_utf8_error(e, "Git output"@, stdout@)),
{
    match utf8_text(stdout) {
        Ok(s) => Ok(s),
        Err(detail) => Err(AppError::Utf8 { subject: "Git output", detail }),
    }
}

/// A revision that Git resolved: its output without surrounding whitespace.
pub fn resolved_revision(output: &str) -> (s: String)
    ensures
        s@ == trim_seq(output@),
{
    let chars = chars_of(output);
    let t = trim_chars(chars.as_slice());
    string_of(t.as_slice())
}

/// Accepts a path for a blob read only when it is repository-relative.
pub fn check_git_path(path: &str) -> (r: AppResult<()>)
    ensures
        relative_path(path@) ==> r is Ok,
        !relative_path(path@) ==> (r matches Err(e) && is_invalid(e, "Git path"@, debug_str(path@))),
{
    if is_relative_path(path) {
        Ok(())
    } else {
        Err(AppError::invalid("Git path", debug_quoted(path)))
    }
}

/// What an attempt to show a blob yields: its text when Git succeeded, nothing when Git
/// reports the path absent from the revision, else a Git error with the diagnostic.
pub fn optional_blob(success: bool, stdout: &[u8], stderr: &[u8]) -> (r: AppResult<Option<String>>)
    ensures
        success && valid_utf8(stdout@) ==> (r matches Ok(Some(s)) && s@ == decode_utf8(stdout@)),
        success && !valid_utf8(stdout@) ==> (r matches Err(e) && is_utf8_error(e, "Git blob"@, stdout@)),
        !success && missing_blob_text(lossy_utf8(stderr@)) ==> r matches Ok(None),
        !success && !missing_blob_text(lossy_utf8(stderr@)) ==> (r matches Err(e) && is_git_error(
            e,
            "read optional blob"@,
            diagnostic(stderr@),
        )),
{
    if success {
        return match utf8_text(stdout) {
            Ok(s) => Ok(Some(s)),
            Err(detail) => Err(AppError::Utf8 { subject: "Git blob", detail }),
        };
    }
    if is_missing_blob_diagnostic(stderr) {
        return Ok(None);
    }
    Err(AppError::Git { operation: "read optional blob", detail: diagnostic_text(stderr) })
}

/// A listed path that the analysis reads: a relative path of a Rust source.
pub open spec fn rust_source_path(p: Seq<char>) -> bool {
    has_suffix(p, ".rs"@) && relative_path(p)
}

/// The Rust source paths of a listing with one path per line, in listing order.
pub open spec fn rust_paths_of(listing: Seq<char>) -> Seq<Seq<char>> {
    lines_seq(listing).filter(|p: Seq<char>| rust_source_path(p))
}

/// The Rust source paths of a Git file listing, in its order.
pub fn rust_paths(listing: &str) -> (r: Vec<String>)
    ensures
        string_views(r@) == rust_paths_of(listing@),
{
    let chars = chars_of(listing);
    let lines = lines_of(chars.as_slice());
    let rs = chars_of(".rs");
    let ghost all = lines_seq(listing@);
    let mut r: Vec<String> = Vec::new();
    let mut k: usize = 0;
    assert(all.take(0).filter(|p: Seq<char>| rust_source_path(p)) =~= Seq::<Seq<char>>::empty());
    while k < lines.len()
        invariant
            lines.deep_view() == all,
            rs@ == ".rs"@,
            k <= all.len(),
            string_views(r@) == all.take(k as int).filter(|p: Seq<char>| rust_source_path(p)),
        decreases all.len() - k,
    {
        let line = string_of(lines[k].as_slice());
        assert(lines.deep_view()[k as int] == lines@[k as int]@);
        proof {
            assert(all.take(k + 1).drop_last() =~= all.take(k as int));
            assert(all.take(k + 1).last() == all[k as int]);
            all.take(k as int).lemma_filter_push(all[k as int], |p: Seq<char>| rust_source_path(p));
            assert(all.take(k as int).push(all[k as int]) =~= all.take(k + 1));
        }
        if ends_with(lines[k].as_slice(), rs.as_slice()) && is_relative_path(line.as_str()) {
            let ghost before = r@;
            r.push(line);
            assert(string_views(r@) =~= string_views(before).push(all[k as int]));
        }
        k = k + 1;
    }
    assert(all.take(all.len() as int) =~= all);
    r
}

/// The Rust source paths of the working tree: those of the tracked and untracked listing,
/// with those of the ignored listing when asked for, sorted and without repeats.
pub fn working_tree_paths(visible: &str, ignored: Option<&str>) -> (r: Vec<String>)
    ensures
        string_views(r@) == sorted_list(
            match ignored {
                Some(i) => rust_paths_of(visible@).to_set() + rust_paths_of(i@).to_set(),
                None => rust_paths_of(visible@).to_set(),
            },
        ),
{
    let mut paths = rust_paths(visible);
    let ghost first = string_views(paths@);
    match ignored {
        Some(listing) => {
            let mut more = rust_paths(listing);
            let ghost second = string_views(more@);
            let ghost a = paths@;
            let ghost b = more@;
            paths.append(&mut more);
            assert(string_views(paths@) =~= first + second);
            assert((first + second).to_set() =~= first.to_set() + second.to_set()) by {
                assert forall|x: Seq<char>| (first + second).contains(x) <==> first.contains(x) || second.contains(x) by {
                    if (first + second).contains(x) {
                        let k = choose|k: int| 0 <= k < (first + second).len() && (first + second)[k] == x;
                        if k < first.len() {
                            assert(first[k] == x);
                        } else {
                            assert(second[k - first.len()] == x);
                        }
                    }
                    if first.contains(x) {
                        let k = choose|k: int| 0 <= k < first.len() && first[k] == x;
                        assert((first + second)[k] == x);
                    }
                    if second.contains(x) {
                        let k = choose|k: int| 0 <= k < second.len() && second[k] == x;
                        assert((first + second)[k + first.len()] == x);
                    }
                }
            }
        },
        None => {},
    }
    let r = sort_unique(paths);
    proof {
        lemma_is_sorted_list(string_views(r@));
    }
    r
}

} // verus!

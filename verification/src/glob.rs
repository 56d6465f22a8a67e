use vstd::prelude::*;

verus! {

/// Whether `glob::Pattern::new` accepts the pattern.
pub uninterp spec fn glob_valid(pattern: Seq<char>) -> bool;

/// Whether the compiled pattern matches the path, compared case-sensitively, with
/// separators and leading dots matched by themselves only.
pub uninterp spec fn glob_matches(pattern: Seq<char>, path: Seq<char>) -> bool;

/// Whether a text holds a backslash, which some platforms read as a path separator.
pub open spec fn has_backslash(text: Seq<char>) -> bool {
    text.contains('\\')
}

/// Calls `glob::Pattern::new` and says whether it accepted the pattern. The outcome
/// depends on the pattern alone as long as it holds no backslash.
#[verifier::external_body]
pub(crate) fn pattern_compiles(pattern: &Vec<char>) -> (r: bool)
    ensures
        !has_backslash(pattern@) ==> r == glob_valid(pattern@),
{
    let text: String = pattern.iter().collect();
    glob::Pattern::new(&text).is_ok()
}

/// Compiles the pattern with `glob::Pattern::new` and calls `matches_path_with` on the
/// path, with the options `case_sensitive`, `require_literal_separator` and
/// `require_literal_leading_dot` all set; a pattern that does not compile matches
/// nothing. For a pattern that compiles, the outcome depends on the two texts alone as
/// long as neither holds a backslash.
#[verifier::external_body]
pub(crate) fn pattern_matches(pattern: &Vec<char>, path: &Vec<char>) -> (r: bool)
    ensures
        glob_valid(pattern@) && !has_backslash(pattern@) && !has_backslash(path@) ==> r
            == glob_matches(pattern@, path@),
{
    let text: String = pattern.iter().collect();
    let path: String = path.iter().collect();
    let options = glob::MatchOptions {
        case_sensitive: true,
        require_literal_separator: true,
        require_literal_leading_dot: true,
    };
    match glob::Pattern::new(&text) {
        Ok(p) => p.matches_path_with(std::path::Path::new(&path), options),
        Err(_) => false,
    }
}

/// Whether a glob selects the leaf path `key`: it matches the key without its leading
/// `/`.
pub open spec fn selects(pattern: Seq<char>, key: Seq<char>) -> bool {
    glob_matches(pattern, key.skip(1))
}

} // verus!

//! The source-file name check used by callers that load programs
//! from disk.

use vstd::prelude::*;

verus! {

/// The path names a source file: its last component ends in a `.bf`
/// extension with a non-empty stem.
pub open spec fn has_source_extension(s: Seq<char>) -> bool {
    &&& s.len() >= 4
    &&& s[s.len() - 1] == 'f'
    &&& s[s.len() - 2] == 'b'
    &&& s[s.len() - 3] == '.'
    &&& s[s.len() - 4] != '/'
}

/// Accepts a path exactly when it carries the source-file extension;
/// returns the path unchanged, or a message saying what was wrong.
pub fn source_file_extension(s: &str) -> (r: Result<String, String>)
    ensures
        r is Ok <==> has_source_extension(s@),
        (match r {
            Ok(path) => path@ == s@,
            Err(message) => message@ == "source file extension is not valid"@,
        }),
{
    let chars = collect_path_chars(s);
    let n = chars.len();
    let valid = n >= 4 && chars[n - 1] == 'f' && chars[n - 2] == 'b' && chars[n - 3] == '.'
        && chars[n - 4] != '/';
    if !valid {
        return Err(string_of("source file extension is not valid"));
    }
    Ok(string_of(s))
}

/// Collects the characters of a path, so that the check can address
/// them by index.
fn collect_path_chars(s: &str) -> (r: Vec<char>)
    ensures
        r@ == s@,
{
    let mut v: Vec<char> = Vec::new();
    for c in it: s.chars()
        invariant
            it.seq() == s@,
            v@ =~= s@.take(it.index()),
    {
        v.push(c);
    }
    proof {
        assert(v@ =~= s@);
    }
    v
}

/// An owned copy of a string slice.
fn string_of(s: &str) -> (r: String)
    ensures
        r@ == s@,
{
    s.to_owned()
}

} // verus!

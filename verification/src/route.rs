use vstd::prelude::*;

use vstd::string::StrSliceExecFns;
use vstd::string::StringExecFns;

verus! {

/// There is a `.` somewhere in `s`.
pub open spec fn has_separator(s: Seq<char>) -> bool {
    exists|i: int| 0 <= i < s.len() && s[i] == '.'
}

/// `i` is the position of the last `.` of `s`.
pub open spec fn is_last_separator(s: Seq<char>, i: int) -> bool {
    &&& 0 <= i < s.len()
    &&& s[i] == '.'
    &&& forall|j: int| i < j < s.len() ==> s[j] != '.'
}

/// The wire route for a fully-qualified method name split at position `i`:
/// a slash, the namespace, a slash, the leaf.
pub open spec fn route_for(s: Seq<char>, i: int) -> Seq<char> {
    seq!['/'] + s.subrange(0, i) + seq!['/'] + s.subrange(i + 1, s.len() as int)
}

/// The malformed-name signal: the name held no separator.
#[derive(Debug)]
pub struct MalformedNameError {}

/// Derive the wire route from a resolved method's fully-qualified name
/// `"<package>.<Service>.<Method>"`: split at the last separator into the
/// namespace and the leaf and produce `"/<namespace>/<leaf>"`. The call
/// fails exactly when the name contains no separator, which should not
/// occur for a name sourced from a valid registry.
pub fn method_desc_to_path(full_name: &str) -> (r: Result<String, MalformedNameError>)
    ensures
        r is Ok <==> has_separator(full_name@),
        match r {
            Ok(p) => exists|i: int|
                #[trigger] is_last_separator(full_name@, i) && p@ == route_for(full_name@, i),
            Err(_) => !has_separator(full_name@),
        },
{
    let n = full_name.unicode_len();
    let mut i: usize = n;
    while i > 0
        invariant
            i <= n,
            n == full_name@.len(),
            forall|j: int| i <= j < n ==> full_name@[j] != '.',
        decreases i,
    {
        i -= 1;
        if full_name.get_char(i) == '.' {
            let mut out = "/".to_owned();
            out.append(full_name.substring_char(0, i));
            out.append("/");
            out.append(full_name.substring_char(i + 1, n));
            proof {
                reveal_strlit("/");
                assert(is_last_separator(full_name@, i as int));
                assert(out@ =~= route_for(full_name@, i as int));
            }
            return Ok(out);
        }
    }
    Err(MalformedNameError {})
}

} // verus!

//! Country codes taken from catalog file names.
use vstd::prelude::*;
use vstd::string::StrSliceExecFns;

verus! {

/// The text that `str::to_uppercase` makes of a text.
pub uninterp spec fn upper_of(s: Seq<char>) -> Seq<char>;

/// Relies on `str::to_uppercase`: the result depends on the characters alone.
#[verifier::external_body]
fn to_upper(s: &str) -> (r: String)
    ensures
        r@ == upper_of(s@),
{
    s.to_uppercase()
}

/// `k` is the position of the first `'.'` of `s`, or its length where it has none.
pub open spec fn is_stem_end(s: Seq<char>, k: int) -> bool {
    &&& 0 <= k <= s.len()
    &&& forall|j: int| 0 <= j < k ==> s[j] != '.'
    &&& (k == s.len() || s[k] == '.')
}

/// The country code that a catalog file stands for: its name up to the first
/// `'.'`, in upper case (`de.json` gives `DE`).
pub fn obtain_country_code_from_filepath(file_name: &str) -> (r: String)
    ensures
        exists|k: int| is_stem_end(file_name@, k) && r@ == upper_of(file_name@.subrange(0, k)),
{
    let n = file_name.unicode_len();
    let mut i: usize = 0;
    while i < n
        invariant
            n == file_name@.len(),
            i <= n,
            forall|j: int| 0 <= j < i ==> file_name@[j] != '.',
        ensures
            i <= n,
            forall|j: int| 0 <= j < i ==> file_name@[j] != '.',
            i == n || file_name@[i as int] == '.',
        decreases n - i,
    {
        if file_name.get_char(i) == '.' {
            break;
        }
        i = i + 1;
    }
    let stem = file_name.substring_char(0, i);
    let r = to_upper(stem);
    assert(is_stem_end(file_name@, i as int));
    r
}

} // verus!

//! The rules of a driver that checks the decoder against a directory
//! of cases: a case is a file with its content, beside a file of the
//! same name with `.gz` appended that holds its gzip member.

use crate::error::GzipError;
use crate::gzip::{gunzipped, ungzip};
use vstd::prelude::*;

verus! {

/// The end of the name of a compressed file: `.gz`.
pub const GZ_SUFFIX: [u8; 3] = [0x2e, 0x67, 0x7a];

/// `name` ends with `suffix`.
pub open spec fn ends_with(name: Seq<u8>, suffix: Seq<u8>) -> bool {
    &&& suffix.len() <= name.len()
    &&& name.subrange(name.len() - suffix.len(), name.len() as int) == suffix
}

/// Whether a file of this name is a case: every file is but the
/// compressed ones.
pub fn is_case_name(name: &[u8]) -> (r: bool)
    ensures
        r == !ends_with(name@, GZ_SUFFIX@),
{
    let n = name.len();
    let is_gz = n >= 3 && name[n - 3] == GZ_SUFFIX[0] && name[n - 2] == GZ_SUFFIX[1] && name[n - 1]
        == GZ_SUFFIX[2];
    proof {
        if n >= 3 {
            let tail = name@.subrange(n - 3, n as int);
            assert(tail[0] == name@[n - 3] && tail[1] == name@[n - 2] && tail[2] == name@[n - 1]);
            if is_gz {
                assert(tail =~= GZ_SUFFIX@);
            }
        }
    }
    !is_gz
}

/// Whether two slices hold the same bytes.
fn same_bytes(a: &[u8], b: &[u8]) -> (r: bool)
    ensures
        r == (a@ == b@),
{
    if a.len() != b.len() {
        return false;
    }
    let mut i: usize = 0;
    while i < a.len()
        invariant
            i <= a@.len() == b@.len(),
            a@.subrange(0, i as int) == b@.subrange(0, i as int),
        decreases a@.len() - i,
    {
        if a[i] != b[i] {
            assert(a@[i as int] != b@[i as int]);
            return false;
        }
        assert(a@.subrange(0, i + 1) =~= a@.subrange(0, i as int).push(a@[i as int]));
        assert(b@.subrange(0, i + 1) =~= b@.subrange(0, i as int).push(b@[i as int]));
        i += 1;
    }
    assert(a@ =~= a@.subrange(0, i as int));
    assert(b@ =~= b@.subrange(0, i as int));
    true
}

/// Decodes the member `compressed` and says whether its content is
/// `expected`.
pub fn check_case(compressed: &[u8], expected: &[u8]) -> (r: Result<bool, GzipError>)
    ensures
        match gunzipped(compressed@) {
            Ok(data) => r == Ok::<bool, GzipError>(data == expected@),
            Err(e) => r == Err::<bool, GzipError>(e),
        },
{
    match ungzip(compressed) {
        Ok(gz) => Ok(same_bytes(gz.data.as_slice(), expected)),
        Err(e) => Err(e),
    }
}

} // verus!

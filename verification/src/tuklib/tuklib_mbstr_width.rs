use vstd::prelude::*;
use vstd::string::StringSliceAdditionalSpecFns;

verus! {

/// Width of a string in columns: `bytes` where that is given, else the
/// number of bytes of the string, one column each.
pub fn tuklib_mbstr_width(str_t: &str, bytes: usize) -> (width: usize)
    ensures
        width == (if bytes != 0 {
            bytes
        } else {
            str_t.spec_bytes().len() as usize
        }),
{
    let len: usize = str_t.len();
    if bytes != 0 {
        return bytes;
    }
    len
}

} // verus!

use vstd::prelude::*;
use vstd::string::StringSliceAdditionalSpecFns;
use crate::tuklib::tuklib_mbstr_width::tuklib_mbstr_width;

verus! {

/// The field width to print a string with so that it takes at least
/// `columns_min` columns: zero where the string is wider than that,
/// else `columns_min`, one byte being one column.
pub fn tuklib_mbstr_fw(str: &str, columns_min: i32) -> (fw: i32)
    ensures
        fw == (if columns_min >= 0 && (str.spec_bytes().len() as usize) > columns_min {
            0
        } else {
            columns_min
        }),
{
    let width: usize = tuklib_mbstr_width(str, 0);
    if columns_min < 0 {
        return columns_min;
    }
    if width > columns_min as usize {
        return 0;
    }
    columns_min
}

} // verus!

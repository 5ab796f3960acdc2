//! The path model.
//!
//! A path is a plain string: components separated by `'/'`, compared
//! character for character. The file name is everything after the last
//! separator; the extension is everything after the last dot of the file
//! name, provided that dot is not its first character.

use vstd::prelude::*;
use crate::text::suffix_after_last;

verus! {

/// The file name of a path: the part after the last `'/'`, or the whole
/// path when there is no separator.
pub open spec fn file_name_of(p: Seq<char>) -> Seq<char> {
    suffix_after_last(p, '/')
}

/// Whether a path carries a usable file name: not empty and not one of the
/// relative components `.` and `..`.
pub open spec fn has_file_name(p: Seq<char>) -> bool {
    let n = file_name_of(p);
    n.len() != 0 && n != seq!['.'] && n != seq!['.', '.']
}

/// The extension of a path: the part of the file name after its last dot.
/// A name without a dot, or whose only dot is the leading character (a
/// hidden file), has no extension; a name ending in a dot has the empty one.
pub open spec fn ext_of(p: Seq<char>) -> Option<Seq<char>> {
    let n = file_name_of(p);
    if exists|i: int| 1 <= i < n.len() && n[i] == '.' {
        Option::Some(suffix_after_last(n, '.'))
    } else {
        Option::None
    }
}

} // verus!

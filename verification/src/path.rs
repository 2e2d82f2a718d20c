//! The name of the output file.

use vstd::prelude::*;
use vstd::string::{StrSliceExecFns, StringExecFns};

verus! {

/// The suffix of a source file name.
pub open spec fn source_suffix() -> Seq<char> {
    ".phi"@
}

/// The suffix of an assembly file name.
pub open spec fn assembly_suffix() -> Seq<char> {
    ".asm"@
}

/// Whether `s` ends with `suffix`.
pub open spec fn ends_with(s: Seq<char>, suffix: Seq<char>) -> bool {
    suffix.len() <= s.len() && s.skip(s.len() - suffix.len()) == suffix
}

/// The output name for the input name `path`: the source suffix at the end
/// of `path` replaced by the assembly suffix. A name without the source
/// suffix is its own output name.
pub open spec fn output_name(path: Seq<char>) -> Seq<char> {
    if ends_with(path, source_suffix()) {
        path.take(path.len() - source_suffix().len()) + assembly_suffix()
    } else {
        path
    }
}

/// Derives the name of the output file from the name of the input file.
///
/// Only a suffix is replaced: `a.phi.phi` gives `a.phi.asm`. A name that
/// does not end with the source suffix is returned unchanged, so the output
/// then goes to the input file itself.
pub fn output_path(path: &str) -> (out: String)
    ensures
        out@ == output_name(path@),
{
    proof {
        reveal_strlit(".phi");
    }
    let n = path.unicode_len();
    if n >= 4 && path.get_char(n - 4) == '.' && path.get_char(n - 3) == 'p' && path.get_char(n - 2)
        == 'h' && path.get_char(n - 1) == 'i' {
        assert(path@.skip(n - 4) =~= source_suffix());
        let mut out = String::from_str(path.substring_char(0, n - 4));
        out.append(".asm");
        assert(out@ =~= output_name(path@));
        out
    } else {
        proof {
            if ends_with(path@, source_suffix()) {
                let tail = path@.skip(n - 4);
                assert(tail[0] == path@[n - 4]);
                assert(tail[1] == path@[n - 3]);
                assert(tail[2] == path@[n - 2]);
                assert(tail[3] == path@[n - 1]);
            }
        }
        String::from_str(path)
    }
}

} // verus!

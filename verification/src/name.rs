//! Fragment names: the dotfile rule and the extension rule.

use crate::bytes::{byte_strings, bytes_eq};
use vstd::prelude::*;

verus! {

/// The byte `.`.
pub const DOT: u8 = 46;

/// A hidden name starts with a `.`.
pub open spec fn hidden(name: Seq<u8>) -> bool {
    name.len() > 0 && name[0] == DOT
}

/// `ext` is the extension of `name`: the text after the final `.` of `name`.
/// So `name` ends in a `.` followed by `ext`, and `ext` holds no `.`.
pub open spec fn has_extension(name: Seq<u8>, ext: Seq<u8>) -> bool {
    &&& ext.len() < name.len()
    &&& name[name.len() - ext.len() - 1] == DOT
    &&& name.skip(name.len() - ext.len()) == ext
    &&& !ext.contains(DOT)
}

/// A name passes the extension rule when no extension is asked for, or when
/// its extension is, byte for byte, one of those allowed.
pub open spec fn extension_allowed(name: Seq<u8>, allowed: Seq<Seq<u8>>) -> bool {
    allowed.len() == 0 || exists|k: int|
        0 <= k < allowed.len() && has_extension(name, #[trigger] allowed[k])
}

/// A name is visible to a scan when it passes the dotfile rule and the
/// extension rule. An entry whose name is not visible is neither taken up nor
/// able to mask another.
pub open spec fn visible(name: Seq<u8>, allowed: Seq<Seq<u8>>, ignore_dotfiles: bool) -> bool {
    &&& !(ignore_dotfiles && hidden(name))
    &&& extension_allowed(name, allowed)
}

/// A name has at most one extension.
pub proof fn lemma_extension_unique(name: Seq<u8>, e1: Seq<u8>, e2: Seq<u8>)
    requires
        has_extension(name, e1),
        has_extension(name, e2),
    ensures
        e1 == e2,
{
    // the `.` in front of the shorter one would lie inside the longer one
    if e1.len() < e2.len() {
        assert(e2[e2.len() - e1.len() - 1] == DOT);
    } else if e2.len() < e1.len() {
        assert(e1[e1.len() - e2.len() - 1] == DOT);
    }
}

/// A name has an extension exactly when it holds a `.`.
pub proof fn lemma_extension_exists(name: Seq<u8>)
    ensures
        name.contains(DOT) <==> exists|ext: Seq<u8>| has_extension(name, ext),
{
    if name.contains(DOT) {
        name.index_of_last_ensures(DOT);
        let last: int = name.index_of_last(DOT).unwrap();
        let ext = name.skip(last + 1);
        assert forall|j: int| 0 <= j < ext.len() implies ext[j] != DOT by {
            assert(ext[j] == name[last + 1 + j]);
        }
        assert(has_extension(name, ext));
    }
}

/// Whether `name` starts with a `.`.
pub fn is_hidden(name: &[u8]) -> (out: bool)
    ensures
        out == hidden(name@),
{
    name.len() > 0 && name[0] == DOT
}

/// The extension of `name`: what follows its final `.`, or `None` when the
/// name holds no `.`.
pub fn extension(name: &[u8]) -> (out: Option<&[u8]>)
    ensures
        out is Some <==> name@.contains(DOT),
        out matches Some(ext) ==> has_extension(name@, ext@),
{
    let mut i: usize = name.len();
    while i > 0
        invariant
            i <= name.len(),
            forall|j: int| i <= j < name.len() ==> name@[j] != DOT,
        decreases i,
    {
        i -= 1;
        if name[i] == DOT {
            let ext = vstd::slice::slice_subrange(name, i + 1, name.len());
            proof {
                assert forall|j: int| 0 <= j < ext@.len() implies ext@[j] != DOT by {
                    assert(ext@[j] == name@[i + 1 + j]);
                }
            }
            return Some(ext);
        }
    }
    None
}

/// Whether `name` passes the extension rule for the extensions in `allowed`
/// (bare, without the `.`; none at all lets every name pass).
pub fn has_allowed_extension(name: &[u8], allowed: &[Vec<u8>]) -> (out: bool)
    ensures
        out == extension_allowed(name@, byte_strings(allowed@)),
{
    if allowed.len() == 0 {
        return true;
    }
    let ghost wanted = byte_strings(allowed@);
    match extension(name) {
        None => {
            proof {
                lemma_extension_exists(name@);
            }
            false
        },
        Some(ext) => {
            let mut k: usize = 0;
            while k < allowed.len()
                invariant
                    k <= allowed.len(),
                    wanted == byte_strings(allowed@),
                    has_extension(name@, ext@),
                    forall|j: int| 0 <= j < k ==> !has_extension(name@, #[trigger] wanted[j]),
                decreases allowed.len() - k,
            {
                if bytes_eq(ext, allowed[k].as_slice()) {
                    assert(wanted[k as int] == ext@);
                    return true;
                }
                proof {
                    if has_extension(name@, wanted[k as int]) {
                        lemma_extension_unique(name@, ext@, wanted[k as int]);
                    }
                }
                k += 1;
            }
            false
        },
    }
}

/// Whether an entry called `name` is visible to a scan with these settings.
pub fn is_visible(name: &[u8], allowed: &[Vec<u8>], ignore_dotfiles: bool) -> (out: bool)
    ensures
        out == visible(name@, byte_strings(allowed@), ignore_dotfiles),
{
    if ignore_dotfiles && is_hidden(name) {
        return false;
    }
    has_allowed_extension(name, allowed)
}

} // verus!

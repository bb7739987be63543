//! Telling RAW files from other files by name.

use vstd::prelude::*;
use vstd::string::StrSliceExecFns;

verus! {

/// A character with the upper-case letters of ASCII turned to lower case.
pub open spec fn ascii_lower(c: char) -> char {
    if 'A' <= c && c <= 'Z' {
        ((c as u8) + 32) as char
    } else {
        c
    }
}

/// `name` is one of the file extensions that camera RAW formats use, in lower
/// case.
pub open spec fn is_raw_name(name: Seq<char>) -> bool {
    name == "3fr"@
        || name == "ari"@
        || name == "arw"@
        || name == "bay"@
        || name == "braw"@
        || name == "cap"@
        || name == "cr2"@
        || name == "cr3"@
        || name == "cri"@
        || name == "crw"@
        || name == "dcr"@
        || name == "dcs"@
        || name == "dng"@
        || name == "drf"@
        || name == "eip"@
        || name == "erf"@
        || name == "fff"@
        || name == "gpr"@
        || name == "iiq"@
        || name == "jxs"@
        || name == "k25"@
        || name == "kdc"@
        || name == "mdc"@
        || name == "mef"@
        || name == "mos"@
        || name == "mrw"@
        || name == "nef"@
        || name == "nrw"@
        || name == "orf"@
        || name == "pef"@
        || name == "ptx"@
        || name == "pxn"@
        || name == "r3d"@
        || name == "raf"@
        || name == "raw"@
        || name == "rw2"@
        || name == "rwl"@
        || name == "rwz"@
        || name == "sr2"@
        || name == "srf"@
        || name == "srw"@
        || name == "tco"@
        || name == "x3f"@
}

/// `ext` is the file extension of a camera RAW format, whatever the case of
/// its ASCII letters.
pub open spec fn is_raw_extension_text(ext: Seq<char>) -> bool {
    is_raw_name(ext.map_values(|c: char| ascii_lower(c)))
}

/// Tells whether `text` reads the same as `literal`.
fn same_text(text: &Vec<char>, literal: &str) -> (same: bool)
    ensures
        same == (text@ == literal@),
{
    let len = literal.unicode_len();
    if len != text.len() {
        return false;
    }
    let mut i: usize = 0;
    while i < len
        invariant
            i <= len,
            len == literal@.len(),
            len == text@.len(),
            forall|j: int| 0 <= j < i ==> text@[j] == literal@[j],
        decreases len - i,
    {
        if literal.get_char(i) != text[i] {
            return false;
        }
        i += 1;
    }
    assert(text@ =~= literal@);
    true
}

/// Tells whether `ext` is the file extension of a camera RAW format. The case
/// of ASCII letters does not matter.
pub fn is_raw_extension(ext: &str) -> (raw: bool)
    ensures
        raw == is_raw_extension_text(ext@),
{
    let len = ext.unicode_len();
    let mut lowered: Vec<char> = Vec::new();
    let mut i: usize = 0;
    while i < len
        invariant
            i <= len,
            len == ext@.len(),
            lowered@.len() == i,
            forall|j: int| 0 <= j < i ==> lowered@[j] == ascii_lower(ext@[j]),
        decreases len - i,
    {
        let c = ext.get_char(i);
        if 'A' <= c && c <= 'Z' {
            lowered.push(((c as u8) + 32) as char);
        } else {
            lowered.push(c);
        }
        i += 1;
    }
    assert(lowered@ =~= ext@.map_values(|c: char| ascii_lower(c)));
    let ghost name = lowered@;
    same_text(&lowered, "3fr")
        || same_text(&lowered, "ari")
        || same_text(&lowered, "arw")
        || same_text(&lowered, "bay")
        || same_text(&lowered, "braw")
        || same_text(&lowered, "cap")
        || same_text(&lowered, "cr2")
        || same_text(&lowered, "cr3")
        || same_text(&lowered, "cri")
        || same_text(&lowered, "crw")
        || same_text(&lowered, "dcr")
        || same_text(&lowered, "dcs")
        || same_text(&lowered, "dng")
        || same_text(&lowered, "drf")
        || same_text(&lowered, "eip")
        || same_text(&lowered, "erf")
        || same_text(&lowered, "fff")
        || same_text(&lowered, "gpr")
        || same_text(&lowered, "iiq")
        || same_text(&lowered, "jxs")
        || same_text(&lowered, "k25")
        || same_text(&lowered, "kdc")
        || same_text(&lowered, "mdc")
        || same_text(&lowered, "mef")
        || same_text(&lowered, "mos")
        || same_text(&lowered, "mrw")
        || same_text(&lowered, "nef")
        || same_text(&lowered, "nrw")
        || same_text(&lowered, "orf")
        || same_text(&lowered, "pef")
        || same_text(&lowered, "ptx")
        || same_text(&lowered, "pxn")
        || same_text(&lowered, "r3d")
        || same_text(&lowered, "raf")
        || same_text(&lowered, "raw")
        || same_text(&lowered, "rw2")
        || same_text(&lowered, "rwl")
        || same_text(&lowered, "rwz")
        || same_text(&lowered, "sr2")
        || same_text(&lowered, "srf")
        || same_text(&lowered, "srw")
        || same_text(&lowered, "tco")
        || same_text(&lowered, "x3f")
}

/// A character that parts a path into components on some platform: a slash,
/// a backslash, or the colon of a drive or scheme.
pub open spec fn is_separator(c: char) -> bool {
    c == '/' || c == '\\' || c == ':'
}

/// `path` is a bare file name: not empty, not beginning with `.`, and without
/// any separator, so that on every platform it is its own final component.
pub open spec fn is_bare_name(path: Seq<char>) -> bool {
    &&& path.len() > 0
    &&& path[0] != '.'
    &&& forall|i: int| 0 <= i < path.len() ==> !is_separator(#[trigger] path[i])
}

/// Position of the last `.` in `text`, or -1 where it has none.
pub open spec fn last_dot(text: Seq<char>) -> int
    decreases text.len(),
{
    if text.len() == 0 {
        -1
    } else if text.last() == '.' {
        text.len() - 1
    } else {
        last_dot(text.drop_last())
    }
}

/// The extension of a bare file name: what follows its last `.`, or nothing
/// where it has no `.`.
pub open spec fn bare_extension(name: Seq<char>) -> Option<Seq<char>> {
    if last_dot(name) < 0 {
        None
    } else {
        Some(name.subrange(last_dot(name) + 1, name.len() as int))
    }
}

/// No RAW extension is empty.
pub proof fn lemma_raw_name_not_empty(name: Seq<char>)
    requires
        is_raw_name(name),
    ensures
        name.len() > 0,
{
    reveal_strlit("3fr");
    reveal_strlit("ari");
    reveal_strlit("arw");
    reveal_strlit("bay");
    reveal_strlit("braw");
    reveal_strlit("cap");
    reveal_strlit("cr2");
    reveal_strlit("cr3");
    reveal_strlit("cri");
    reveal_strlit("crw");
    reveal_strlit("dcr");
    reveal_strlit("dcs");
    reveal_strlit("dng");
    reveal_strlit("drf");
    reveal_strlit("eip");
    reveal_strlit("erf");
    reveal_strlit("fff");
    reveal_strlit("gpr");
    reveal_strlit("iiq");
    reveal_strlit("jxs");
    reveal_strlit("k25");
    reveal_strlit("kdc");
    reveal_strlit("mdc");
    reveal_strlit("mef");
    reveal_strlit("mos");
    reveal_strlit("mrw");
    reveal_strlit("nef");
    reveal_strlit("nrw");
    reveal_strlit("orf");
    reveal_strlit("pef");
    reveal_strlit("ptx");
    reveal_strlit("pxn");
    reveal_strlit("r3d");
    reveal_strlit("raf");
    reveal_strlit("raw");
    reveal_strlit("rw2");
    reveal_strlit("rwl");
    reveal_strlit("rwz");
    reveal_strlit("sr2");
    reveal_strlit("srf");
    reveal_strlit("srw");
    reveal_strlit("tco");
    reveal_strlit("x3f");
}

/// Calls `std::path::Path::extension` on `path`.
///
/// Trusted, as that method documents: an extension is the portion of the
/// file name after its final `.`, so it stands in `path` right behind a `.`.
/// Of a bare file name, which is its own file name and does not begin with
/// `.`, an extension is the whole text behind the last `.`, and there is one
/// where that text is not empty.
#[verifier::external_body]
fn path_extension(path: &str) -> (ext: Option<String>)
    ensures
        ext matches Some(e) ==> exists|k: int|
            0 < k && k + e@.len() <= path@.len() && path@[k - 1] == '.'
                && #[trigger] path@.subrange(k, k + e@.len()) == e@,
        is_bare_name(path@) ==> (ext matches Some(e) ==> bare_extension(path@) == Some(e@)),
        is_bare_name(path@) ==> (bare_extension(path@) matches Some(t) && t.len() > 0
            ==> ext is Some),
{
    std::path::Path::new(path).extension().and_then(|e| e.to_str()).map(|e| e.to_string())
}

/// Tells whether the extension of `path` is that of a camera RAW format.
/// A path without an extension has none. Whether the path names a file is
/// for the caller to find out.
///
/// A true answer always comes from a RAW extension that stands behind a `.`
/// in `path`. For a bare file name the answer is exact: it tells whether the
/// text behind the last `.` of the name is a RAW extension.
pub fn has_raw_file_extension(path: &str) -> (raw: bool)
    ensures
        raw ==> exists|k: int, len: int|
            0 < k && 0 <= len && k + len <= path@.len() && path@[k - 1] == '.'
                && is_raw_extension_text(#[trigger] path@.subrange(k, k + len)),
        is_bare_name(path@) ==> raw == match bare_extension(path@) {
            Some(text) => is_raw_extension_text(text),
            None => false,
        },
{
    match path_extension(path) {
        Some(ext) => {
            let raw = is_raw_extension(ext.as_str());
            proof {
                if raw {
                    let k = choose|k: int|
                        0 < k && k + ext@.len() <= path@.len() && path@[k - 1] == '.'
                            && #[trigger] path@.subrange(k, k + ext@.len()) == ext@;
                    assert(is_raw_extension_text(path@.subrange(k, k + ext@.len())));
                }
            }
            raw
        },
        None => {
            proof {
                if is_bare_name(path@) {
                    if let Some(text) = bare_extension(path@) {
                        assert(text.len() == 0);
                        if is_raw_extension_text(text) {
                            lemma_raw_name_not_empty(text.map_values(|c: char| ascii_lower(c)));
                        }
                    }
                }
            }
            false
        },
    }
}

} // verus!

use vstd::prelude::*;
use vstd::string::{StrSliceExecFns, StringExecFns};
use crate::items::{RawEntry, lex_le};

verus! {

/// The index of the last occurrence of `c` in `s`, or -1 when `s` does not
/// contain it.
pub open spec fn last_char_at(s: Seq<char>, c: char) -> int
    decreases s.len(),
{
    if s.len() == 0 {
        -1
    } else if s[s.len() - 1] == c {
        s.len() - 1
    } else {
        last_char_at(s.take(s.len() - 1), c)
    }
}

pub proof fn lemma_last_char_at_bounds(s: Seq<char>, c: char)
    ensures
        -1 <= last_char_at(s, c) < s.len(),
        last_char_at(s, c) >= 0 ==> s[last_char_at(s, c)] == c,
    decreases s.len(),
{
    if s.len() != 0 && s[s.len() - 1] != c {
        lemma_last_char_at_bounds(s.take(s.len() - 1), c);
    }
}

/// The final component of a path: everything after the last separator.
pub open spec fn file_name_of(path: Seq<char>) -> Seq<char> {
    path.skip(last_char_at(path, '/') + 1)
}

/// Whether a file name splits into a non-empty stem and an extension: it does
/// exactly when it contains a dot that is not its first character.
pub open spec fn has_extension(name: Seq<char>) -> bool {
    last_char_at(name, '.') >= 1
}

/// The part after the last dot; meaningful only when `has_extension` holds.
pub open spec fn extension_of(name: Seq<char>) -> Seq<char> {
    name.skip(last_char_at(name, '.') + 1)
}

/// The part before the last dot, or the whole name when there is no
/// extension to strip.
pub open spec fn stem_of(name: Seq<char>) -> Seq<char> {
    if has_extension(name) {
        name.take(last_char_at(name, '.'))
    } else {
        name
    }
}

/// An encrypted note: the reserved extension in single-extension form, such
/// as `report.lockd`.
pub open spec fn is_note_name(name: Seq<char>) -> bool {
    &&& has_extension(name)
    &&& extension_of(name) == "lockd"@
    &&& !has_extension(stem_of(name))
}

/// An opaque encrypted file: the reserved extension in double-extension form,
/// such as `report.txt.lockd`.
pub open spec fn is_opaque_name(name: Seq<char>) -> bool {
    &&& has_extension(name)
    &&& extension_of(name) == "lockd"@
    &&& has_extension(stem_of(name))
}

/// A run-commands file, recognised by its own reserved extension.
pub open spec fn is_rc_name(name: Seq<char>) -> bool {
    has_extension(name) && extension_of(name) == "lockdrc"@
}

/// A configuration file, recognised by its own reserved extension.
pub open spec fn is_config_name(name: Seq<char>) -> bool {
    has_extension(name) && extension_of(name) == "lockdfg"@
}

/// A hidden name: one that starts with a dot.
pub open spec fn is_hidden_name(name: Seq<char>) -> bool {
    name.len() > 0 && name[0] == '.'
}

/// The four things a dropped or opened path can ask of the core, decided from
/// the path's shape and the marker directory alone, never from file contents.
#[derive(Clone, Copy, Debug, PartialEq, Eq, Structural)]
pub enum PathKind {
    /// A directory carrying the marker: scan it into the workspace tree.
    WorkspaceFolder,
    /// A directory without the marker: encrypt it into a mirrored tree.
    FolderToEncrypt,
    /// A single-extension encrypted file: decrypt and open it for editing.
    EncryptedNote,
    /// A double-extension encrypted file: decrypt it to a saved location.
    OpaqueEncryptedFile,
    /// Any other file: encrypt it to a saved location.
    FileToEncrypt,
}

/// Which of the four intents applies to a path.
pub open spec fn classify_spec(path: Seq<char>, is_directory: bool, has_marker: bool) -> PathKind {
    if is_directory {
        if has_marker {
            PathKind::WorkspaceFolder
        } else {
            PathKind::FolderToEncrypt
        }
    } else {
        if is_note_name(file_name_of(path)) {
            PathKind::EncryptedNote
        } else if is_opaque_name(file_name_of(path)) {
            PathKind::OpaqueEncryptedFile
        } else {
            PathKind::FileToEncrypt
        }
    }
}

/// Which kind of auxiliary dotfile a path is, decided from its extension.
#[derive(Clone, Copy, Debug, PartialEq, Eq, Structural)]
pub enum ConfigKind {
    /// A run-commands file.
    RunCommands,
    /// A free-form configuration file.
    Configuration,
    /// Neither: not a configuration path at all.
    Other,
}

pub open spec fn config_kind_spec(path: Seq<char>) -> ConfigKind {
    if is_rc_name(file_name_of(path)) {
        ConfigKind::RunCommands
    } else if is_config_name(file_name_of(path)) {
        ConfigKind::Configuration
    } else {
        ConfigKind::Other
    }
}

/// Character-exact equality of two string slices.
pub fn str_eq(a: &str, b: &str) -> (r: bool)
    ensures
        r == (a@ == b@),
{
    let alen = a.unicode_len();
    let blen = b.unicode_len();
    if alen != blen {
        return false;
    }
    let mut i: usize = 0;
    while i < alen
        invariant
            i <= alen,
            alen == a@.len(),
            alen == b@.len(),
            forall|j: int| 0 <= j < i ==> a@[j] == b@[j],
        decreases alen - i,
    {
        if a.get_char(i) != b.get_char(i) {
            return false;
        }
        i += 1;
    }
    proof {
        assert(a@ =~= b@);
    }
    true
}

/// The index of the last occurrence of `c` in `s`, if any.
fn find_last_char(s: &str, c: char) -> (r: Option<usize>)
    ensures
        match r {
            Some(i) => last_char_at(s@, c) == i as int,
            None => last_char_at(s@, c) == -1,
        },
{
    let n = s.unicode_len();
    let mut i: usize = 0;
    let mut best: Option<usize> = None;
    while i < n
        invariant
            i <= n,
            n == s@.len(),
            match best {
                Some(j) => last_char_at(s@.take(i as int), c) == j as int,
                None => last_char_at(s@.take(i as int), c) == -1,
            },
        decreases n - i,
    {
        proof {
            assert(s@.take(i + 1).take(i as int) =~= s@.take(i as int));
            assert(s@.take(i + 1)[i as int] == s@[i as int]);
        }
        if s.get_char(i) == c {
            best = Some(i);
        }
        i += 1;
    }
    proof {
        assert(s@.take(n as int) =~= s@);
    }
    best
}

/// The final component of a path: everything after the last separator.
pub fn file_name<'a>(path: &'a str) -> (r: &'a str)
    ensures
        r@ == file_name_of(path@),
{
    let n = path.unicode_len();
    match find_last_char(path, '/') {
        Some(i) => {
            proof {
                lemma_last_char_at_bounds(path@, '/');
            }
            let r = path.substring_char(i + 1, n);
            proof {
                assert(r@ =~= path@.skip(i + 1));
            }
            r
        },
        None => {
            proof {
                assert(path@.skip(0) =~= path@);
            }
            path
        },
    }
}

/// Splits a file name into stem and extension, or returns nothing when the
/// name has no extension to strip.
pub fn split_extension<'a>(name: &'a str) -> (r: Option<(&'a str, &'a str)>)
    ensures
        match r {
            Some(p) => has_extension(name@) && p.0@ == stem_of(name@) && p.1@ == extension_of(
                name@,
            ),
            None => !has_extension(name@),
        },
{
    let n = name.unicode_len();
    match find_last_char(name, '.') {
        Some(i) => {
            proof {
                lemma_last_char_at_bounds(name@, '.');
            }
            if i >= 1 {
                let stem = name.substring_char(0, i);
                let ext = name.substring_char(i + 1, n);
                proof {
                    assert(stem@ =~= name@.take(i as int));
                    assert(ext@ =~= name@.skip(i + 1));
                }
                Some((stem, ext))
            } else {
                None
            }
        },
        None => None,
    }
}

/// Whether a file name carries an extension at all.
pub fn has_extension_exec(name: &str) -> (r: bool)
    ensures
        r == has_extension(name@),
{
    match find_last_char(name, '.') {
        Some(i) => i >= 1,
        None => false,
    }
}

/// Whether a file name is an encrypted note in single-extension form.
pub fn is_note_file_name(name: &str) -> (r: bool)
    ensures
        r == is_note_name(name@),
{
    match split_extension(name) {
        Some((stem, ext)) => str_eq(ext, "lockd") && !has_extension_exec(stem),
        None => false,
    }
}

/// Checks if a file can be opened (is an encrypted note).
pub fn can_open_file(path: &str) -> (r: bool)
    ensures
        r == is_note_name(file_name_of(path@)),
{
    is_note_file_name(file_name(path))
}

/// Checks if a file is a run-commands file.
pub fn is_rc_file(path: &str) -> (r: bool)
    ensures
        r == is_rc_name(file_name_of(path@)),
{
    match split_extension(file_name(path)) {
        Some((_stem, ext)) => str_eq(ext, "lockdrc"),
        None => false,
    }
}

/// Which kind of auxiliary dotfile a path is.
pub fn classify_config(path: &str) -> (k: ConfigKind)
    ensures
        k == config_kind_spec(path@),
{
    match split_extension(file_name(path)) {
        Some((_stem, ext)) => {
            if str_eq(ext, "lockdrc") {
                ConfigKind::RunCommands
            } else if str_eq(ext, "lockdfg") {
                ConfigKind::Configuration
            } else {
                ConfigKind::Other
            }
        },
        None => ConfigKind::Other,
    }
}

/// Checks if a folder can be opened as an existing workspace: its listing
/// must contain the hidden marker directory.
pub fn can_open_folder(entries: &Vec<RawEntry>) -> (r: bool)
    ensures
        r == exists|i: int|
            0 <= i < entries@.len() && (#[trigger] entries@[i]).is_directory
                && entries@[i].name@ == ".lockd"@,
{
    let n = entries.len();
    let mut i: usize = 0;
    while i < n
        invariant
            i <= n,
            n == entries@.len(),
            forall|j: int|
                0 <= j < i ==> !((#[trigger] entries@[j]).is_directory && entries@[j].name@
                    == ".lockd"@),
        decreases n - i,
    {
        if entries[i].is_directory && str_eq(entries[i].name.as_str(), ".lockd") {
            return true;
        }
        i += 1;
    }
    false
}

/// Checks if a path can be opened by the workspace: a directory only with the
/// marker present, a file only when it is an encrypted note.
pub fn can_open_path(path: &str, is_directory: bool, has_marker: bool) -> (r: bool)
    ensures
        r == if is_directory {
            has_marker
        } else {
            is_note_name(file_name_of(path@))
        },
{
    if is_directory {
        has_marker
    } else {
        can_open_file(path)
    }
}

/// Which of the four intents applies to a path.
pub fn classify_path(path: &str, is_directory: bool, has_marker: bool) -> (k: PathKind)
    ensures
        k == classify_spec(path@, is_directory, has_marker),
{
    if is_directory {
        if has_marker {
            PathKind::WorkspaceFolder
        } else {
            PathKind::FolderToEncrypt
        }
    } else {
        let name = file_name(path);
        match split_extension(name) {
            Some((stem, ext)) => {
                if str_eq(ext, "lockd") {
                    if has_extension_exec(stem) {
                        PathKind::OpaqueEncryptedFile
                    } else {
                        PathKind::EncryptedNote
                    }
                } else {
                    PathKind::FileToEncrypt
                }
            },
            None => PathKind::FileToEncrypt,
        }
    }
}

/// Whether the scan should descend into an entry: only readable directories
/// that are not hidden bookkeeping.
pub fn should_scan_children(name: &str, is_directory: bool) -> (r: bool)
    ensures
        r == (is_directory && !is_hidden_name(name@)),
{
    if !is_directory {
        return false;
    }
    if name.unicode_len() == 0 {
        return true;
    }
    name.get_char(0) != '.'
}

/// Case-sensitive lexical comparison of two string slices, by code point.
pub fn str_lex_le(a: &str, b: &str) -> (r: bool)
    ensures
        r == lex_le(a@, b@),
{
    let an = a.unicode_len();
    let bn = b.unicode_len();
    let mut i: usize = 0;
    proof {
        assert(a@.skip(0) =~= a@);
        assert(b@.skip(0) =~= b@);
    }
    while i < an && i < bn
        invariant
            i <= an,
            i <= bn,
            an == a@.len(),
            bn == b@.len(),
            lex_le(a@, b@) == lex_le(a@.skip(i as int), b@.skip(i as int)),
        decreases an - i,
    {
        let ca = a.get_char(i);
        let cb = b.get_char(i);
        proof {
            assert(a@.skip(i as int)[0] == a@[i as int]);
            assert(b@.skip(i as int)[0] == b@[i as int]);
            assert(a@.skip(i as int).drop_first() =~= a@.skip(i + 1));
            assert(b@.skip(i as int).drop_first() =~= b@.skip(i + 1));
        }
        if (ca as u32) < (cb as u32) {
            return true;
        }
        if (ca as u32) > (cb as u32) {
            return false;
        }
        i += 1;
    }
    proof {
        if i >= an {
            assert(a@.skip(i as int).len() == 0);
        } else {
            assert(b@.skip(i as int).len() == 0);
            assert(a@.skip(i as int).len() > 0);
        }
    }
    i >= an
}

/// The name a file gets when its envelope is written out: the original name
/// with the reserved extension appended.
pub fn encrypted_file_name(name: &str) -> (r: String)
    ensures
        r@ == name@ + ".lockd"@,
{
    String::from_str(name).concat(".lockd")
}

/// The name a decrypted file gets back: the reserved extension stripped, or
/// the name unchanged when there is nothing to strip.
pub fn decrypted_file_name<'a>(name: &'a str) -> (r: &'a str)
    ensures
        r@ == stem_of(name@),
{
    match split_extension(name) {
        Some((stem, _ext)) => stem,
        None => name,
    }
}

} // verus!

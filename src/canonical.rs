//! Canonical manifest keys: `<label>/<path relative to the archive root>`, and
//! the rule for which enumerated entries are archived at all.
use vstd::prelude::*;
use vstd::string::*;

verus! {

/// `s` with every leading `/` removed.
pub open spec fn trim_leading_slashes(s: Seq<char>) -> Seq<char>
    decreases s.len(),
{
    if s.len() > 0 && s[0] == '/' {
        trim_leading_slashes(s.drop_first())
    } else {
        s
    }
}

/// Whether `root` is a leading run of whole path components of `path`: a
/// non-empty textual prefix that ends at a separator or at the end of `path`.
pub open spec fn is_root_of(root: Seq<char>, path: Seq<char>) -> bool {
    &&& root.len() > 0
    &&& root.len() <= path.len()
    &&& path.take(root.len() as int) == root
    &&& (root.len() == path.len() || path[root.len() as int] == '/' || root.last() == '/')
}

/// The part of `path` below `root`, without leading separators; `path` itself
/// when `root` is not one of its leading components.
pub open spec fn relative_part(root: Seq<char>, path: Seq<char>) -> Seq<char> {
    if is_root_of(root, path) {
        trim_leading_slashes(path.skip(root.len() as int))
    } else {
        path
    }
}

/// The manifest key of the file at `path` in the archive at `root` labelled `label`.
pub open spec fn canonical_key(root: Seq<char>, label: Seq<char>, path: Seq<char>) -> Seq<char> {
    let rel = relative_part(root, path);
    if rel.len() == 0 {
        label
    } else {
        label + seq!['/'] + rel
    }
}

/// Maps a file path to its manifest key: the archive label, then `/` and the
/// path relative to the archive root (the label alone for the root itself).
/// A path outside the root is used verbatim after the label.
pub fn canonicalize(root: &str, label: &str, path: &str) -> (r: String)
    ensures
        r@ == canonical_key(root@, label@, path@),
{
    let rlen = root.unicode_len();
    let plen = path.unicode_len();
    let mut under_root = false;
    if 0 < rlen && rlen <= plen {
        let head = String::from_str(path.substring_char(0, rlen));
        let root_s = String::from_str(root);
        if head == root_s {
            under_root = rlen == plen || path.get_char(rlen) == '/' || root.get_char(rlen - 1) == '/';
        }
    }
    assert(under_root == is_root_of(root@, path@));
    let rel: &str = if under_root {
        let mut j: usize = rlen;
        while j < plen && path.get_char(j) == '/'
            invariant
                rlen <= j <= plen,
                plen == path@.len(),
                trim_leading_slashes(path@.skip(j as int)) == trim_leading_slashes(path@.skip(rlen as int)),
            decreases plen - j,
        {
            assert(path@.skip(j as int).drop_first() =~= path@.skip(j as int + 1));
            j = j + 1;
        }
        assert(trim_leading_slashes(path@.skip(j as int)) == path@.skip(j as int));
        assert(path@.subrange(j as int, plen as int) =~= path@.skip(j as int));
        path.substring_char(j, plen)
    } else {
        path
    };
    let rel_len = rel.unicode_len();
    let mut key = String::from_str(label);
    if rel_len > 0 {
        key.append("/");
        proof {
            reveal_strlit("/");
        }
        key.append(rel);
    }
    assert(rel_len > 0 ==> key@ =~= label@ + seq!['/'] + rel@);
    key
}

/// Canonicalization is a function of the label and the place below the root:
/// files at the same relative location get the same key, whatever the roots
/// are and however often the key is computed.
pub proof fn lemma_canonical_key_stable(
    root1: Seq<char>,
    root2: Seq<char>,
    label: Seq<char>,
    path1: Seq<char>,
    path2: Seq<char>,
)
    requires
        relative_part(root1, path1) == relative_part(root2, path2),
    ensures
        canonical_key(root1, label, path1) == canonical_key(root2, label, path2),
{
}

/// Whether a base name marks an OS metadata sidecar file (it starts with `._`).
pub open spec fn is_sidecar(name: Seq<char>) -> bool {
    name.len() >= 2 && name[0] == '.' && name[1] == '_'
}

/// Whether a base name starts with `._`.
pub fn is_sidecar_name(name: &str) -> (r: bool)
    ensures
        r == is_sidecar(name@),
{
    let n = name.unicode_len();
    n >= 2 && name.get_char(0) == '.' && name.get_char(1) == '_'
}

/// Whether an enumerated entry is archived: a regular file that is no sidecar.
pub fn should_archive(is_file: bool, name: &str) -> (r: bool)
    ensures
        r == (is_file && !is_sidecar(name@)),
{
    is_file && !is_sidecar_name(name)
}

/// The archive label of a run: the configured one, else the root directory's name.
pub fn effective_label(configured: Option<String>, dir_name: String) -> (r: String)
    ensures
        r@ == (match configured {
            Some(l) => l@,
            None => dir_name@,
        }),
{
    match configured {
        Some(l) => l,
        None => dir_name,
    }
}

} // verus!

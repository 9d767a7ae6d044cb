//! Reading files inside a pet pack.
//!
//! A pack is either an unpacked directory or one `.rkpet` zip archive. Paths
//! stay *virtual*: the manifest's relative paths are joined onto the pack's
//! location, so `…/packs/喵喵.rkpet/forms/a/model.glb` names a file inside
//! the archive. Paths are `/`-separated strings here.
//!
//! Where there is no file system at all (the browser preview), the files are
//! fed into a [`MemoryFiles`] table keyed by virtual path.
use vstd::prelude::*;
use crate::text::{
    chars_of, has_suffix, join_chars, lower, lower_chars, same_chars, string_from_utf8, string_of, views,
};
use crate::glassy::{copy_bytes, first_at, keyed, lemma_first_at, lemma_first_at_is};

verus! {

/// Extension of an archived pack.
pub const PACK_EXT: &'static str = "rkpet";

/// Where the manifest lives inside a pack, in both forms.
pub const MANIFEST: &'static str = "manifest.toml";

pub open spec fn manifest_name() -> Seq<char> {
    seq!['m', 'a', 'n', 'i', 'f', 'e', 's', 't', '.', 't', 'o', 'm', 'l']
}

pub open spec fn pack_ext() -> Seq<char> {
    seq!['r', 'k', 'p', 'e', 't']
}

/// `rel` appended to `root` with one separator, as `Path::join` does for a
/// relative `rel`.
pub open spec fn join_path(root: Seq<char>, rel: Seq<char>) -> Seq<char> {
    if root.len() == 0 {
        rel
    } else if root.last() == '/' {
        root + rel
    } else {
        root + seq!['/'] + rel
    }
}

/// Why a pack file could not be read.
#[derive(Debug, Clone, PartialEq, Eq)]
pub enum AssetError {
    /// Nothing was stored under this virtual path.
    Missing(String),
    /// The manifest of the pack at this location is not UTF-8.
    NotUtf8(String),
}

/// `rel` joined onto `root` with a single `/`.
pub fn join_path_str(root: &str, rel: &str) -> (r: String)
    ensures
        r@ == join_path(root@, rel@),
{
    let mut out = chars_of(root);
    let tail = chars_of(rel);
    if out.len() > 0 && out[out.len() - 1] != '/' {
        out.push('/');
    }
    crate::text::push_all(&mut out, &tail);
    string_of(&out)
}

/// The manifest's virtual path (shown in error messages, hence its own function).
pub fn manifest_path(root: &str) -> (r: String)
    ensures
        r@ == join_path(root@, manifest_name()),
{
    let name = "manifest.toml";
    proof {
        reveal_strlit("manifest.toml");
    }
    assert(name@ == manifest_name());
    join_path_str(root, name)
}

/// The file extension of a file name, as `Path::extension` sees it: what
/// follows the last `.`, unless that dot starts the name or the name is `..`.
pub open spec fn extension(name: Seq<char>) -> Option<Seq<char>> {
    match last_dot(name, name.len() as int) {
        Some(k) => if k == 0 || name == seq!['.', '.'] {
            None
        } else {
            Some(name.skip(k + 1))
        },
        None => None,
    }
}

/// The last `.` before position `end`.
pub open spec fn last_dot(name: Seq<char>, end: int) -> Option<int>
    decreases end,
{
    if end <= 0 || end > name.len() {
        None
    } else if name[end - 1] == '.' {
        Some(end - 1)
    } else {
        last_dot(name, end - 1)
    }
}

/// A file name whose extension is `rkpet`, in any letter case.
pub open spec fn has_pack_ext(name: Seq<char>) -> bool {
    match extension(name) {
        Some(ext) => lower(ext) == pack_ext(),
        None => false,
    }
}

fn find_last_dot(name: &Vec<char>, end: usize) -> (r: Option<usize>)
    requires
        end <= name@.len(),
    ensures
        match r {
            Some(k) => last_dot(name@, end as int) == Some(k as int) && k < end,
            None => last_dot(name@, end as int) is None,
        },
    decreases end,
{
    if end == 0 {
        None
    } else if name[end - 1] == '.' {
        Some(end - 1)
    } else {
        find_last_dot(name, end - 1)
    }
}

/// Whether a path component names a `.rkpet` file (letter case ignored).
pub fn is_pack_name(name: &str) -> (r: bool)
    ensures
        r == has_pack_ext(name@),
{
    let cs = chars_of(name);
    match find_last_dot(&cs, cs.len()) {
        None => false,
        Some(k) => {
            let dots = vec!['.', '.'];
            if k == 0 || same_chars(&cs, &dots) {
                return false;
            }
            let ext = crate::text::slice_chars(&cs, k + 1, cs.len());
            assert(ext@ == cs@.skip(k + 1));
            let low = lower_chars(&ext);
            let want = vec!['r', 'k', 'p', 'e', 't'];
            assert(want@ == pack_ext());
            same_chars(&low, &want)
        },
    }
}

/// Whether a location looks like a pack, from what the disk says of it: a
/// directory holding a manifest file, or a file named `*.rkpet` (letter
/// case ignored). `name` is the location's file name. Only this cheap test
/// is made; whether the pack reads is another matter.
pub fn is_pack_entry(is_dir: bool, has_manifest_file: bool, name: &str, is_file: bool) -> (r: bool)
    ensures
        r == (if is_dir { has_manifest_file } else { has_pack_ext(name@) && is_file }),
{
    if is_dir {
        has_manifest_file
    } else {
        is_pack_name(name) && is_file
    }
}

/// Where a path enters an archive: the first component `k` whose prefix
/// (components `0..=k`) has the pack extension and is a file, when more
/// components follow it.
pub open spec fn archive_at(components: Seq<Seq<char>>, is_file: Seq<bool>, from: int) -> Option<int>
    decreases components.len() - from,
{
    if from < 0 || from >= components.len() {
        None
    } else if has_pack_ext(components[from]) && from < is_file.len() && is_file[from] {
        Some(from)
    } else {
        archive_at(components, is_file, from + 1)
    }
}

/// Splits a path given as its components into (archive components, entry
/// name inside the archive), when it passes through a `.rkpet` file.
/// `is_file[k]` tells whether components `0..=k` name a file on disk (only
/// asked for components with the pack extension). A path that *is* the
/// archive is not a read inside it, so it gives `None`; a directory named
/// `*.rkpet` is just a directory. Entry names always use `/`.
pub fn split_archive(components: &Vec<String>, is_file: &Vec<bool>) -> (r: Option<(usize, String)>)
    ensures
        match archive_at(components@.map_values(|c: String| c@), is_file@, 0) {
            Some(k) => if k + 1 < components@.len() {
                r matches Some((a, inner)) && a == k && inner@ == crate::text::join(
                    components@.map_values(|c: String| c@).skip(k + 1),
                    seq!['/'],
                )
            } else {
                r is None
            },
            None => r is None,
        },
{
    let ghost names = components@.map_values(|c: String| c@);
    let mut k: usize = 0;
    while k < components.len()
        invariant
            names == components@.map_values(|c: String| c@),
            k <= components@.len(),
            archive_at(names, is_file@, 0) == archive_at(names, is_file@, k as int),
        decreases components.len() - k,
    {
        if is_pack_name(components[k].as_str()) && k < is_file.len() && is_file[k] {
            if k + 1 == components.len() {
                return None;
            }
            let mut rest: Vec<Vec<char>> = Vec::new();
            let mut j: usize = k + 1;
            while j < components.len()
                invariant
                    names == components@.map_values(|c: String| c@),
                    k + 1 <= j <= components@.len(),
                    rest@.len() == j - (k + 1),
                    forall|t: int| 0 <= t < rest@.len() ==> #[trigger] rest@[t]@ == names[k + 1 + t],
                decreases components.len() - j,
            {
                rest.push(chars_of(components[j].as_str()));
                assert(names[j as int] == components@[j as int]@);
                j = j + 1;
            }
            assert(views(rest@) =~= names.subrange(k + 1, j as int));
            let sep = vec!['/'];
            assert(sep@ == seq!['/']);
            let joined = join_chars(&rest, &sep);
            assert(names.subrange(k + 1, components@.len() as int) == names.skip(k + 1));
            return Some((k, string_of(&joined)));
        }
        k = k + 1;
    }
    None
}

/// The files of a pack fed in by path, for builds without a file system.
pub struct MemoryFiles {
    files: Vec<(String, Vec<u8>)>,
}

impl MemoryFiles {
    /// The bytes stored under `path`.
    pub closed spec fn lookup(&self, path: Seq<char>) -> Option<Seq<u8>> {
        match first_at(self.files@, keyed(path), 0) {
            Some(i) => Some(self.files@[i].1@),
            None => None,
        }
    }

    /// An empty table.
    pub fn new() -> (r: Self)
        ensures
            forall|path: Seq<char>| r.lookup(path) is None,
    {
        MemoryFiles { files: Vec::new() }
    }

    fn position(&self, path: &Vec<char>) -> (r: Option<usize>)
        ensures
            match r {
                Some(i) => first_at(self.files@, keyed(path@), 0) == Some(i as int)
                    && i < self.files@.len(),
                None => first_at(self.files@, keyed(path@), 0) is None,
            },
    {
        let ghost p = keyed(path@);
        proof {
            lemma_first_at(self.files@, p, 0);
        }
        let mut i: usize = 0;
        while i < self.files.len()
            invariant
                i <= self.files@.len(),
                p == (keyed(path@)),
                forall|j: int| 0 <= j < i ==> !p(#[trigger] self.files@[j]),
            decreases self.files.len() - i,
        {
            let key = chars_of(self.files[i].0.as_str());
            if same_chars(&key, path) {
                proof {
                    lemma_first_at_is(self.files@, p, 0, i as int);
                }
                return Some(i);
            }
            i = i + 1;
        }
        proof {
            lemma_first_at(self.files@, p, 0);
            if let Some(k) = first_at(self.files@, p, 0) {
                assert(!p(self.files@[k]));
            }
        }
        None
    }

    /// Stores (or replaces) the file at `path`.
    pub fn insert(&mut self, path: String, bytes: Vec<u8>)
        ensures
            final(self).lookup(path@) == Some(bytes@),
            forall|other: Seq<char>| other != path@ ==> final(self).lookup(other) == old(self).lookup(other),
    {
        let key = chars_of(path.as_str());
        let ghost before = self.files@;
        let ghost name = path@;
        let entry = (path, bytes);
        match self.position(&key) {
            Some(i) => {
                proof {
                    lemma_first_at(before, keyed(name), 0);
                }
                self.files.set(i, entry);
                proof {
                    let now = self.files@;
                    lemma_first_at_is(now, keyed(name), 0, i as int);
                    assert forall|other: Seq<char>| other != name implies self.lookup(other) == old(self).lookup(other) by {
                        let q = keyed(other);
                        lemma_first_at(before, q, 0);
                        lemma_first_at(now, q, 0);
                        assert(!q(now[i as int]));
                        if let Some(k) = first_at(before, q, 0) {
                            assert(k != i);
                            assert forall|j: int| 0 <= j < k implies !q(#[trigger] now[j]) by {
                                if j != i {
                                    assert(now[j] == before[j]);
                                }
                            }
                            lemma_first_at_is(now, q, 0, k);
                        } else {
                            if let Some(k) = first_at(now, q, 0) {
                                if k != i {
                                    assert(now[k] == before[k]);
                                }
                            }
                        }
                    }
                }
            },
            None => {
                self.files.push(entry);
                proof {
                    let now = self.files@;
                    let p = keyed(name);
                    lemma_first_at(before, p, 0);
                    assert forall|j: int| 0 <= j < before.len() implies !p(#[trigger] now[j]) by {
                        assert(now[j] == before[j]);
                    }
                    lemma_first_at_is(now, p, 0, before.len() as int);
                    assert forall|other: Seq<char>| other != name implies self.lookup(other) == old(self).lookup(other) by {
                        let q = keyed(other);
                        lemma_first_at(before, q, 0);
                        lemma_first_at(now, q, 0);
                        if let Some(k) = first_at(before, q, 0) {
                            assert forall|j: int| 0 <= j < k implies !q(#[trigger] now[j]) by {
                                assert(now[j] == before[j]);
                            }
                            assert(now[k] == before[k]);
                            lemma_first_at_is(now, q, 0, k);
                        } else {
                            if let Some(k) = first_at(now, q, 0) {
                                if k < before.len() {
                                    assert(now[k] == before[k]);
                                } else {
                                    assert(now[k] == entry);
                                }
                            }
                        }
                    }
                }
            },
        }
    }

    /// Forgets every file (before switching to another pack).
    pub fn clear(&mut self)
        ensures
            forall|path: Seq<char>| final(self).lookup(path) is None,
    {
        self.files.clear();
    }

    /// The file at `path`; an error when nothing was fed for it.
    pub fn read(&self, path: &str) -> (r: Result<Vec<u8>, AssetError>)
        ensures
            match r {
                Ok(bytes) => self.lookup(path@) == Some(bytes@),
                Err(e) => self.lookup(path@) is None && (e matches AssetError::Missing(p) && p@ == path@),
            },
    {
        let key = chars_of(path);
        match self.position(&key) {
            Some(i) => Ok(copy_bytes(&self.files[i].1)),
            None => Err(AssetError::Missing(path.to_owned())),
        }
    }
}

/// Reads a pack's manifest text from the fed files; `root` is the pack's
/// location (directory or `.rkpet` file).
pub fn read_manifest(files: &MemoryFiles, root: &str) -> (r: Result<String, AssetError>)
    ensures
        ({
            let path = join_path(root@, manifest_name());
            match files.lookup(path) {
                None => r matches Err(AssetError::Missing(p)) && p@ == path,
                Some(bytes) => if vstd::utf8::valid_utf8(bytes) {
                    r matches Ok(text) && text@ == vstd::utf8::decode_utf8(bytes)
                } else {
                    r matches Err(AssetError::NotUtf8(p)) && p@ == root@
                },
            }
        }),
{
    let path = manifest_path(root);
    match files.read(path.as_str()) {
        Err(e) => Err(e),
        Ok(bytes) => match string_from_utf8(bytes) {
            Some(text) => Ok(text),
            None => Err(AssetError::NotUtf8(root.to_owned())),
        },
    }
}

} // verus!

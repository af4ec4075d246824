use vstd::prelude::*;
use crate::digest::{sha256_digest, sha256_of};

verus! {

/// One regular file found under the scanned root: its full path, its file
/// name (the last path component), and its content, or `None` when the file
/// could not be read. An unreadable file is kept for visibility; it simply
/// carries no digest.
pub struct ScannedFile {
    pub path: String,
    pub name: String,
    pub data: Option<Vec<u8>>,
}

/// A file of a document group together with its content digest; the digest
/// is absent when the file's content could not be read.
pub struct FileWithHash {
    pub path: String,
    pub hash: Option<Vec<u8>>,
}

impl FileWithHash {
    /// Digests one scanned file: the path is kept, and the content digest is
    /// present exactly when the content could be read.
    pub fn from(f: ScannedFile) -> (r: FileWithHash)
        ensures
            r.path == f.path,
            match f.data {
                Some(d) => r.hash matches Some(h) && h@ == sha256_of(d@) && h@.len() == 32,
                None => r.hash is None,
            },
    {
        let hash = match f.data {
            Some(d) => Some(sha256_digest(&d)),
            None => None,
        };
        FileWithHash { path: f.path, hash }
    }
}

/// The index of the first '.' in a character string, or -1 when there is
/// none.
pub open spec fn first_dot(s: Seq<char>) -> int
    decreases s.len(),
{
    if s.len() == 0 {
        -1
    } else if s[0] == '.' {
        0
    } else {
        let r = first_dot(s.drop_first());
        if r < 0 {
            -1
        } else {
            r + 1
        }
    }
}

/// The identifier carried by a file name: the portion before the first
/// extension separator. A name with no separator, or one that starts with
/// the separator, carries no identifier and the file is skipped.
pub open spec fn spec_stem(name: Seq<char>) -> Option<Seq<char>> {
    let d = first_dot(name);
    if d >= 1 {
        Some(name.subrange(0, d))
    } else {
        None
    }
}

proof fn lemma_first_dot_at(s: Seq<char>, i: int)
    requires
        0 <= i < s.len(),
        s[i] == '.',
        forall|k: int| 0 <= k < i ==> s[k] != '.',
    ensures
        first_dot(s) == i,
    decreases i,
{
    if i > 0 {
        assert(s.drop_first()[i - 1] == s[i]);
        assert forall|k: int| 0 <= k < i - 1 implies s.drop_first()[k] != '.' by {
            assert(s.drop_first()[k] == s[k + 1]);
        }
        lemma_first_dot_at(s.drop_first(), i - 1);
    }
}

proof fn lemma_first_dot_none(s: Seq<char>)
    requires
        forall|k: int| 0 <= k < s.len() ==> s[k] != '.',
    ensures
        first_dot(s) == -1,
    decreases s.len(),
{
    if s.len() > 0 {
        assert forall|k: int| 0 <= k < s.len() - 1 implies s.drop_first()[k] != '.' by {
            assert(s.drop_first()[k] == s[k + 1]);
        }
        lemma_first_dot_none(s.drop_first());
    }
}

/// Extracts the identifier from a file name, if the name carries one.
pub fn stem_of(name: &String) -> (r: Option<String>)
    ensures
        match r {
            Some(st) => spec_stem(name@) == Some(st@),
            None => spec_stem(name@) is None,
        },
{
    let len = name.as_str().unicode_len();
    let mut i: usize = 0;
    while i < len
        invariant
            i <= name@.len(),
            len == name@.len(),
            forall|k: int| 0 <= k < i ==> name@[k] != '.',
        decreases len - i,
    {
        let c = name.as_str().get_char(i);
        if c == '.' {
            proof {
                lemma_first_dot_at(name@, i as int);
            }
            if i == 0 {
                return None;
            }
            let st = name.as_str().substring_char(0, i);
            return Some(st.to_owned());
        }
        i = i + 1;
    }
    proof {
        lemma_first_dot_none(name@);
    }
    None
}

} // verus!

//! Store paths: absolute paths under the immutable content-addressed package
//! store.  Construction checks the prefix; resolving symlinks into the store
//! is filesystem work and happens outside the library, which re-checks the
//! resolved string here.

use vstd::prelude::*;

verus! {

/// Errors of store-path construction.
#[derive(Clone, Copy, PartialEq, Eq, Structural, Debug)]
pub enum StorePathError {
    /// The given path does not lie under the package store.
    InvalidStorePath,
}

/// The fixed prefix every store path lies under.
pub open spec fn store_prefix() -> Seq<char> {
    seq!['/', 'n', 'i', 'x', '/', 's', 't', 'o', 'r', 'e']
}

/// A string denotes a store path when it is the store prefix itself or the
/// prefix followed by a `/`-separated remainder.
pub open spec fn is_store_path_str(s: Seq<char>) -> bool {
    &&& s.len() >= store_prefix().len()
    &&& s.take(store_prefix().len() as int) == store_prefix()
    &&& (s.len() == store_prefix().len() || s[store_prefix().len() as int] == '/')
}

/// An absolute path known to lie under the package store.
pub struct StorePath {
    pub store_path: String,
}

impl View for StorePath {
    type V = Seq<char>;

    open spec fn view(&self) -> Seq<char> {
        self.store_path@
    }
}

impl StorePath {
    /// The store-path invariant of the held string.
    pub open spec fn wf(self) -> bool {
        is_store_path_str(self.store_path@)
    }

    /// Validate a path string as a store path.  Succeeds exactly on strings
    /// under the store prefix; symlinks must have been resolved beforehand.
    pub fn try_new(path: String) -> (r: Result<StorePath, StorePathError>)
        ensures
            r is Ok <==> is_store_path_str(path@),
            r matches Ok(sp) ==> sp.store_path@ == path@ && sp.wf(),
            r is Err ==> r == Err::<StorePath, StorePathError>(StorePathError::InvalidStorePath),
    {
        let s = path.as_str();
        let n = s.unicode_len();
        if n < 10 {
            return Err(StorePathError::InvalidStorePath);
        }
        let prefix_ok = s.get_char(0) == '/' && s.get_char(1) == 'n' && s.get_char(2) == 'i'
            && s.get_char(3) == 'x' && s.get_char(4) == '/' && s.get_char(5) == 's' && s.get_char(
            6,
        ) == 't' && s.get_char(7) == 'o' && s.get_char(8) == 'r' && s.get_char(9) == 'e';
        proof {
            assert forall|m: int| 0 <= m < 10 implies s@.take(10)[m] == s@[m] by {}
        }
        if !prefix_ok {
            proof {
                assert(s@.take(store_prefix().len() as int) != store_prefix()) by {
                    if s@.take(10) == store_prefix() {
                        assert(s@[0] == '/' && s@[1] == 'n' && s@[2] == 'i' && s@[3] == 'x' && s@[4]
                            == '/' && s@[5] == 's' && s@[6] == 't' && s@[7] == 'o' && s@[8] == 'r'
                            && s@[9] == 'e');
                    }
                }
            }
            return Err(StorePathError::InvalidStorePath);
        }
        if n > 10 && s.get_char(10) != '/' {
            return Err(StorePathError::InvalidStorePath);
        }
        proof {
            assert(s@.take(10) =~= store_prefix());
        }
        Ok(StorePath { store_path: path })
    }

    /// Whether two store paths are the same path.
    pub fn same_path(&self, other: &StorePath) -> (r: bool)
        ensures
            r == (self.store_path@ == other.store_path@),
    {
        self.store_path == other.store_path
    }
}

} // verus!

//! A value paired with the file path it is loaded from and saved to. The
//! file I/O and the serialisation happen outside the crate; what is kept
//! here is the pairing, the fresh-value constructor, and the blank-file
//! rule of loading.

use vstd::prelude::*;

verus! {

use crate::text::{trim_spec, trim_str};

pub struct OnDisk<T> {
    pub inner: T,
    pub path: String,
}

impl<T> OnDisk<T> {
    /// Unwrap the value, dropping the path.
    pub fn into_inner(self) -> (r: T)
        ensures
            r == self.inner,
    {
        self.inner
    }
}

impl<T: Default> OnDisk<T> {
    /// A default value at the given path, as used when a file is purged or
    /// does not exist yet.
    pub fn new_from_default(path: String) -> (s: Self)
        ensures
            call_ensures(T::default, (), s.inner),
            s.path == path,
    {
        OnDisk { inner: T::default(), path }
    }
}

/// Is a loaded file effectively empty (only whitespace)? Such a file is
/// treated as holding the default value rather than handed to the parser.
pub fn is_blank(content: &str) -> (r: bool)
    ensures
        r == (trim_spec(content@).len() == 0),
{
    let t = trim_str(content);
    t.as_str().is_empty()
}

} // verus!

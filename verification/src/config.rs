//! Engine configuration: the page bound, the advisory page-count cap, and
//! the snapshot directory.
//!
//! A configuration is immutable once the engine is built; the builder-style
//! setters consume and return the value. `max_pages` is an advisory capacity
//! hint that no operation consults; it is kept for API compatibility.

use vstd::prelude::*;

verus! {

/// Engine configuration.
pub struct Config {
    max_page_size: usize,
    max_pages: Option<usize>,
    storage_path: String,
}

impl Config {
    /// The configured page bound.
    pub closed spec fn spec_max_page_size(&self) -> usize {
        self.max_page_size
    }

    /// The advisory page-count cap.
    pub closed spec fn spec_max_pages(&self) -> Option<usize> {
        self.max_pages
    }

    /// The snapshot directory, as text.
    pub closed spec fn spec_storage_path(&self) -> Seq<char> {
        self.storage_path@
    }

    /// The page bound is positive.
    pub open spec fn wf(&self) -> bool {
        self.spec_max_page_size() >= 1
    }

    /// Replaces the page bound, which must be positive.
    pub fn set_max_page_size(self, max_page_size: usize) -> (r: Config)
        requires
            max_page_size >= 1,
        ensures
            r.spec_max_page_size() == max_page_size,
            r.spec_max_pages() == self.spec_max_pages(),
            r.spec_storage_path() == self.spec_storage_path(),
            r.wf(),
    {
        Config { max_page_size, ..self }
    }

    /// The configured page bound.
    pub fn max_page_size(&self) -> (r: usize)
        ensures
            r == self.spec_max_page_size(),
    {
        self.max_page_size
    }

    /// Replaces the advisory page-count cap.
    pub fn set_max_pages(self, max_pages: Option<usize>) -> (r: Config)
        ensures
            r.spec_max_pages() == max_pages,
            r.spec_max_page_size() == self.spec_max_page_size(),
            r.spec_storage_path() == self.spec_storage_path(),
    {
        Config { max_pages, ..self }
    }

    /// The advisory page-count cap.
    pub fn max_pages(&self) -> (r: Option<usize>)
        ensures
            r == self.spec_max_pages(),
    {
        self.max_pages
    }

    /// Replaces the snapshot directory.
    pub fn set_storage_path(self, storage_path: String) -> (r: Config)
        ensures
            r.spec_storage_path() == storage_path@,
            r.spec_max_page_size() == self.spec_max_page_size(),
            r.spec_max_pages() == self.spec_max_pages(),
    {
        Config { storage_path, ..self }
    }

    /// The snapshot directory.
    pub fn storage_path(&self) -> (r: &String)
        ensures
            r@ == self.spec_storage_path(),
    {
        &self.storage_path
    }

    /// A field-for-field copy.
    pub fn duplicate(&self) -> (r: Config)
        ensures
            r.spec_max_page_size() == self.spec_max_page_size(),
            r.spec_max_pages() == self.spec_max_pages(),
            r.spec_storage_path() == self.spec_storage_path(),
    {
        Config {
            max_page_size: self.max_page_size,
            max_pages: self.max_pages,
            storage_path: self.storage_path.clone(),
        }
    }
}

impl Default for Config {
    /// Page bound 128, no advisory cap, snapshots in the current directory.
    fn default() -> (r: Config)
        ensures
            r.spec_max_page_size() == 128,
            r.spec_max_pages() is None,
            r.spec_storage_path() == "."@,
            r.wf(),
    {
        Config { max_page_size: 128, max_pages: None, storage_path: ".".to_owned() }
    }
}

} // verus!

//! Command-line options for the interactive shell around the engine: the
//! page bound, the advisory page-count cap, and the snapshot directory.
//! Parsing the process arguments happens outside the library; this type only
//! carries the parsed values.

use vstd::prelude::*;

verus! {

/// Parsed command-line options.
pub struct Options {
    page_size: usize,
    memory_pages: Option<usize>,
    storage_path: String,
}

impl Options {
    /// The requested page bound.
    pub closed spec fn spec_page_size(&self) -> usize {
        self.page_size
    }

    /// The requested advisory page-count cap.
    pub closed spec fn spec_memory_pages(&self) -> Option<usize> {
        self.memory_pages
    }

    /// The requested snapshot directory, as text.
    pub closed spec fn spec_storage_path(&self) -> Seq<char> {
        self.storage_path@
    }

    /// Bundles parsed option values.
    pub fn new(page_size: usize, memory_pages: Option<usize>, storage_path: String) -> (r: Options)
        ensures
            r.spec_page_size() == page_size,
            r.spec_memory_pages() == memory_pages,
            r.spec_storage_path() == storage_path@,
    {
        Options { page_size, memory_pages, storage_path }
    }

    /// The requested page bound.
    pub fn page_size(&self) -> (r: usize)
        ensures
            r == self.spec_page_size(),
    {
        self.page_size
    }

    /// The requested advisory page-count cap.
    pub fn memory_pages(&self) -> (r: Option<usize>)
        ensures
            r == self.spec_memory_pages(),
    {
        self.memory_pages
    }

    /// The requested snapshot directory.
    pub fn storage_path(&self) -> (r: &String)
        ensures
            r@ == self.spec_storage_path(),
    {
        &self.storage_path
    }
}

} // verus!

//! The blog's domain values.
use vstd::prelude::*;

verus! {

/// A blog post.
#[derive(Debug, Default)]
pub struct Post {
    pub id: u32,
    pub title: String,
    pub content: String,
    /// Creation time as a string in the edge's local time.
    pub created_at: Option<String>,
}

/// A post as it sits in the cache, with the version it was written at.
pub struct CachedPost {
    pub version: u32,
    pub post: Post,
}

impl CachedPost {
    /// Pairs `post` with `version`.
    pub fn new(version: u32, post: Post) -> (r: CachedPost)
        ensures
            r.version == version,
            r.post == post,
    {
        CachedPost { version, post }
    }
}

} // verus!

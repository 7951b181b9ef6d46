//! Keeping the workspace cache current for open documents: which document's
//! text is sent for analysis in the background, and what a finished
//! analysis may do with its result. Content is compared by its hash.

use vstd::prelude::*;

verus! {

/// Whether text with hash `content_hash` still needs analysing: the cache
/// does not already hold it (`cached_hash`) and no analysis of it is under
/// way (`pending_hash`).
pub open spec fn cache_update_needed(cached_hash: Option<u64>, pending_hash: Option<u64>, content_hash: u64) -> bool {
    cached_hash != Some(content_hash) && pending_hash != Some(content_hash)
}

/// Whether to start a background analysis of a document's text: neither
/// cached nor already being analysed. The caller marks it pending when it
/// starts one.
pub fn document_cache_update_needed(cached_hash: Option<u64>, pending_hash: Option<u64>, content_hash: u64) -> (r: bool)
    ensures
        r == cache_update_needed(cached_hash, pending_hash, content_hash),
{
    let cached = match cached_hash {
        Some(h) => h == content_hash,
        None => false,
    };
    let pending = match pending_hash {
        Some(h) => h == content_hash,
        None => false,
    };
    !cached && !pending
}

/// Whether another open document is brought into the cache before a request
/// on the current one: it is not the current document, it is a Ruby file the
/// server analyses, and its text still needs analysing. Where the caller
/// analyses in place rather than in the background, it passes no pending
/// hash.
pub fn open_document_to_cache(
    is_current: bool,
    is_target: bool,
    cached_hash: Option<u64>,
    pending_hash: Option<u64>,
    content_hash: u64,
) -> (r: bool)
    ensures
        r == (!is_current && is_target && cache_update_needed(cached_hash, pending_hash, content_hash)),
{
    !is_current && is_target && document_cache_update_needed(cached_hash, pending_hash, content_hash)
}

/// What a finished background analysis does with its result.
#[derive(Clone, Copy, Debug, PartialEq, Eq, Structural)]
pub enum DocumentCacheCommit {
    /// Another analysis has taken its place, or none is pending: leave
    /// everything as it is.
    Dropped,
    /// The document has changed since: clear the pending mark, store
    /// nothing.
    Superseded,
    /// Store the result and clear the pending mark.
    Store,
}

/// What a finished analysis of text with hash `content_hash` does, given the
/// pending mark for its file and the hash of the file's open text now.
pub open spec fn cache_commit(pending_hash: Option<u64>, open_hash: Option<u64>, content_hash: u64) -> DocumentCacheCommit {
    if pending_hash != Some(content_hash) {
        DocumentCacheCommit::Dropped
    } else if open_hash is Some && open_hash != Some(content_hash) {
        DocumentCacheCommit::Superseded
    } else {
        DocumentCacheCommit::Store
    }
}

/// The fate of a finished analysis of text with hash `content_hash`, given
/// the pending mark for its file and the hash of the file's open text now,
/// if it is open: it is dropped unless it is the pending one; it stores its
/// result unless the open text has changed since.
pub fn document_cache_commit(pending_hash: Option<u64>, open_hash: Option<u64>, content_hash: u64) -> (r: DocumentCacheCommit)
    ensures
        r == cache_commit(pending_hash, open_hash, content_hash),
{
    let is_pending = match pending_hash {
        Some(h) => h == content_hash,
        None => false,
    };
    if !is_pending {
        return DocumentCacheCommit::Dropped;
    }
    match open_hash {
        Some(h) => {
            if h != content_hash {
                DocumentCacheCommit::Superseded
            } else {
                DocumentCacheCommit::Store
            }
        },
        None => DocumentCacheCommit::Store,
    }
}

/// No text is analysed twice over: once an analysis of some text is marked
/// pending, or its result is stored and the mark cleared, that text needs no
/// further analysis; and a finished analysis stores only when it is the
/// pending one and the open text, if any, is still the text it analysed.
pub proof fn law_document_cache_updates_once(cached_hash: Option<u64>, pending_hash: Option<u64>, open_hash: Option<u64>, content_hash: u64)
    ensures
        !cache_update_needed(cached_hash, Some(content_hash), content_hash),
        !cache_update_needed(Some(content_hash), None, content_hash),
        cache_commit(pending_hash, open_hash, content_hash) == DocumentCacheCommit::Store
            ==> pending_hash == Some(content_hash) && (open_hash is None || open_hash == Some(content_hash)),
{
}

} // verus!

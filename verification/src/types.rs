//! The engine's data model: documents, chunks, directory entries, the error
//! taxonomy, and the mathematical model of a storage backend's state.
//!
//! A document is a named markdown file scoped to `(user_id, agent_id?)`; a
//! chunk is a bounded slice of one document's content, the unit of retrieval,
//! optionally carrying an embedding vector.  Backend state is modeled as the
//! sequences of document and chunk records, plus the embedding dimension the
//! store is committed to.

use vstd::prelude::*;

verus! {

/// A stored document.
pub struct MemoryDocument {
    /// Opaque 128-bit identity.
    pub id: u128,
    /// Owning user.
    pub user_id: String,
    /// Owning agent within the user's space, if any.
    pub agent_id: Option<u128>,
    /// Normalized logical path.
    pub path: String,
    /// Full markdown content.
    pub content: String,
    /// Backend tick at creation.
    pub created_at: u64,
    /// Backend tick of the last content change.
    pub updated_at: u64,
}

/// The mathematical view of a document: identity, scope, path and content.
pub struct DocModel {
    pub id: u128,
    pub user: Seq<char>,
    pub agent: Option<u128>,
    pub path: Seq<char>,
    pub content: Seq<char>,
}

impl View for MemoryDocument {
    type V = DocModel;

    open spec fn view(&self) -> DocModel {
        DocModel {
            id: self.id,
            user: self.user_id@,
            agent: self.agent_id,
            path: self.path@,
            content: self.content@,
        }
    }
}

/// A stored chunk of one document.
pub struct MemoryChunk {
    /// Opaque 128-bit identity.
    pub id: u128,
    /// The owning document; a chunk never outlives it.
    pub document_id: u128,
    /// 0-based position in the document's chunk list.
    pub chunk_index: usize,
    /// The text slice.
    pub content: String,
    /// Fixed-dimension embedding, if one has been computed.
    pub embedding: Option<Vec<i32>>,
    /// Backend tick at creation.
    pub created_at: u64,
}

/// The mathematical view of a chunk.
pub struct ChunkModel {
    pub id: u128,
    pub doc: u128,
    pub idx: usize,
    pub content: Seq<char>,
    pub embedding: Option<Seq<i32>>,
}

impl View for MemoryChunk {
    type V = ChunkModel;

    open spec fn view(&self) -> ChunkModel {
        ChunkModel {
            id: self.id,
            doc: self.document_id,
            idx: self.chunk_index,
            content: self.content@,
            embedding: match self.embedding {
                Some(v) => Some(v@),
                None => None,
            },
        }
    }
}

/// One row of a directory listing.
pub struct WorkspaceEntry {
    /// The last path segment.
    pub name: String,
    /// Full path for files; directory path for directories.
    pub path: String,
    /// Whether some document path extends this entry.
    pub is_directory: bool,
}

/// The mathematical view of a directory entry.
pub struct EntryModel {
    pub name: Seq<char>,
    pub path: Seq<char>,
    pub is_directory: bool,
}

impl View for WorkspaceEntry {
    type V = EntryModel;

    open spec fn view(&self) -> EntryModel {
        EntryModel { name: self.name@, path: self.path@, is_directory: self.is_directory }
    }
}

/// Everything an engine operation can fail with.
#[derive(Debug)]
pub enum WorkspaceError {
    /// Lookup miss on a document.
    DocumentNotFound { path: String },
    /// Chunk update on an absent row.
    ChunkNotFound { id: u128 },
    /// A path that is empty after normalization.
    InvalidPath { path: String, reason: String },
    /// The embedding provider failed; surfaced from search, swallowed during
    /// indexing.
    EmbeddingFailed { reason: String },
    /// Underlying storage error.
    BackendError { reason: String },
    /// An embedding vector whose length does not match the store's dimension.
    DimensionMismatch { expected: usize, actual: usize },
}

// ---------------------------------------------------------------------------
// Backend state, modeled
// ---------------------------------------------------------------------------

/// The abstract state of a storage backend.
pub struct StoreModel {
    /// Document records, in creation order.
    pub docs: Seq<DocModel>,
    /// Chunk records, in creation order.
    pub chunks: Seq<ChunkModel>,
    /// The embedding dimension the store is committed to, fixed by the first
    /// embedded chunk.
    pub dim: Option<usize>,
    /// The identity-allocation counter; every stored identity is below it,
    /// and a backend refuses to create once it is exhausted.
    pub next: u128,
}

/// The document record lives in scope `(user, agent)` under `path`.
pub open spec fn doc_matches(d: DocModel, user: Seq<char>, agent: Option<u128>, path: Seq<char>) -> bool {
    d.user == user && d.agent == agent && d.path == path
}

/// The document record lives in scope `(user, agent)`.
pub open spec fn doc_in_scope(d: DocModel, user: Seq<char>, agent: Option<u128>) -> bool {
    d.user == user && d.agent == agent
}

/// The first index at or after `i` of a document in the given scope and
/// path.
pub open spec fn find_doc_from(
    docs: Seq<DocModel>,
    user: Seq<char>,
    agent: Option<u128>,
    path: Seq<char>,
    i: int,
) -> Option<int>
    decreases docs.len() + 1 - i,
{
    if i < 0 || i >= docs.len() {
        None
    } else if doc_matches(docs[i], user, agent, path) {
        Some(i)
    } else {
        find_doc_from(docs, user, agent, path, i + 1)
    }
}

/// The index of the document in scope `(user, agent)` at `path`.
pub open spec fn find_doc(
    docs: Seq<DocModel>,
    user: Seq<char>,
    agent: Option<u128>,
    path: Seq<char>,
) -> Option<int> {
    find_doc_from(docs, user, agent, path, 0)
}

/// What `find_doc_from` finds is the least matching index at or after `i`.
pub proof fn lemma_find_doc_from(
    docs: Seq<DocModel>,
    user: Seq<char>,
    agent: Option<u128>,
    path: Seq<char>,
    i: int,
)
    requires
        0 <= i,
    ensures
        match find_doc_from(docs, user, agent, path, i) {
            Some(m) => i <= m < docs.len() && doc_matches(docs[m], user, agent, path) && (forall|
                k: int,
            | i <= k < m ==> !doc_matches(docs[k], user, agent, path)),
            None => forall|k: int| i <= k < docs.len() ==> !doc_matches(docs[k], user, agent, path),
        },
    decreases docs.len() + 1 - i,
{
    if !(i >= docs.len()) && !doc_matches(docs[i], user, agent, path) {
        lemma_find_doc_from(docs, user, agent, path, i + 1);
    }
}

/// The first index at or after `i` of the document with identity `id`.
pub open spec fn find_doc_id_from(docs: Seq<DocModel>, id: u128, i: int) -> Option<int>
    decreases docs.len() + 1 - i,
{
    if i < 0 || i >= docs.len() {
        None
    } else if docs[i].id == id {
        Some(i)
    } else {
        find_doc_id_from(docs, id, i + 1)
    }
}

/// The index of the document with identity `id`.
pub open spec fn find_doc_id(docs: Seq<DocModel>, id: u128) -> Option<int> {
    find_doc_id_from(docs, id, 0)
}

/// What `find_doc_id_from` finds is the least index with that identity.
pub proof fn lemma_find_doc_id_from(docs: Seq<DocModel>, id: u128, i: int)
    requires
        0 <= i,
    ensures
        match find_doc_id_from(docs, id, i) {
            Some(m) => i <= m < docs.len() && docs[m].id == id && (forall|k: int|
                i <= k < m ==> (#[trigger] docs[k]).id != id),
            None => forall|k: int| i <= k < docs.len() ==> (#[trigger] docs[k]).id != id,
        },
    decreases docs.len() + 1 - i,
{
    if !(i >= docs.len()) && docs[i].id != id {
        lemma_find_doc_id_from(docs, id, i + 1);
    }
}

/// The first index at or after `i` of the chunk with identity `id`.
pub open spec fn find_chunk_id_from(chunks: Seq<ChunkModel>, id: u128, i: int) -> Option<int>
    decreases chunks.len() + 1 - i,
{
    if i < 0 || i >= chunks.len() {
        None
    } else if chunks[i].id == id {
        Some(i)
    } else {
        find_chunk_id_from(chunks, id, i + 1)
    }
}

/// The index of the chunk with identity `id`.
pub open spec fn find_chunk_id(chunks: Seq<ChunkModel>, id: u128) -> Option<int> {
    find_chunk_id_from(chunks, id, 0)
}

/// What `find_chunk_id_from` finds is the least index with that identity.
pub proof fn lemma_find_chunk_id_from(chunks: Seq<ChunkModel>, id: u128, i: int)
    requires
        0 <= i,
    ensures
        match find_chunk_id_from(chunks, id, i) {
            Some(m) => i <= m < chunks.len() && chunks[m].id == id && (forall|k: int|
                i <= k < m ==> (#[trigger] chunks[k]).id != id),
            None => forall|k: int| i <= k < chunks.len() ==> (#[trigger] chunks[k]).id != id,
        },
    decreases chunks.len() + 1 - i,
{
    if !(i >= chunks.len()) && chunks[i].id != id {
        lemma_find_chunk_id_from(chunks, id, i + 1);
    }
}

/// No two documents share one scope and path.
pub open spec fn docs_unique(docs: Seq<DocModel>) -> bool {
    forall|i: int, j: int|
        0 <= i < j < docs.len() ==> !((#[trigger] docs[i]).user == (#[trigger] docs[j]).user
            && docs[i].agent == docs[j].agent && docs[i].path == docs[j].path)
}

/// `find_doc` succeeds exactly when a matching document exists.
pub proof fn lemma_find_doc_some_iff(
    docs: Seq<DocModel>,
    user: Seq<char>,
    agent: Option<u128>,
    path: Seq<char>,
)
    ensures
        find_doc(docs, user, agent, path) is Some <==> exists|k: int|
            0 <= k < docs.len() && doc_matches(#[trigger] docs[k], user, agent, path),
{
    lemma_find_doc_from(docs, user, agent, path, 0);
}

/// `find_doc_id` succeeds exactly when a document with that identity exists.
pub proof fn lemma_find_doc_id_some_iff(docs: Seq<DocModel>, id: u128)
    ensures
        find_doc_id(docs, id) is Some <==> exists|k: int|
            0 <= k < docs.len() && (#[trigger] docs[k]).id == id,
{
    lemma_find_doc_id_from(docs, id, 0);
}

/// `find_chunk_id` succeeds exactly when a chunk with that identity exists.
pub proof fn lemma_find_chunk_id_some_iff(chunks: Seq<ChunkModel>, id: u128)
    ensures
        find_chunk_id(chunks, id) is Some <==> exists|k: int|
            0 <= k < chunks.len() && (#[trigger] chunks[k]).id == id,
{
    lemma_find_chunk_id_from(chunks, id, 0);
}

/// Every entry of `chunks_without_doc` is a stored chunk of some other
/// document, and every stored chunk of another document is kept.
pub proof fn lemma_chunks_without_doc_members(chunks: Seq<ChunkModel>, doc: u128)
    ensures
        forall|k: int|
            0 <= k < chunks_without_doc(chunks, doc).len() ==> (exists|j: int|
                0 <= j < chunks.len() && #[trigger] chunks_without_doc(chunks, doc)[k] == chunks[j]
                    && chunks[j].doc != doc),
        forall|j: int|
            0 <= j < chunks.len() && (#[trigger] chunks[j]).doc != doc ==> chunks_without_doc(
                chunks,
                doc,
            ).contains(chunks[j]),
    decreases chunks.len(),
{
    if chunks.len() > 0 {
        lemma_chunks_without_doc_members(chunks.drop_last(), doc);
        let prev = chunks_without_doc(chunks.drop_last(), doc);
        let cur = chunks_without_doc(chunks, doc);
        assert forall|j: int|
            0 <= j < chunks.len() && (#[trigger] chunks[j]).doc != doc implies cur.contains(
            chunks[j],
        ) by {
            if j < chunks.len() - 1 {
                assert(chunks.drop_last()[j] == chunks[j]);
                let w = choose|w: int| 0 <= w < prev.len() && prev[w] == chunks[j];
                if chunks.last().doc != doc {
                    assert(cur[w] == chunks[j]);
                } else {
                    assert(cur[w] == chunks[j]);
                }
            } else {
                assert(cur.last() == chunks[j]);
            }
        }
    }
}

/// Filtering away one document's chunks preserves pairwise-distinct
/// identities.
pub proof fn lemma_chunks_without_doc_distinct(chunks: Seq<ChunkModel>, doc: u128)
    requires
        forall|a: int, b: int|
            0 <= a < b < chunks.len() ==> (#[trigger] chunks[a]).id != (#[trigger] chunks[b]).id,
    ensures
        forall|a: int, b: int|
            0 <= a < b < chunks_without_doc(chunks, doc).len() ==> (#[trigger] chunks_without_doc(
                chunks,
                doc,
            )[a]).id != (#[trigger] chunks_without_doc(chunks, doc)[b]).id,
    decreases chunks.len(),
{
    if chunks.len() > 0 {
        assert forall|a: int, b: int|
            0 <= a < b < chunks.drop_last().len() implies (#[trigger] chunks.drop_last()[a]).id != (
        #[trigger] chunks.drop_last()[b]).id by {
            assert(chunks.drop_last()[a] == chunks[a]);
            assert(chunks.drop_last()[b] == chunks[b]);
        }
        lemma_chunks_without_doc_distinct(chunks.drop_last(), doc);
        lemma_chunks_without_doc_members(chunks.drop_last(), doc);
        let prev = chunks_without_doc(chunks.drop_last(), doc);
        let cur = chunks_without_doc(chunks, doc);
        if chunks.last().doc != doc {
            assert forall|a: int, b: int| 0 <= a < b < cur.len() implies (#[trigger] cur[a]).id != (
            #[trigger] cur[b]).id by {
                if b < prev.len() {
                    assert(cur[a] == prev[a] && cur[b] == prev[b]);
                } else {
                    assert(cur[b] == chunks.last());
                    assert(cur[a] == prev[a]);
                    let w = choose|w: int|
                        0 <= w < chunks.drop_last().len() && #[trigger] prev[a]
                            == chunks.drop_last()[w] && chunks.drop_last()[w].doc != doc;
                    assert(chunks.drop_last()[w] == chunks[w]);
                    assert(chunks[w].id != chunks[chunks.len() - 1].id);
                }
            }
        }
    }
}

/// Some chunk of document `doc` sits at position `idx`.
pub open spec fn has_chunk_at(chunks: Seq<ChunkModel>, doc: u128, idx: usize) -> bool {
    exists|i: int| 0 <= i < chunks.len() && (#[trigger] chunks[i]).doc == doc && chunks[i].idx == idx
}

/// Every chunk except those of document `doc`, in creation order.
pub open spec fn chunks_without_doc(chunks: Seq<ChunkModel>, doc: u128) -> Seq<ChunkModel>
    decreases chunks.len(),
{
    if chunks.len() == 0 {
        Seq::empty()
    } else if chunks.last().doc != doc {
        chunks_without_doc(chunks.drop_last(), doc).push(chunks.last())
    } else {
        chunks_without_doc(chunks.drop_last(), doc)
    }
}

/// The document paths in scope, in creation order.
pub open spec fn paths_in_scope(docs: Seq<DocModel>, user: Seq<char>, agent: Option<u128>) -> Seq<
    Seq<char>,
>
    decreases docs.len(),
{
    if docs.len() == 0 {
        Seq::empty()
    } else if doc_in_scope(docs.last(), user, agent) {
        paths_in_scope(docs.drop_last(), user, agent).push(docs.last().path)
    } else {
        paths_in_scope(docs.drop_last(), user, agent)
    }
}

/// The chunks in scope that still lack an embedding, in creation order.
pub open spec fn unembedded_in_scope(
    docs: Seq<DocModel>,
    chunks: Seq<ChunkModel>,
    user: Seq<char>,
    agent: Option<u128>,
) -> Seq<ChunkModel>
    decreases chunks.len(),
{
    if chunks.len() == 0 {
        Seq::empty()
    } else {
        let prev = unembedded_in_scope(docs, chunks.drop_last(), user, agent);
        let c = chunks.last();
        if c.embedding is None && (match find_doc_id(docs, c.doc) {
            Some(i) => doc_in_scope(docs[i], user, agent),
            None => false,
        }) {
            prev.push(c)
        } else {
            prev
        }
    }
}

/// Every entry of the un-embedded batch is a chunk of the store that indeed
/// lacks an embedding.
pub proof fn lemma_unembedded_members(
    docs: Seq<DocModel>,
    chunks: Seq<ChunkModel>,
    user: Seq<char>,
    agent: Option<u128>,
)
    ensures
        forall|k: int|
            #![trigger unembedded_in_scope(docs, chunks, user, agent)[k]]
            0 <= k < unembedded_in_scope(docs, chunks, user, agent).len() ==> (exists|j: int|
                0 <= j < chunks.len() && (#[trigger] chunks[j]) == unembedded_in_scope(
                    docs,
                    chunks,
                    user,
                    agent,
                )[k] && chunks[j].embedding is None),
    decreases chunks.len(),
{
    if chunks.len() > 0 {
        lemma_unembedded_members(docs, chunks.drop_last(), user, agent);
        let prev = unembedded_in_scope(docs, chunks.drop_last(), user, agent);
        let cur = unembedded_in_scope(docs, chunks, user, agent);
        assert forall|k: int|
            #![trigger unembedded_in_scope(docs, chunks, user, agent)[k]]
            0 <= k < cur.len() implies (exists|j: int|
            0 <= j < chunks.len() && (#[trigger] chunks[j]) == unembedded_in_scope(
                docs,
                chunks,
                user,
                agent,
            )[k] && chunks[j].embedding is None) by {
            if k < prev.len() {
                let j = choose|j: int|
                    0 <= j < chunks.drop_last().len() && (#[trigger] chunks.drop_last()[j])
                        == unembedded_in_scope(docs, chunks.drop_last(), user, agent)[k]
                        && chunks.drop_last()[j].embedding is None;
                assert(chunks.drop_last()[j] == chunks[j]);
                assert(cur[k] == prev[k]);
            } else {
                assert(cur[k] == chunks[chunks.len() - 1]);
            }
        }
    }
}

/// The un-embedded batch inherits pairwise-distinct chunk identities.
pub proof fn lemma_unembedded_distinct(
    docs: Seq<DocModel>,
    chunks: Seq<ChunkModel>,
    user: Seq<char>,
    agent: Option<u128>,
)
    requires
        forall|a: int, b: int|
            0 <= a < b < chunks.len() ==> (#[trigger] chunks[a]).id != (#[trigger] chunks[b]).id,
    ensures
        forall|a: int, b: int|
            0 <= a < b < unembedded_in_scope(docs, chunks, user, agent).len() ==> (
            #[trigger] unembedded_in_scope(docs, chunks, user, agent)[a]).id != (
            #[trigger] unembedded_in_scope(docs, chunks, user, agent)[b]).id,
    decreases chunks.len(),
{
    if chunks.len() > 0 {
        assert forall|a: int, b: int|
            0 <= a < b < chunks.drop_last().len() implies (#[trigger] chunks.drop_last()[a]).id != (
        #[trigger] chunks.drop_last()[b]).id by {
            assert(chunks.drop_last()[a] == chunks[a]);
            assert(chunks.drop_last()[b] == chunks[b]);
        }
        lemma_unembedded_distinct(docs, chunks.drop_last(), user, agent);
        lemma_unembedded_members(docs, chunks.drop_last(), user, agent);
        let prev = unembedded_in_scope(docs, chunks.drop_last(), user, agent);
        let cur = unembedded_in_scope(docs, chunks, user, agent);
        if cur.len() > prev.len() {
            assert forall|a: int, b: int|
                0 <= a < b < cur.len() implies (#[trigger] cur[a]).id != (#[trigger] cur[b]).id by {
                if b < prev.len() {
                    assert(cur[a] == prev[a] && cur[b] == prev[b]);
                } else {
                    assert(cur[b] == chunks.last());
                    assert(cur[a] == prev[a]);
                    assert(prev[a] == unembedded_in_scope(docs, chunks.drop_last(), user, agent)[a]);
                    let w = choose|w: int|
                        0 <= w < chunks.drop_last().len() && (#[trigger] chunks.drop_last()[w])
                            == unembedded_in_scope(docs, chunks.drop_last(), user, agent)[a]
                            && chunks.drop_last()[w].embedding is None;
                    assert(chunks.drop_last()[w] == chunks[w]);
                    assert(chunks[w].id != chunks[chunks.len() - 1].id);
                }
            }
        } else {
            assert forall|a: int, b: int|
                0 <= a < b < cur.len() implies (#[trigger] cur[a]).id != (#[trigger] cur[b]).id by {
                assert(cur[a] == prev[a] && cur[b] == prev[b]);
            }
        }
    }
}

// ---------------------------------------------------------------------------
// Directory listing, modeled
// ---------------------------------------------------------------------------

/// `p` starts with `prefix`.
pub open spec fn starts_with(p: Seq<char>, prefix: Seq<char>) -> bool {
    prefix.len() <= p.len() && p.subrange(0, prefix.len() as int) == prefix
}

/// The remainder of path `p` below directory `dir`: the whole path below
/// the root, or what follows `dir` and its separator.
pub open spec fn rel_in_dir(dir: Seq<char>, p: Seq<char>) -> Option<Seq<char>> {
    if dir.len() == 0 {
        Some(p)
    } else if starts_with(p, dir + seq!['/']) {
        Some(p.skip(dir.len() + 1 as int))
    } else {
        None
    }
}

/// The first `/` in `p` at or after `i`.
pub open spec fn slash_from(p: Seq<char>, i: int) -> Option<int>
    decreases p.len() + 1 - i,
{
    if i < 0 || i >= p.len() {
        None
    } else if p[i] == '/' {
        Some(i)
    } else {
        slash_from(p, i + 1)
    }
}

/// The first segment of a relative path.
pub open spec fn seg_of(r: Seq<char>) -> Seq<char> {
    match slash_from(r, 0) {
        Some(k) => r.subrange(0, k),
        None => r,
    }
}

/// The relative path continues below its first segment.
pub open spec fn rel_is_dir(r: Seq<char>) -> bool {
    slash_from(r, 0) is Some
}

/// The distinct first segments below `dir` in scope, in first-appearance
/// order.
pub open spec fn seg_names(
    docs: Seq<DocModel>,
    user: Seq<char>,
    agent: Option<u128>,
    dir: Seq<char>,
) -> Seq<Seq<char>>
    decreases docs.len(),
{
    if docs.len() == 0 {
        Seq::empty()
    } else {
        let prev = seg_names(docs.drop_last(), user, agent, dir);
        let d = docs.last();
        if doc_in_scope(d, user, agent) {
            match rel_in_dir(dir, d.path) {
                Some(r) => {
                    if r.len() == 0 || prev.contains(seg_of(r)) {
                        prev
                    } else {
                        prev.push(seg_of(r))
                    }
                },
                None => prev,
            }
        } else {
            prev
        }
    }
}

/// Whether segment `name` below `dir` is a directory: some document path in
/// scope continues below it.
pub open spec fn seg_is_dir(
    docs: Seq<DocModel>,
    user: Seq<char>,
    agent: Option<u128>,
    dir: Seq<char>,
    name: Seq<char>,
) -> bool {
    exists|i: int|
        0 <= i < docs.len() && doc_in_scope(#[trigger] docs[i], user, agent) && (match rel_in_dir(
            dir,
            docs[i].path,
        ) {
            Some(r) => seg_of(r) == name && rel_is_dir(r),
            None => false,
        })
}

/// The listed segment names are exactly the distinct immediate children: a
/// name is listed if and only if some document in scope lies below `dir`
/// with that first segment, and no name is listed twice.
pub proof fn lemma_seg_names_exact(
    docs: Seq<DocModel>,
    user: Seq<char>,
    agent: Option<u128>,
    dir: Seq<char>,
)
    ensures
        forall|n: Seq<char>|
            #[trigger] seg_names(docs, user, agent, dir).contains(n) <==> (exists|i: int|
                0 <= i < docs.len() && doc_in_scope(#[trigger] docs[i], user, agent) && (
                match rel_in_dir(dir, docs[i].path) {
                    Some(r) => r.len() > 0 && seg_of(r) == n,
                    None => false,
                })),
        forall|a: int, b: int|
            0 <= a < b < seg_names(docs, user, agent, dir).len() ==> #[trigger] seg_names(
                docs,
                user,
                agent,
                dir,
            )[a] != #[trigger] seg_names(docs, user, agent, dir)[b],
    decreases docs.len(),
{
    if docs.len() > 0 {
        lemma_seg_names_exact(docs.drop_last(), user, agent, dir);
        let prev = seg_names(docs.drop_last(), user, agent, dir);
        let cur = seg_names(docs, user, agent, dir);
        assert forall|n: Seq<char>| #[trigger] cur.contains(n) implies (exists|i: int|
            0 <= i < docs.len() && doc_in_scope(#[trigger] docs[i], user, agent) && (
            match rel_in_dir(dir, docs[i].path) {
                Some(r) => r.len() > 0 && seg_of(r) == n,
                None => false,
            })) by {
            let w = choose|w: int| 0 <= w < cur.len() && cur[w] == n;
            if w < prev.len() {
                assert(prev[w] == n);
                assert(prev.contains(n));
                let i = choose|i: int|
                    0 <= i < docs.drop_last().len() && doc_in_scope(
                        #[trigger] docs.drop_last()[i],
                        user,
                        agent,
                    ) && (match rel_in_dir(dir, docs.drop_last()[i].path) {
                        Some(r) => r.len() > 0 && seg_of(r) == n,
                        None => false,
                    });
                assert(docs.drop_last()[i] == docs[i]);
                assert(doc_in_scope(docs[i], user, agent));
            } else {
                assert(cur[w] == cur.last());
                assert(doc_in_scope(docs[docs.len() - 1], user, agent));
            }
        }
        assert forall|n: Seq<char>|
            (exists|i: int|
                0 <= i < docs.len() && doc_in_scope(#[trigger] docs[i], user, agent) && (
                match rel_in_dir(dir, docs[i].path) {
                    Some(r) => r.len() > 0 && seg_of(r) == n,
                    None => false,
                })) implies #[trigger] cur.contains(n) by {
            let i = choose|i: int|
                0 <= i < docs.len() && doc_in_scope(#[trigger] docs[i], user, agent) && (
                match rel_in_dir(dir, docs[i].path) {
                    Some(r) => r.len() > 0 && seg_of(r) == n,
                    None => false,
                });
            if i < docs.len() - 1 {
                assert(docs.drop_last()[i] == docs[i]);
                assert(prev.contains(n));
                let w = choose|w: int| 0 <= w < prev.len() && prev[w] == n;
                assert(cur[w] == n);
            } else {
                let d = docs.last();
                match rel_in_dir(dir, d.path) {
                    Some(r) => {
                        if prev.contains(seg_of(r)) {
                            let w = choose|w: int| 0 <= w < prev.len() && prev[w] == seg_of(r);
                            assert(cur[w] == n);
                        } else {
                            assert(cur.last() == n);
                        }
                    },
                    None => {},
                }
            }
        }
        assert forall|a: int, b: int| 0 <= a < b < cur.len() implies #[trigger] cur[a] != #[trigger]
        cur[b] by {
            if b < prev.len() {
                assert(cur[a] == prev[a] && cur[b] == prev[b]);
            } else if cur.len() > prev.len() {
                assert(cur[a] == prev[a]);
                assert(cur[b] == cur.last());
                assert(!prev.contains(cur.last()));
                assert(prev[a] == cur[a]);
            }
        }
    }
}

/// `dir/name`, or just `name` below the root.
pub open spec fn dir_join(dir: Seq<char>, name: Seq<char>) -> Seq<char> {
    if dir.len() == 0 {
        name
    } else {
        dir + seq!['/'] + name
    }
}

/// What listing a directory returns: one entry per distinct first segment in
/// scope, in first-appearance order, marked as a directory when any document
/// path continues below it.
pub open spec fn list_dir_spec(
    docs: Seq<DocModel>,
    user: Seq<char>,
    agent: Option<u128>,
    dir: Seq<char>,
) -> Seq<EntryModel> {
    seg_names(docs, user, agent, dir).map_values(
        |n: Seq<char>|
            EntryModel {
                name: n,
                path: dir_join(dir, n),
                is_directory: seg_is_dir(docs, user, agent, dir, n),
            },
    )
}

} // verus!

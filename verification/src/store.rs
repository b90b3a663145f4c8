//! The storage backend contract and its verified in-memory implementation.
//!
//! [`StorageBackend`] is the engine's sole integration point for
//! persistence: CRUD on documents and chunks, directory listing, and the
//! hybrid-search primitive, each specified against the abstract
//! [`StoreModel`].  [`InMemoryStore`] implements the contract with plain
//! vectors: an embedded store whose lexical ranker counts query occurrences
//! and whose vector ranker orders by exact dot product, both stable and
//! reproducible on identical data.

use vstd::prelude::*;

use crate::search::{
    ranked_views, reciprocal_rank_fusion, result_views, rrf_spec, RankedModel, RankedResult,
    SearchConfig, SearchResult, MAX_RANK_POOL,
};
use crate::text::{chars_vec, matches_at, string_from_chars, to_lowercase};
use crate::types::{
    chunks_without_doc, doc_in_scope, doc_matches, find_chunk_id, find_chunk_id_from,
    find_doc, find_doc_from, find_doc_id, find_doc_id_from, has_chunk_at, lemma_find_chunk_id_from,
    lemma_find_doc_from, lemma_find_doc_id_from, list_dir_spec, paths_in_scope, seg_is_dir,
    seg_names, unembedded_in_scope, ChunkModel, DocModel, EntryModel, MemoryChunk, MemoryDocument,
    StoreModel, WorkspaceEntry, WorkspaceError,
};

verus! {

// ---------------------------------------------------------------------------
// Scope soundness of rankings
// ---------------------------------------------------------------------------

/// The ranking entry describes a real chunk of a document in scope.
pub open spec fn ranked_entry_sound(
    m: StoreModel,
    user: Seq<char>,
    agent: Option<u128>,
    e: RankedModel,
    need_embedding: bool,
) -> bool {
    exists|ci: int, di: int|
        {
            &&& 0 <= ci < m.chunks.len()
            &&& 0 <= di < m.docs.len()
            &&& (#[trigger] m.chunks[ci]).id == e.chunk_id
            &&& m.chunks[ci].doc == e.document_id
            &&& m.chunks[ci].idx == e.chunk_index
            &&& m.chunks[ci].content == e.content
            &&& (#[trigger] m.docs[di]).id == m.chunks[ci].doc
            &&& doc_in_scope(m.docs[di], user, agent)
            &&& m.docs[di].path == e.path
            &&& (need_embedding ==> m.chunks[ci].embedding is Some)
        }
}

/// Every entry of the ranking describes a chunk of a document in scope.
pub open spec fn ranking_in_scope(
    m: StoreModel,
    user: Seq<char>,
    agent: Option<u128>,
    l: Seq<RankedModel>,
    need_embedding: bool,
) -> bool {
    forall|k: int| 0 <= k < l.len() ==> ranked_entry_sound(m, user, agent, #[trigger] l[k], need_embedding)
}

/// The chunk data a search result carries.
pub open spec fn result_ranked_view(y: crate::search::SearchResultModel) -> RankedModel {
    RankedModel {
        chunk_id: y.chunk_id,
        document_id: y.document_id,
        chunk_index: y.chunk_index,
        path: y.path,
        content: y.content,
    }
}

/// A search over scope-sound rankings never returns a chunk belonging to a
/// document outside that scope: every result's chunk data describes a stored
/// chunk whose owning document is in scope.
pub proof fn lemma_search_results_scoped(
    m: StoreModel,
    user: Seq<char>,
    agent: Option<u128>,
    l: Seq<RankedModel>,
    v: Seq<RankedModel>,
    cfg: SearchConfig,
    results: Seq<crate::search::SearchResultModel>,
)
    requires
        ranking_in_scope(m, user, agent, l, false),
        ranking_in_scope(m, user, agent, v, true),
        results == rrf_spec(l, v, cfg),
    ensures
        forall|k: int|
            0 <= k < results.len() ==> ranked_entry_sound(
                m,
                user,
                agent,
                result_ranked_view(#[trigger] results[k]),
                false,
            ),
{
    assert forall|k: int| 0 <= k < results.len() implies ranked_entry_sound(
        m,
        user,
        agent,
        result_ranked_view(#[trigger] results[k]),
        false,
    ) by {
        let y = results[k];
        assert(results.contains(y));
        crate::search::lemma_rrf_result_sound(l, v, cfg, y);
        if exists|i: int|
            0 <= i < l.len() && {
                let e = #[trigger] l[i];
                y.chunk_id == e.chunk_id && y.document_id == e.document_id && y.chunk_index
                    == e.chunk_index && y.path == e.path && y.content == e.content
            } {
            let i = choose|i: int|
                0 <= i < l.len() && {
                    let e = #[trigger] l[i];
                    y.chunk_id == e.chunk_id && y.document_id == e.document_id && y.chunk_index
                        == e.chunk_index && y.path == e.path && y.content == e.content
                };
            assert(result_ranked_view(y) == l[i]);
            assert(ranked_entry_sound(m, user, agent, l[i], false));
        } else {
            let j = choose|j: int|
                0 <= j < v.len() && {
                    let e = #[trigger] v[j];
                    y.chunk_id == e.chunk_id && y.document_id == e.document_id && y.chunk_index
                        == e.chunk_index && y.path == e.path && y.content == e.content
                };
            assert(result_ranked_view(y) == v[j]);
            assert(ranked_entry_sound(m, user, agent, v[j], true));
            let (ci, di) = choose|ci: int, di: int|
                {
                    &&& 0 <= ci < m.chunks.len()
                    &&& 0 <= di < m.docs.len()
                    &&& (#[trigger] m.chunks[ci]).id == v[j].chunk_id
                    &&& m.chunks[ci].doc == v[j].document_id
                    &&& m.chunks[ci].idx == v[j].chunk_index
                    &&& m.chunks[ci].content == v[j].content
                    &&& (#[trigger] m.docs[di]).id == m.chunks[ci].doc
                    &&& doc_in_scope(m.docs[di], user, agent)
                    &&& m.docs[di].path == v[j].path
                    &&& (true ==> m.chunks[ci].embedding is Some)
                };
            assert((#[trigger] m.chunks[ci]).id == result_ranked_view(y).chunk_id);
            assert(ranked_entry_sound(m, user, agent, result_ranked_view(y), false));
        }
    }
}

// ---------------------------------------------------------------------------
// The storage contract
// ---------------------------------------------------------------------------

/// The capability set every storage backend provides.  All semantics are
/// stated against [`StoreModel`]; the facade interacts with persistence only
/// through this contract.
pub trait StorageBackend: Sized {
    /// The abstract state.
    spec fn model(&self) -> StoreModel;

    /// The backend's internal well-formedness.
    spec fn inv(&self) -> bool;

    /// A well-formed backend assigns every document and every chunk its own
    /// identity, and never stores two documents under one scope and path.
    proof fn ids_unique(&self)
        requires
            self.inv(),
        ensures
            forall|a: int, b: int|
                0 <= a < b < self.model().docs.len() ==> (#[trigger] self.model().docs[a]).id != (
                #[trigger] self.model().docs[b]).id,
            forall|a: int, b: int|
                0 <= a < b < self.model().chunks.len() ==> (#[trigger] self.model().chunks[a]).id
                    != (#[trigger] self.model().chunks[b]).id,
            crate::types::docs_unique(self.model().docs),
    ;

    /// Exact-match lookup of a document by scope and path.
    fn get_document_by_path(&self, user_id: &str, agent_id: Option<u128>, path: &str) -> (r: Result<
        MemoryDocument,
        WorkspaceError,
    >)
        requires
            self.inv(),
        ensures
            match r {
                Ok(d) => find_doc(self.model().docs, user_id@, agent_id, path@) matches Some(i)
                    && d@ == self.model().docs[i],
                Err(e) => e is DocumentNotFound && find_doc(
                    self.model().docs,
                    user_id@,
                    agent_id,
                    path@,
                ) is None,
            },
    ;

    /// Lookup of a document by identity.
    fn get_document_by_id(&self, id: u128) -> (r: Result<MemoryDocument, WorkspaceError>)
        requires
            self.inv(),
        ensures
            match r {
                Ok(d) => find_doc_id(self.model().docs, id) matches Some(i) && d@
                    == self.model().docs[i],
                Err(e) => e is DocumentNotFound && find_doc_id(self.model().docs, id) is None,
            },
    ;

    /// Upsert-then-read: the existing document, or a fresh one with empty
    /// content.  A second caller observes the first's row.
    fn get_or_create_document_by_path(
        &mut self,
        user_id: &str,
        agent_id: Option<u128>,
        path: &str,
    ) -> (r: Result<MemoryDocument, WorkspaceError>)
        requires
            old(self).inv(),
        ensures
            final(self).inv(),
            final(self).model().next >= old(self).model().next,
            final(self).model().chunks == old(self).model().chunks,
            final(self).model().dim == old(self).model().dim,
            match r {
                Ok(d) => {
                    &&& d@.user == user_id@
                    &&& d@.agent == agent_id
                    &&& d@.path == path@
                    &&& match find_doc(old(self).model().docs, user_id@, agent_id, path@) {
                        Some(i) => final(self).model() == old(self).model() && d@ == old(self).model().docs[i],
                        None => final(self).model().docs == old(self).model().docs.push(d@)
                            && d@.content.len() == 0 && find_doc_id(
                            old(self).model().docs,
                            d@.id,
                        ) is None && find_chunk_id(old(self).model().chunks, d@.id) is None,
                    }
                },
                Err(e) => e is BackendError && final(self).model() == old(self).model() && old(
                    self,
                ).model().next == u128::MAX,
            },
    ;

    /// Replace a document's content (its chunks are untouched; the caller
    /// re-indexes).
    fn update_document(&mut self, id: u128, content: &str) -> (r: Result<(), WorkspaceError>)
        requires
            old(self).inv(),
        ensures
            final(self).inv(),
            final(self).model().next >= old(self).model().next,
            final(self).model().chunks == old(self).model().chunks,
            final(self).model().dim == old(self).model().dim,
            match r {
                Ok(()) => find_doc_id(old(self).model().docs, id) matches Some(i) && final(self).model().docs == old(self).model().docs.update(
                    i,
                    DocModel { content: content@, ..old(self).model().docs[i] },
                ),
                Err(e) => e is DocumentNotFound && find_doc_id(old(self).model().docs, id) is None
                    && final(self).model() == old(self).model(),
            },
    ;

    /// Delete a document and cascade to its chunks; absence is reported as
    /// `DocumentNotFound`.
    fn delete_document_by_path(&mut self, user_id: &str, agent_id: Option<u128>, path: &str) -> (r:
        Result<(), WorkspaceError>)
        requires
            old(self).inv(),
        ensures
            final(self).inv(),
            final(self).model().next >= old(self).model().next,
            final(self).model().dim == old(self).model().dim,
            match r {
                Ok(()) => find_doc(old(self).model().docs, user_id@, agent_id, path@)
                    matches Some(i) && final(self).model().docs == old(self).model().docs.remove(i)
                    && final(self).model().chunks == chunks_without_doc(
                    old(self).model().chunks,
                    old(self).model().docs[i].id,
                ),
                Err(e) => e is DocumentNotFound && find_doc(
                    old(self).model().docs,
                    user_id@,
                    agent_id,
                    path@,
                ) is None && final(self).model() == old(self).model(),
            },
    ;

    /// The immediate children of a directory in scope: one entry per
    /// distinct first segment, directories synthesized.
    fn list_directory(&self, user_id: &str, agent_id: Option<u128>, directory: &str) -> (r: Result<
        Vec<WorkspaceEntry>,
        WorkspaceError,
    >)
        requires
            self.inv(),
        ensures
            match r {
                Ok(es) => es@.map_values(|e: WorkspaceEntry| e@) == list_dir_spec(
                    self.model().docs,
                    user_id@,
                    agent_id,
                    directory@,
                ),
                Err(e) => e is BackendError,
            },
    ;

    /// All document paths in scope, in creation order.
    fn list_all_paths(&self, user_id: &str, agent_id: Option<u128>) -> (r: Result<
        Vec<String>,
        WorkspaceError,
    >)
        requires
            self.inv(),
        ensures
            match r {
                Ok(ps) => ps@.map_values(|p: String| p@) == paths_in_scope(
                    self.model().docs,
                    user_id@,
                    agent_id,
                ),
                Err(e) => e is BackendError,
            },
    ;

    /// Remove every chunk of a document.
    fn delete_chunks(&mut self, document_id: u128) -> (r: Result<(), WorkspaceError>)
        requires
            old(self).inv(),
        ensures
            final(self).inv(),
            final(self).model().next >= old(self).model().next,
            final(self).model().docs == old(self).model().docs,
            final(self).model().dim == old(self).model().dim,
            match r {
                Ok(()) => final(self).model().chunks == chunks_without_doc(
                    old(self).model().chunks,
                    document_id,
                ),
                Err(e) => false,
            },
    ;

    /// Append a chunk of a document at a position; `(document_id, index)`
    /// must be unique, and an embedded chunk must match the store's
    /// dimension (the first embedded chunk fixes it).
    fn insert_chunk(
        &mut self,
        document_id: u128,
        chunk_index: usize,
        content: &str,
        embedding: Option<&Vec<i32>>,
    ) -> (r: Result<u128, WorkspaceError>)
        requires
            old(self).inv(),
        ensures
            final(self).inv(),
            final(self).model().next >= old(self).model().next,
            final(self).model().docs == old(self).model().docs,
            match r {
                Ok(id) => {
                    let e_view = match embedding {
                        Some(v) => Some(v@),
                        None => None,
                    };
                    &&& find_doc_id(old(self).model().docs, document_id) is Some
                    &&& !has_chunk_at(old(self).model().chunks, document_id, chunk_index)
                    &&& find_chunk_id(old(self).model().chunks, id) is None
                    &&& find_doc_id(old(self).model().docs, id) is None
                    &&& final(self).model().chunks == old(self).model().chunks.push(
                        ChunkModel {
                            id,
                            doc: document_id,
                            idx: chunk_index,
                            content: content@,
                            embedding: e_view,
                        },
                    )
                    &&& final(self).model().dim == (match (embedding, old(self).model().dim) {
                        (Some(v), None) => Some(v@.len() as usize),
                        _ => old(self).model().dim,
                    })
                },
                Err(e) => {
                    &&& final(self).model() == old(self).model()
                    &&& (e is DocumentNotFound ==> find_doc_id(
                        old(self).model().docs,
                        document_id,
                    ) is None)
                    &&& (e is DimensionMismatch ==> (embedding matches Some(v) && (old(self).model().dim matches Some(dm) && v@.len() != dm)))
                    &&& (e is DocumentNotFound || e is DimensionMismatch || e is BackendError)
                },
            },
    ;

    /// Set or replace a chunk's embedding.
    fn update_chunk_embedding(&mut self, chunk_id: u128, embedding: &Vec<i32>) -> (r: Result<
        (),
        WorkspaceError,
    >)
        requires
            old(self).inv(),
        ensures
            final(self).inv(),
            final(self).model().next >= old(self).model().next,
            final(self).model().docs == old(self).model().docs,
            match r {
                Ok(()) => {
                    &&& find_chunk_id(old(self).model().chunks, chunk_id) matches Some(i) && final(self).model().chunks == old(self).model().chunks.update(
                        i,
                        ChunkModel { embedding: Some(embedding@), ..old(self).model().chunks[i] },
                    )
                    &&& final(self).model().dim == (match old(self).model().dim {
                        Some(dm) => Some(dm),
                        None => Some(embedding@.len() as usize),
                    })
                },
                Err(e) => {
                    &&& final(self).model() == old(self).model()
                    &&& (e is ChunkNotFound ==> find_chunk_id(
                        old(self).model().chunks,
                        chunk_id,
                    ) is None)
                    &&& (e is DimensionMismatch ==> (old(self).model().dim matches Some(dm)
                        && embedding@.len() != dm))
                    &&& (e is ChunkNotFound || e is DimensionMismatch)
                },
            },
    ;

    /// A bounded batch of chunks in scope that still lack an embedding, in
    /// creation order.
    fn get_chunks_without_embeddings(&self, user_id: &str, agent_id: Option<u128>, limit: usize) -> (r:
        Result<Vec<MemoryChunk>, WorkspaceError>)
        requires
            self.inv(),
        ensures
            match r {
                Ok(cs) => {
                    let all = unembedded_in_scope(
                        self.model().docs,
                        self.model().chunks,
                        user_id@,
                        agent_id,
                    );
                    cs@.map_values(|c: MemoryChunk| c@) == (if all.len() <= limit {
                        all
                    } else {
                        all.subrange(0, limit as int)
                    })
                },
                Err(e) => e is BackendError,
            },
    ;

    /// The backend's lexical ranking of a query over a state: a function of
    /// the abstract state, the scope and the query text alone.
    spec fn lexical_ranking_model(
        m: StoreModel,
        user: Seq<char>,
        agent: Option<u128>,
        query: Seq<char>,
    ) -> Seq<RankedModel>;

    /// The backend's vector ranking of a query embedding over a state: a
    /// function of the abstract state, the scope and the vector alone.
    spec fn vector_ranking_model(
        m: StoreModel,
        user: Seq<char>,
        agent: Option<u128>,
        qe: Seq<i32>,
    ) -> Seq<RankedModel>;

    /// Hybrid search over the chunks in scope: the backend's lexical and
    /// vector rankings of this state and query, fused by reciprocal rank
    /// fusion under the given configuration.  Both rankings draw only from
    /// chunks of documents in scope.
    fn hybrid_search(
        &self,
        user_id: &str,
        agent_id: Option<u128>,
        query: &str,
        query_embedding: Option<&Vec<i32>>,
        config: &SearchConfig,
    ) -> (r: Result<Vec<SearchResult>, WorkspaceError>)
        requires
            self.inv(),
            config.wf(),
        ensures
            match r {
                Ok(results) => ({
                    let l = Self::lexical_ranking_model(self.model(), user_id@, agent_id, query@);
                    let v = match query_embedding {
                        Some(qe) => Self::vector_ranking_model(
                            self.model(),
                            user_id@,
                            agent_id,
                            qe@,
                        ),
                        None => Seq::<RankedModel>::empty(),
                    };
                    &&& ranking_in_scope(self.model(), user_id@, agent_id, l, false)
                    &&& ranking_in_scope(self.model(), user_id@, agent_id, v, true)
                    &&& l.len() <= MAX_RANK_POOL
                    &&& v.len() <= MAX_RANK_POOL
                    &&& result_views(results@) == rrf_spec(l, v, *config)
                }),
                Err(e) => e is BackendError,
            },
    ;
}

// ---------------------------------------------------------------------------
// The verified in-memory backend
// ---------------------------------------------------------------------------

/// An embedded backend holding documents and chunks in vectors, with
/// identities drawn from a private counter and logical ticks for timestamps.
pub struct InMemoryStore {
    docs: Vec<MemoryDocument>,
    chunks: Vec<MemoryChunk>,
    next_id: u128,
    tick: u64,
    dim: Option<usize>,
}

/// A field-exact copy of a document.
fn clone_doc(d: &MemoryDocument) -> (r: MemoryDocument)
    ensures
        r@ == d@,
        r.created_at == d.created_at,
        r.updated_at == d.updated_at,
{
    MemoryDocument {
        id: d.id,
        user_id: d.user_id.clone(),
        agent_id: d.agent_id,
        path: d.path.clone(),
        content: d.content.clone(),
        created_at: d.created_at,
        updated_at: d.updated_at,
    }
}

/// A field-exact copy of an integer vector.
pub fn clone_i32_vec(v: &Vec<i32>) -> (r: Vec<i32>)
    ensures
        r@ == v@,
{
    let n = v.len();
    let mut r: Vec<i32> = Vec::new();
    let mut i: usize = 0;
    while i < n
        invariant
            i <= n,
            n == v@.len(),
            r@ == v@.subrange(0, i as int),
        decreases n - i,
    {
        r.push(v[i]);
        proof {
            assert(r@ =~= v@.subrange(0, i + 1));
        }
        i = i + 1;
    }
    proof {
        assert(r@ =~= v@);
    }
    r
}

/// A field-exact copy of a chunk.
fn clone_chunk(c: &MemoryChunk) -> (r: MemoryChunk)
    ensures
        r@ == c@,
        r.created_at == c.created_at,
{
    let embedding = match &c.embedding {
        Some(v) => Some(clone_i32_vec(v)),
        None => None,
    };
    MemoryChunk {
        id: c.id,
        document_id: c.document_id,
        chunk_index: c.chunk_index,
        content: c.content.clone(),
        embedding,
        created_at: c.created_at,
    }
}

/// Scope identity on optional agent ids.
fn agent_eq(a: Option<u128>, b: Option<u128>) -> (r: bool)
    ensures
        r == (a == b),
{
    match (a, b) {
        (None, None) => true,
        (Some(x), Some(y)) => x == y,
        _ => false,
    }
}

fn doc_matches_exec(d: &MemoryDocument, user: &String, agent: Option<u128>, path: &String) -> (r:
    bool)
    ensures
        r == doc_matches(d@, user@, agent, path@),
{
    d.user_id == *user && agent_eq(d.agent_id, agent) && d.path == *path
}

impl InMemoryStore {
    /// An empty store.
    pub fn new() -> (r: Self)
        ensures
            r.inv(),
            r.model().docs.len() == 0,
            r.model().chunks.len() == 0,
            r.model().dim is None,
    {
        InMemoryStore { docs: Vec::new(), chunks: Vec::new(), next_id: 0, tick: 0, dim: None }
    }

    /// Advance the logical clock.
    fn bump_tick(&mut self) -> (t: u64)
        requires
            old(self).inv(),
        ensures
            final(self).inv(),
            final(self).model().next >= old(self).model().next,
            final(self).model() == old(self).model(),
            final(self).docs == old(self).docs,
            final(self).chunks == old(self).chunks,
            final(self).next_id == old(self).next_id,
            final(self).dim == old(self).dim,
    {
        if self.tick < u64::MAX {
            self.tick = self.tick + 1;
        }
        self.tick
    }

    /// The position of the document in scope at `path`.
    fn doc_pos(&self, user: &String, agent: Option<u128>, path: &String) -> (r: Option<usize>)
        ensures
            match r {
                Some(i) => i < self.docs@.len() && find_doc(
                    self.model().docs,
                    user@,
                    agent,
                    path@,
                ) == Some(i as int),
                None => find_doc(self.model().docs, user@, agent, path@) is None,
            },
    {
        let n = self.docs.len();
        let mut i: usize = 0;
        while i < n
            invariant
                i <= n,
                n == self.docs@.len(),
                find_doc(self.model().docs, user@, agent, path@) == find_doc_from(
                    self.model().docs,
                    user@,
                    agent,
                    path@,
                    i as int,
                ),
            decreases n - i,
        {
            proof {
                assert(self.model().docs[i as int] == self.docs@[i as int]@);
            }
            if doc_matches_exec(&self.docs[i], user, agent, path) {
                return Some(i);
            }
            i = i + 1;
        }
        None
    }

    /// The position of the document with identity `id`.
    fn doc_pos_by_id(&self, id: u128) -> (r: Option<usize>)
        ensures
            match r {
                Some(i) => i < self.docs@.len() && find_doc_id(self.model().docs, id) == Some(
                    i as int,
                ),
                None => find_doc_id(self.model().docs, id) is None,
            },
    {
        let n = self.docs.len();
        let mut i: usize = 0;
        while i < n
            invariant
                i <= n,
                n == self.docs@.len(),
                find_doc_id(self.model().docs, id) == find_doc_id_from(
                    self.model().docs,
                    id,
                    i as int,
                ),
            decreases n - i,
        {
            proof {
                assert(self.model().docs[i as int] == self.docs@[i as int]@);
            }
            if self.docs[i].id == id {
                return Some(i);
            }
            i = i + 1;
        }
        None
    }

    /// The position of the chunk with identity `id`.
    fn chunk_pos_by_id(&self, id: u128) -> (r: Option<usize>)
        ensures
            match r {
                Some(i) => i < self.chunks@.len() && find_chunk_id(self.model().chunks, id)
                    == Some(i as int),
                None => find_chunk_id(self.model().chunks, id) is None,
            },
    {
        let n = self.chunks.len();
        let mut i: usize = 0;
        while i < n
            invariant
                i <= n,
                n == self.chunks@.len(),
                find_chunk_id(self.model().chunks, id) == find_chunk_id_from(
                    self.model().chunks,
                    id,
                    i as int,
                ),
            decreases n - i,
        {
            proof {
                assert(self.model().chunks[i as int] == self.chunks@[i as int]@);
            }
            if self.chunks[i].id == id {
                return Some(i);
            }
            i = i + 1;
        }
        None
    }

    /// Whether some chunk of `doc` sits at `idx`.
    fn chunk_at_exists(&self, doc: u128, idx: usize) -> (r: bool)
        ensures
            r == has_chunk_at(self.model().chunks, doc, idx),
    {
        let n = self.chunks.len();
        let mut i: usize = 0;
        while i < n
            invariant
                i <= n,
                n == self.chunks@.len(),
                forall|k: int|
                    0 <= k < i ==> !((#[trigger] self.model().chunks[k]).doc == doc
                        && self.model().chunks[k].idx == idx),
            decreases n - i,
        {
            proof {
                assert(self.model().chunks[i as int] == self.chunks@[i as int]@);
            }
            if self.chunks[i].document_id == doc && self.chunks[i].chunk_index == idx {
                assert(has_chunk_at(self.model().chunks, doc, idx));
                return true;
            }
            i = i + 1;
        }
        false
    }
}

impl StorageBackend for InMemoryStore {
    closed spec fn model(&self) -> StoreModel {
        StoreModel {
            docs: self.docs@.map_values(|d: MemoryDocument| d@),
            chunks: self.chunks@.map_values(|c: MemoryChunk| c@),
            dim: self.dim,
            next: self.next_id,
        }
    }

    closed spec fn inv(&self) -> bool {
        &&& forall|i: int|
            0 <= i < self.docs@.len() ==> (#[trigger] self.docs@[i])@.id < self.next_id
        &&& forall|i: int|
            0 <= i < self.chunks@.len() ==> (#[trigger] self.chunks@[i])@.id < self.next_id
        &&& forall|a: int, b: int|
            0 <= a < b < self.docs@.len() ==> (#[trigger] self.docs@[a])@.id != (#[trigger]
            self.docs@[b])@.id
        &&& forall|a: int, b: int|
            0 <= a < b < self.chunks@.len() ==> (#[trigger] self.chunks@[a])@.id != (#[trigger]
            self.chunks@[b])@.id
        &&& crate::types::docs_unique(self.model().docs)
        &&& forall|i: int|
            0 <= i < self.chunks@.len() ==> (match (#[trigger] self.chunks@[i])@.embedding {
                Some(e) => self.dim matches Some(dm) && e.len() == dm,
                None => true,
            })
        &&& forall|i: int|
            0 <= i < self.chunks@.len() ==> find_doc_id(
                self.model().docs,
                (#[trigger] self.chunks@[i])@.doc,
            ) is Some
    }

    open spec fn lexical_ranking_model(
        m: StoreModel,
        user: Seq<char>,
        agent: Option<u128>,
        query: Seq<char>,
    ) -> Seq<RankedModel> {
        mem_lexical_ranking(m, user, agent, query)
    }

    open spec fn vector_ranking_model(
        m: StoreModel,
        user: Seq<char>,
        agent: Option<u128>,
        qe: Seq<i32>,
    ) -> Seq<RankedModel> {
        mem_vector_ranking(m, user, agent, qe)
    }

    proof fn ids_unique(&self) {
        assert forall|a: int, b: int| 0 <= a < b < self.model().docs.len() implies (#[trigger]
        self.model().docs[a]).id != (#[trigger] self.model().docs[b]).id by {
            assert(self.model().docs[a] == self.docs@[a]@);
            assert(self.model().docs[b] == self.docs@[b]@);
        }
        assert forall|a: int, b: int| 0 <= a < b < self.model().chunks.len() implies (#[trigger]
        self.model().chunks[a]).id != (#[trigger] self.model().chunks[b]).id by {
            assert(self.model().chunks[a] == self.chunks@[a]@);
            assert(self.model().chunks[b] == self.chunks@[b]@);
        }
    }

    fn get_document_by_path(&self, user_id: &str, agent_id: Option<u128>, path: &str) -> (r: Result<
        MemoryDocument,
        WorkspaceError,
    >) {
        let user = user_id.to_owned();
        let p = path.to_owned();
        match self.doc_pos(&user, agent_id, &p) {
            Some(i) => {
                proof {
                    assert(self.model().docs[i as int] == self.docs@[i as int]@);
                }
                Ok(clone_doc(&self.docs[i]))
            },
            None => Err(WorkspaceError::DocumentNotFound { path: p }),
        }
    }

    fn get_document_by_id(&self, id: u128) -> (r: Result<MemoryDocument, WorkspaceError>) {
        match self.doc_pos_by_id(id) {
            Some(i) => {
                proof {
                    assert(self.model().docs[i as int] == self.docs@[i as int]@);
                }
                Ok(clone_doc(&self.docs[i]))
            },
            None => Err(WorkspaceError::DocumentNotFound { path: String::new() }),
        }
    }

    fn get_or_create_document_by_path(
        &mut self,
        user_id: &str,
        agent_id: Option<u128>,
        path: &str,
    ) -> (r: Result<MemoryDocument, WorkspaceError>) {
        let user = user_id.to_owned();
        let p = path.to_owned();
        match self.doc_pos(&user, agent_id, &p) {
            Some(i) => {
                proof {
                    lemma_find_doc_from(self.model().docs, user_id@, agent_id, path@, 0);
                    assert(self.model().docs[i as int] == self.docs@[i as int]@);
                }
                Ok(clone_doc(&self.docs[i]))
            },
            None => {
                if self.next_id == u128::MAX {
                    return Err(
                        WorkspaceError::BackendError {
                            reason: "identifier space exhausted".to_owned(),
                        },
                    );
                }
                let ghost m0 = self.model();
                let id = self.next_id;
                self.next_id = id + 1;
                let t = self.bump_tick();
                let d = MemoryDocument {
                    id,
                    user_id: user,
                    agent_id,
                    path: p,
                    content: String::new(),
                    created_at: t,
                    updated_at: t,
                };
                let out = clone_doc(&d);
                proof {
                    crate::types::lemma_find_doc_id_some_iff(m0.docs, id);
                    crate::types::lemma_find_chunk_id_some_iff(m0.chunks, id);
                    lemma_find_doc_from(m0.docs, user_id@, agent_id, path@, 0);
                    assert forall|k: int| 0 <= k < m0.docs.len() implies (#[trigger] m0.docs[k]).id
                        != id by {
                        assert(m0.docs[k] == self.docs@[k]@);
                    }
                    assert forall|k: int| 0 <= k < m0.chunks.len() implies (#[trigger]
                    m0.chunks[k]).id != id by {
                        assert(m0.chunks[k] == self.chunks@[k]@);
                    }
                }
                self.docs.push(d);
                proof {
                    assert(self.model().docs =~= m0.docs.push(out@));
                    assert(self.model().chunks =~= m0.chunks);
                    assert forall|k: int| 0 <= k < self.chunks@.len() implies find_doc_id(
                        self.model().docs,
                        (#[trigger] self.chunks@[k])@.doc,
                    ) is Some by {
                        crate::types::lemma_find_doc_id_some_iff(
                            m0.docs,
                            self.chunks@[k]@.doc,
                        );
                        crate::types::lemma_find_doc_id_some_iff(
                            self.model().docs,
                            self.chunks@[k]@.doc,
                        );
                        let w = choose|w: int|
                            0 <= w < m0.docs.len() && (#[trigger] m0.docs[w]).id
                                == self.chunks@[k]@.doc;
                        assert(self.model().docs[w] == m0.docs[w]);
                    }
                }
                Ok(out)
            },
        }
    }

    fn update_document(&mut self, id: u128, content: &str) -> (r: Result<(), WorkspaceError>) {
        match self.doc_pos_by_id(id) {
            Some(i) => {
                let ghost m0 = self.model();
                let t = self.bump_tick();
                self.docs[i].content = content.to_owned();
                self.docs[i].updated_at = t;
                proof {
                    assert(self.model().docs =~= m0.docs.update(
                        i as int,
                        DocModel { content: content@, ..m0.docs[i as int] },
                    ));
                    assert(self.model().chunks =~= m0.chunks);
                    assert forall|k: int| 0 <= k < self.chunks@.len() implies find_doc_id(
                        self.model().docs,
                        (#[trigger] self.chunks@[k])@.doc,
                    ) is Some by {
                        crate::types::lemma_find_doc_id_some_iff(m0.docs, self.chunks@[k]@.doc);
                        crate::types::lemma_find_doc_id_some_iff(
                            self.model().docs,
                            self.chunks@[k]@.doc,
                        );
                        let w = choose|w: int|
                            0 <= w < m0.docs.len() && (#[trigger] m0.docs[w]).id
                                == self.chunks@[k]@.doc;
                        assert(self.model().docs[w].id == m0.docs[w].id);
                    }
                }
                Ok(())
            },
            None => Err(WorkspaceError::DocumentNotFound { path: String::new() }),
        }
    }

    fn delete_document_by_path(&mut self, user_id: &str, agent_id: Option<u128>, path: &str) -> (r:
        Result<(), WorkspaceError>) {
        let user = user_id.to_owned();
        let p = path.to_owned();
        match self.doc_pos(&user, agent_id, &p) {
            Some(i) => {
                let ghost m0 = self.model();
                let doc_id = self.docs[i].id;
                proof {
                    assert(m0.docs[i as int] == self.docs@[i as int]@);
                }
                self.docs.remove(i);
                let ghost mid_docs = self.model().docs;
                proof {
                    assert(mid_docs =~= m0.docs.remove(i as int));
                }
                let n = self.chunks.len();
                let mut kept: Vec<MemoryChunk> = Vec::new();
                let mut k: usize = 0;
                while k < n
                    invariant
                        k <= n,
                        n == self.chunks@.len(),
                        self.model().chunks == m0.chunks,
                        kept@.map_values(|c: MemoryChunk| c@) =~= chunks_without_doc(
                            m0.chunks.subrange(0, k as int),
                            doc_id,
                        ),
                    decreases n - k,
                {
                    let ghost prevk = kept@;
                    proof {
                        assert(m0.chunks[k as int] == self.chunks@[k as int]@);
                        assert(m0.chunks.subrange(0, k as int + 1).drop_last() =~= m0.chunks.subrange(
                            0,
                            k as int,
                        ));
                        assert(m0.chunks.subrange(0, k as int + 1).last() == m0.chunks[k as int]);
                    }
                    if self.chunks[k].document_id != doc_id {
                        kept.push(clone_chunk(&self.chunks[k]));
                        proof {
                            assert(kept@.map_values(|c: MemoryChunk| c@) =~= prevk.map_values(
                                |c: MemoryChunk| c@,
                            ).push(m0.chunks[k as int]));
                        }
                    }
                    k = k + 1;
                }
                proof {
                    assert(m0.chunks.subrange(0, n as int) =~= m0.chunks);
                }
                self.chunks = kept;
                proof {
                    assert forall|a: int, b: int| 0 <= a < b < m0.chunks.len() implies (
                    #[trigger] m0.chunks[a]).id != (#[trigger] m0.chunks[b]).id by {
                        assert(m0.chunks[a] == old(self).chunks@[a]@);
                        assert(m0.chunks[b] == old(self).chunks@[b]@);
                    }
                    crate::types::lemma_chunks_without_doc_distinct(m0.chunks, doc_id);
                    assert forall|a: int, b: int| 0 <= a < b < self.chunks@.len() implies (
                    #[trigger] self.chunks@[a])@.id != (#[trigger] self.chunks@[b])@.id by {
                        assert(self.chunks@[a]@ == chunks_without_doc(m0.chunks, doc_id)[a]);
                        assert(self.chunks@[b]@ == chunks_without_doc(m0.chunks, doc_id)[b]);
                    }
                    assert forall|a: int, b: int| 0 <= a < b < self.docs@.len() implies (
                    #[trigger] self.docs@[a])@.id != (#[trigger] self.docs@[b])@.id by {
                        let a0 = if a < i {
                            a
                        } else {
                            a + 1
                        };
                        let b0 = if b < i {
                            b
                        } else {
                            b + 1
                        };
                        assert(self.docs@[a]@ == m0.docs[a0]);
                        assert(self.docs@[b]@ == m0.docs[b0]);
                        assert(m0.docs[a0] == old(self).docs@[a0]@);
                        assert(m0.docs[b0] == old(self).docs@[b0]@);
                    }
                    crate::types::lemma_chunks_without_doc_members(m0.chunks, doc_id);
                    let mc = chunks_without_doc(m0.chunks, doc_id);
                    assert(self.model().chunks =~= mc);
                    assert forall|k: int| 0 <= k < self.chunks@.len() implies {
                        &&& (#[trigger] self.chunks@[k])@.id < self.next_id
                        &&& (match self.chunks@[k]@.embedding {
                            Some(e) => self.dim matches Some(dm) && e.len() == dm,
                            None => true,
                        })
                        &&& find_doc_id(self.model().docs, self.chunks@[k]@.doc) is Some
                    } by {
                        assert(self.chunks@[k]@ == mc[k]);
                        let j = choose|j: int|
                            0 <= j < m0.chunks.len() && #[trigger] mc[k] == m0.chunks[j]
                                && m0.chunks[j].doc != doc_id;
                        assert(m0.chunks[j] == old(self).chunks@[j]@);
                        crate::types::lemma_find_doc_id_some_iff(m0.docs, m0.chunks[j].doc);
                        let w = choose|w: int|
                            0 <= w < m0.docs.len() && (#[trigger] m0.docs[w]).id
                                == m0.chunks[j].doc;
                        assert(m0.docs[i as int].id == doc_id);
                        assert(w != i);
                        crate::types::lemma_find_doc_id_some_iff(
                            self.model().docs,
                            m0.chunks[j].doc,
                        );
                        if w < i {
                            assert(self.model().docs[w] == m0.docs[w]);
                        } else {
                            assert(self.model().docs[w - 1] == m0.docs[w]);
                        }
                    }
                    assert forall|a: int, b: int| 0 <= a < b < self.model().docs.len() implies !((
                    #[trigger] self.model().docs[a]).user == (#[trigger] self.model().docs[b]).user
                        && self.model().docs[a].agent == self.model().docs[b].agent
                        && self.model().docs[a].path == self.model().docs[b].path) by {
                        let a0 = if a < i {
                            a
                        } else {
                            a + 1
                        };
                        let b0 = if b < i {
                            b
                        } else {
                            b + 1
                        };
                        assert(self.model().docs[a] == m0.docs[a0]);
                        assert(self.model().docs[b] == m0.docs[b0]);
                    }
                    assert forall|k: int| 0 <= k < self.docs@.len() implies (#[trigger]
                    self.docs@[k])@.id < self.next_id by {
                        let k0 = if k < i {
                            k
                        } else {
                            k + 1
                        };
                        assert(self.docs@[k]@ == m0.docs[k0]);
                        assert(m0.docs[k0] == old(self).docs@[k0]@);
                    }
                }
                Ok(())
            },
            None => Err(WorkspaceError::DocumentNotFound { path: p }),
        }
    }

    fn list_directory(&self, user_id: &str, agent_id: Option<u128>, directory: &str) -> (r: Result<
        Vec<WorkspaceEntry>,
        WorkspaceError,
    >) {
        Ok(self.list_directory_entries(user_id, agent_id, directory))
    }

    fn list_all_paths(&self, user_id: &str, agent_id: Option<u128>) -> (r: Result<
        Vec<String>,
        WorkspaceError,
    >) {
        let user = user_id.to_owned();
        let n = self.docs.len();
        let mut out: Vec<String> = Vec::new();
        let mut i: usize = 0;
        while i < n
            invariant
                i <= n,
                n == self.docs@.len(),
                user@ == user_id@,
                out@.map_values(|p: String| p@) =~= paths_in_scope(
                    self.model().docs.subrange(0, i as int),
                    user_id@,
                    agent_id,
                ),
            decreases n - i,
        {
            let ghost prev = out@;
            proof {
                assert(self.model().docs[i as int] == self.docs@[i as int]@);
                assert(self.model().docs.subrange(0, i as int + 1).drop_last()
                    =~= self.model().docs.subrange(0, i as int));
                assert(self.model().docs.subrange(0, i as int + 1).last()
                    == self.model().docs[i as int]);
            }
            let d = &self.docs[i];
            if d.user_id == user && agent_eq(d.agent_id, agent_id) {
                out.push(d.path.clone());
                proof {
                    assert(out@.map_values(|p: String| p@) =~= prev.map_values(
                        |p: String| p@,
                    ).push(self.model().docs[i as int].path));
                }
            }
            i = i + 1;
        }
        proof {
            assert(self.model().docs.subrange(0, n as int) =~= self.model().docs);
        }
        Ok(out)
    }

    fn delete_chunks(&mut self, document_id: u128) -> (r: Result<(), WorkspaceError>) {
        let ghost m0 = self.model();
        let n = self.chunks.len();
        let mut kept: Vec<MemoryChunk> = Vec::new();
        let mut k: usize = 0;
        while k < n
            invariant
                k <= n,
                n == self.chunks@.len(),
                self.model() == m0,
                kept@.map_values(|c: MemoryChunk| c@) =~= chunks_without_doc(
                    m0.chunks.subrange(0, k as int),
                    document_id,
                ),
            decreases n - k,
        {
            let ghost prevk = kept@;
            proof {
                assert(m0.chunks[k as int] == self.chunks@[k as int]@);
                assert(m0.chunks.subrange(0, k as int + 1).drop_last() =~= m0.chunks.subrange(
                    0,
                    k as int,
                ));
                assert(m0.chunks.subrange(0, k as int + 1).last() == m0.chunks[k as int]);
            }
            if self.chunks[k].document_id != document_id {
                kept.push(clone_chunk(&self.chunks[k]));
                proof {
                    assert(kept@.map_values(|c: MemoryChunk| c@) =~= prevk.map_values(
                        |c: MemoryChunk| c@,
                    ).push(m0.chunks[k as int]));
                }
            }
            k = k + 1;
        }
        proof {
            assert(m0.chunks.subrange(0, n as int) =~= m0.chunks);
        }
        self.chunks = kept;
        proof {
            assert forall|a: int, b: int| 0 <= a < b < m0.chunks.len() implies (#[trigger]
            m0.chunks[a]).id != (#[trigger] m0.chunks[b]).id by {
                assert(m0.chunks[a] == old(self).chunks@[a]@);
                assert(m0.chunks[b] == old(self).chunks@[b]@);
            }
            crate::types::lemma_chunks_without_doc_distinct(m0.chunks, document_id);
            assert forall|a: int, b: int| 0 <= a < b < self.chunks@.len() implies (#[trigger]
            self.chunks@[a])@.id != (#[trigger] self.chunks@[b])@.id by {
                assert(self.chunks@[a]@ == chunks_without_doc(m0.chunks, document_id)[a]);
                assert(self.chunks@[b]@ == chunks_without_doc(m0.chunks, document_id)[b]);
            }
            crate::types::lemma_chunks_without_doc_members(m0.chunks, document_id);
            let mc = chunks_without_doc(m0.chunks, document_id);
            assert(self.model().chunks =~= mc);
            assert(self.model().docs =~= m0.docs);
            assert forall|k: int| 0 <= k < self.chunks@.len() implies {
                &&& (#[trigger] self.chunks@[k])@.id < self.next_id
                &&& (match self.chunks@[k]@.embedding {
                    Some(e) => self.dim matches Some(dm) && e.len() == dm,
                    None => true,
                })
                &&& find_doc_id(self.model().docs, self.chunks@[k]@.doc) is Some
            } by {
                assert(self.chunks@[k]@ == mc[k]);
                let j = choose|j: int|
                    0 <= j < m0.chunks.len() && #[trigger] mc[k] == m0.chunks[j]
                        && m0.chunks[j].doc != document_id;
                assert(m0.chunks[j] == old(self).chunks@[j]@);
            }
        }
        Ok(())
    }

    fn insert_chunk(
        &mut self,
        document_id: u128,
        chunk_index: usize,
        content: &str,
        embedding: Option<&Vec<i32>>,
    ) -> (r: Result<u128, WorkspaceError>) {
        if self.doc_pos_by_id(document_id).is_none() {
            return Err(WorkspaceError::DocumentNotFound { path: String::new() });
        }
        if self.chunk_at_exists(document_id, chunk_index) {
            return Err(
                WorkspaceError::BackendError { reason: "duplicate chunk index".to_owned() },
            );
        }
        if self.next_id == u128::MAX {
            return Err(
                WorkspaceError::BackendError { reason: "identifier space exhausted".to_owned() },
            );
        }
        let emb: Option<Vec<i32>> = match embedding {
            Some(v) => {
                if let Some(dm) = self.dim {
                    if v.len() != dm {
                        return Err(
                            WorkspaceError::DimensionMismatch { expected: dm, actual: v.len() },
                        );
                    }
                } else {
                    self.dim = Some(v.len());
                }
                Some(clone_i32_vec(v))
            },
            None => None,
        };
        let ghost m0 = self.model();
        let ghost m00 = old(self).model();
        let id = self.next_id;
        self.next_id = id + 1;
        let t = self.bump_tick();
        proof {
            crate::types::lemma_find_chunk_id_some_iff(m00.chunks, id);
            crate::types::lemma_find_doc_id_some_iff(m00.docs, id);
            assert forall|k: int| 0 <= k < m00.chunks.len() implies (#[trigger] m00.chunks[k]).id
                != id by {
                assert(m00.chunks[k] == self.chunks@[k]@);
            }
            assert forall|k: int| 0 <= k < m00.docs.len() implies (#[trigger] m00.docs[k]).id
                != id by {
                assert(m00.docs[k] == self.docs@[k]@);
            }
        }
        let c = MemoryChunk {
            id,
            document_id,
            chunk_index,
            content: content.to_owned(),
            embedding: emb,
            created_at: t,
        };
        let ghost cm = c@;
        self.chunks.push(c);
        proof {
            assert(self.model().chunks =~= m0.chunks.push(cm));
            assert(self.model().docs =~= m0.docs);
            assert(m0.docs == m00.docs);
            assert(m0.chunks == m00.chunks);
        }
        Ok(id)
    }

    fn update_chunk_embedding(&mut self, chunk_id: u128, embedding: &Vec<i32>) -> (r: Result<
        (),
        WorkspaceError,
    >) {
        match self.chunk_pos_by_id(chunk_id) {
            Some(i) => {
                if let Some(dm) = self.dim {
                    if embedding.len() != dm {
                        return Err(
                            WorkspaceError::DimensionMismatch {
                                expected: dm,
                                actual: embedding.len(),
                            },
                        );
                    }
                } else {
                    self.dim = Some(embedding.len());
                }
                let ghost m0 = old(self).model();
                self.chunks[i].embedding = Some(clone_i32_vec(embedding));
                proof {
                    assert(self.model().chunks =~= m0.chunks.update(
                        i as int,
                        ChunkModel { embedding: Some(embedding@), ..m0.chunks[i as int] },
                    ));
                    assert(self.model().docs =~= m0.docs);
                    assert forall|k: int| 0 <= k < self.chunks@.len() implies find_doc_id(
                        self.model().docs,
                        (#[trigger] self.chunks@[k])@.doc,
                    ) is Some by {
                        assert(self.chunks@[k]@.doc == old(self).chunks@[k]@.doc);
                    }
                }
                Ok(())
            },
            None => Err(WorkspaceError::ChunkNotFound { id: chunk_id }),
        }
    }

    fn get_chunks_without_embeddings(&self, user_id: &str, agent_id: Option<u128>, limit: usize) -> (r:
        Result<Vec<MemoryChunk>, WorkspaceError>) {
        let user = user_id.to_owned();
        let n = self.chunks.len();
        let mut out: Vec<MemoryChunk> = Vec::new();
        let mut k: usize = 0;
        while k < n
            invariant
                k <= n,
                n == self.chunks@.len(),
                user@ == user_id@,
                self.inv(),
                out@.len() <= limit,
                out@.map_values(|c: MemoryChunk| c@) =~= clip(
                    unembedded_in_scope(
                        self.model().docs,
                        self.model().chunks.subrange(0, k as int),
                        user_id@,
                        agent_id,
                    ),
                    limit,
                ),
            decreases n - k,
        {
            let ghost prev = out@;
            proof {
                assert(self.model().chunks[k as int] == self.chunks@[k as int]@);
                assert(self.model().chunks.subrange(0, k as int + 1).drop_last()
                    =~= self.model().chunks.subrange(0, k as int));
                assert(self.model().chunks.subrange(0, k as int + 1).last()
                    == self.model().chunks[k as int]);
            }
            let c = &self.chunks[k];
            if c.embedding.is_none() && out.len() < limit {
                let in_scope = match self.doc_pos_by_id(c.document_id) {
                    Some(di) => {
                        proof {
                            assert(self.model().docs[di as int] == self.docs@[di as int]@);
                        }
                        self.docs[di].user_id == user && agent_eq(self.docs[di].agent_id, agent_id)
                    },
                    None => false,
                };
                if in_scope {
                    out.push(clone_chunk(c));
                    proof {
                        assert(out@.map_values(|c: MemoryChunk| c@) =~= prev.map_values(
                            |c: MemoryChunk| c@,
                        ).push(self.model().chunks[k as int]));
                    }
                }
            } else if c.embedding.is_none() {
                // batch full: anything further in scope would exceed the limit
                let in_scope = match self.doc_pos_by_id(c.document_id) {
                    Some(di) => {
                        proof {
                            assert(self.model().docs[di as int] == self.docs@[di as int]@);
                        }
                        self.docs[di].user_id == user && agent_eq(self.docs[di].agent_id, agent_id)
                    },
                    None => false,
                };
                proof {
                    if in_scope {
                        lemma_clip_saturated(
                            unembedded_in_scope(
                                self.model().docs,
                                self.model().chunks.subrange(0, k as int),
                                user_id@,
                                agent_id,
                            ),
                            self.model().chunks[k as int],
                            limit,
                        );
                    }
                }
            }
            k = k + 1;
        }
        proof {
            assert(self.model().chunks.subrange(0, n as int) =~= self.model().chunks);
        }
        Ok(out)
    }

    fn hybrid_search(
        &self,
        user_id: &str,
        agent_id: Option<u128>,
        query: &str,
        query_embedding: Option<&Vec<i32>>,
        config: &SearchConfig,
    ) -> (r: Result<Vec<SearchResult>, WorkspaceError>) {
        let lex = self.lexical_ranking(user_id, agent_id, query);
        let vecr = match query_embedding {
            Some(qe) => self.vector_ranking(user_id, agent_id, qe),
            None => Vec::new(),
        };
        let fused = reciprocal_rank_fusion(&lex, &vecr, config);
        proof {
            let l = ranked_views(lex@);
            let v = ranked_views(vecr@);
            if query_embedding is None {
                assert(v =~= Seq::<RankedModel>::empty());
            }
            assert(ranking_in_scope(self.model(), user_id@, agent_id, l, false));
            assert(ranking_in_scope(self.model(), user_id@, agent_id, v, true));
            assert(result_views(fused@) == rrf_spec(l, v, *config));
        }
        Ok(fused)
    }
}

// ---------------------------------------------------------------------------
// Listing and ranking helpers
// ---------------------------------------------------------------------------

/// Character-sequence equality of two vectors.
fn char_vecs_eq(a: &Vec<char>, b: &Vec<char>) -> (r: bool)
    ensures
        r == (a@ == b@),
{
    let n = a.len();
    if n != b.len() {
        return false;
    }
    let mut i: usize = 0;
    while i < n
        invariant
            i <= n,
            n == a@.len() == b@.len(),
            forall|k: int| 0 <= k < i ==> a@[k] == b@[k],
        decreases n - i,
    {
        if a[i] != b[i] {
            return false;
        }
        i = i + 1;
    }
    proof {
        assert(a@ =~= b@);
    }
    true
}

fn starts_with_exec(p: &Vec<char>, prefix: &Vec<char>) -> (r: bool)
    ensures
        r == crate::types::starts_with(p@, prefix@),
{
    let n = prefix.len();
    if n > p.len() {
        return false;
    }
    let mut i: usize = 0;
    while i < n
        invariant
            i <= n,
            n == prefix@.len() <= p@.len(),
            forall|k: int| 0 <= k < i ==> p@[k] == prefix@[k],
        decreases n - i,
    {
        if p[i] != prefix[i] {
            assert(p@.subrange(0, prefix@.len() as int)[i as int] != prefix@[i as int]);
            return false;
        }
        i = i + 1;
    }
    proof {
        assert(p@.subrange(0, prefix@.len() as int) =~= prefix@);
    }
    true
}

fn slash_pos(v: &Vec<char>) -> (r: Option<usize>)
    ensures
        match r {
            Some(k) => k < v@.len() && crate::types::slash_from(v@, 0) == Some(k as int),
            None => crate::types::slash_from(v@, 0) is None,
        },
{
    let n = v.len();
    let mut i: usize = 0;
    while i < n
        invariant
            i <= n,
            n == v@.len(),
            crate::types::slash_from(v@, 0) == crate::types::slash_from(v@, i as int),
        decreases n - i,
    {
        if v[i] == '/' {
            return Some(i);
        }
        i = i + 1;
    }
    None
}

/// The remainder of `pv` below directory `dv`, where `dslash` is `dv` with a
/// trailing separator.
fn rel_of(pv: &Vec<char>, dv: &Vec<char>, dslash: &Vec<char>) -> (r: Option<Vec<char>>)
    requires
        dslash@ == dv@ + seq!['/'],
    ensures
        match r {
            Some(rv) => crate::types::rel_in_dir(dv@, pv@) == Some(rv@),
            None => crate::types::rel_in_dir(dv@, pv@) is None,
        },
{
    if dv.len() == 0 {
        let rv = crate::text::subvec(pv, 0, pv.len());
        proof {
            assert(rv@ =~= pv@);
        }
        Some(rv)
    } else if starts_with_exec(pv, dslash) {
        let dsl = dslash.len();
        assert(dsl == dv@.len() + 1 <= pv@.len());
        let rv = crate::text::subvec(pv, dsl, pv.len());
        proof {
            assert(rv@ =~= pv@.skip(dv@.len() + 1 as int));
        }
        Some(rv)
    } else {
        None
    }
}

/// The first segment of a relative path, and whether the path continues
/// below it.
fn seg_and_dir(rv: &Vec<char>) -> (r: (Vec<char>, bool))
    ensures
        r.0@ == crate::types::seg_of(rv@),
        r.1 == crate::types::rel_is_dir(rv@),
{
    match slash_pos(rv) {
        Some(k) => (crate::text::subvec(rv, 0, k), true),
        None => {
            let whole = crate::text::subvec(rv, 0, rv.len());
            proof {
                assert(whole@ =~= rv@);
            }
            (whole, false)
        },
    }
}

/// Whether `seg` already occurs among the collected names.
fn names_contain(names: &Vec<Vec<char>>, seg: &Vec<char>) -> (r: bool)
    ensures
        r == names@.map_values(|v: Vec<char>| v@).contains(seg@),
{
    let n = names.len();
    let mut i: usize = 0;
    while i < n
        invariant
            i <= n,
            n == names@.len(),
            forall|k: int| 0 <= k < i ==> (#[trigger] names@[k])@ != seg@,
        decreases n - i,
    {
        if char_vecs_eq(&names[i], seg) {
            assert(names@.map_values(|v: Vec<char>| v@)[i as int] == seg@);
            return true;
        }
        i = i + 1;
    }
    proof {
        let vs = names@.map_values(|v: Vec<char>| v@);
        assert forall|k: int| 0 <= k < vs.len() implies vs[k] != seg@ by {
            assert(vs[k] == names@[k]@);
        }
    }
    false
}

/// Count the occurrences of `needle` in `hay`, as match positions.
/// How many positions of `hay` at or after `i` start an occurrence of
/// `needle`.
pub open spec fn count_from(hay: Seq<char>, needle: Seq<char>, i: int) -> int
    decreases hay.len() + 1 - i,
{
    if i < 0 || i + needle.len() > hay.len() {
        0
    } else {
        (if matches_at(hay, needle, i) {
            1int
        } else {
            0
        }) + count_from(hay, needle, i + 1)
    }
}

/// Count the occurrences of `needle` in `hay`, as match positions.
fn count_occ(hay: &Vec<char>, needle: &Vec<char>) -> (r: usize)
    requires
        needle@.len() >= 1,
    ensures
        r as int == count_from(hay@, needle@, 0),
{
    let hn = hay.len();
    let nn = needle.len();
    if nn > hn {
        return 0;
    }
    let last = hn - nn;
    let mut cnt: usize = 0;
    let mut i: usize = 0;
    while i <= last
        invariant
            i <= last + 1,
            cnt <= i,
            nn == needle@.len(),
            hn == hay@.len(),
            last == hay@.len() - needle@.len(),
            needle@.len() >= 1,
            cnt as int + count_from(hay@, needle@, i as int) == count_from(hay@, needle@, 0),
        decreases last + 1 - i,
    {
        let hit = crate::text::match_at(hay, needle, i);
        if hit {
            cnt = cnt + 1;
        }
        i = i + 1;
    }
    cnt
}

/// The dot product of two component sequences, from position `i` on.
pub open spec fn dot_from(a: Seq<i32>, b: Seq<i32>, i: int) -> int
    decreases a.len() + 1 - i,
{
    if i < 0 || i >= a.len() || i >= b.len() {
        0
    } else {
        a[i] * b[i] + dot_from(a, b, i + 1)
    }
}

/// An exact dot product over fixed-point components.
fn dot_i32(a: &Vec<i32>, b: &Vec<i32>) -> (r: i128)
    requires
        a@.len() == b@.len(),
    ensures
        r as int == dot_from(a@, b@, 0),
{
    let n = a.len();
    let mut acc: i128 = 0;
    let mut i: usize = 0;
    while i < n
        invariant
            i <= n,
            n == a@.len() == b@.len(),
            -0x4000000000000000i128 * (i as i128) <= acc <= 0x4000000000000000i128 * (i as i128),
            acc as int + dot_from(a@, b@, i as int) == dot_from(a@, b@, 0),
        decreases n - i,
    {
        let x = a[i] as i128;
        let y = b[i] as i128;
        assert(-0x4000000000000000i128 <= x * y <= 0x4000000000000000i128) by (nonlinear_arith)
            requires
                -0x80000000i128 <= x <= 0x7fffffffi128,
                -0x80000000i128 <= y <= 0x7fffffffi128,
        ;
        proof {
            assert(-0x4000000000000000i128 * ((i + 1) as i128) <= acc + x * y
                <= 0x4000000000000000i128 * ((i + 1) as i128)) by (nonlinear_arith)
                requires
                    -0x4000000000000000i128 * (i as i128) <= acc <= 0x4000000000000000i128 * (
                    i as i128),
                    -0x4000000000000000i128 <= x * y <= 0x4000000000000000i128,
                    0 <= i,
            ;
            assert(0x4000000000000000i128 * ((i + 1) as i128) < i128::MAX) by (nonlinear_arith)
                requires
                    i < 0x10000000000000000,
            ;
            assert(x * y == a@[i as int] * b@[i as int]);
        }
        acc = acc + x * y;
        i = i + 1;
    }
    acc
}

// ---------------------------------------------------------------------------
// The in-memory rankers, specified
// ---------------------------------------------------------------------------

/// The first `k` entries of a ranking worklist.
pub open spec fn take_pool<T>(s: Seq<T>, k: int) -> Seq<T> {
    if s.len() <= k {
        s
    } else {
        s.subrange(0, k)
    }
}

/// Insert a `(count, position)` hit before the first entry with a smaller
/// count: counts descend, and creation order breaks ties.
pub open spec fn insert_hit(x: (usize, usize), s: Seq<(usize, usize)>) -> Seq<(usize, usize)>
    decreases s.len(),
{
    if s.len() == 0 {
        seq![x]
    } else if s.first().0 >= x.0 {
        seq![s.first()] + insert_hit(x, s.drop_first())
    } else {
        seq![x] + s
    }
}

/// `insert_hit` inserts exactly at the first position whose count is
/// smaller.
proof fn lemma_insert_hit_at(x: (usize, usize), s: Seq<(usize, usize)>, pos: int)
    requires
        0 <= pos <= s.len(),
        forall|k: int| 0 <= k < pos ==> (#[trigger] s[k]).0 >= x.0,
        pos < s.len() ==> s[pos].0 < x.0,
    ensures
        insert_hit(x, s) == s.insert(pos, x),
    decreases s.len(),
{
    if s.len() == 0 {
        assert(insert_hit(x, s) =~= s.insert(pos, x));
    } else if pos == 0 {
        assert(s[0].0 < x.0);
        assert(insert_hit(x, s) =~= s.insert(0, x));
    } else {
        assert(s[0].0 >= x.0);
        assert forall|k: int| 0 <= k < pos - 1 implies (#[trigger] s.drop_first()[k]).0 >= x.0 by {
            assert(s.drop_first()[k] == s[k + 1]);
        }
        if pos - 1 < s.drop_first().len() {
            assert(s.drop_first()[pos - 1] == s[pos]);
        }
        lemma_insert_hit_at(x, s.drop_first(), pos - 1);
        assert(seq![s.first()] + s.drop_first().insert(pos - 1, x) =~= s.insert(pos, x));
    }
}

/// Insert a `(dot, position)` hit before the first entry with a smaller dot
/// product.
pub open spec fn insert_vhit(x: (i128, usize), s: Seq<(i128, usize)>) -> Seq<(i128, usize)>
    decreases s.len(),
{
    if s.len() == 0 {
        seq![x]
    } else if s.first().0 >= x.0 {
        seq![s.first()] + insert_vhit(x, s.drop_first())
    } else {
        seq![x] + s
    }
}

/// `insert_vhit` inserts exactly at the first position whose dot product is
/// smaller.
proof fn lemma_insert_vhit_at(x: (i128, usize), s: Seq<(i128, usize)>, pos: int)
    requires
        0 <= pos <= s.len(),
        forall|k: int| 0 <= k < pos ==> (#[trigger] s[k]).0 >= x.0,
        pos < s.len() ==> s[pos].0 < x.0,
    ensures
        insert_vhit(x, s) == s.insert(pos, x),
    decreases s.len(),
{
    if s.len() == 0 {
        assert(insert_vhit(x, s) =~= s.insert(pos, x));
    } else if pos == 0 {
        assert(s[0].0 < x.0);
        assert(insert_vhit(x, s) =~= s.insert(0, x));
    } else {
        assert(s[0].0 >= x.0);
        assert forall|k: int| 0 <= k < pos - 1 implies (#[trigger] s.drop_first()[k]).0 >= x.0 by {
            assert(s.drop_first()[k] == s[k + 1]);
        }
        if pos - 1 < s.drop_first().len() {
            assert(s.drop_first()[pos - 1] == s[pos]);
        }
        lemma_insert_vhit_at(x, s.drop_first(), pos - 1);
        assert(seq![s.first()] + s.drop_first().insert(pos - 1, x) =~= s.insert(pos, x));
    }
}

/// The number of occurrences of the lowered query in the lowered content of
/// the chunk at position `ci`.
pub open spec fn lex_count(m: StoreModel, qlow: Seq<char>, ci: int) -> int {
    count_from(crate::text::lower_of(m.chunks[ci].content), qlow, 0)
}

/// The ordered lexical worklist over the first `n` chunks: every chunk in
/// scope containing the lowered query, most occurrences first, creation
/// order breaking ties.
pub open spec fn lex_hits(
    m: StoreModel,
    user: Seq<char>,
    agent: Option<u128>,
    qlow: Seq<char>,
    n: int,
) -> Seq<(usize, usize)>
    decreases n,
{
    if n <= 0 {
        Seq::empty()
    } else {
        let prev = lex_hits(m, user, agent, qlow, n - 1);
        if chunk_scoped(m, user, agent, n - 1) && lex_count(m, qlow, n - 1) > 0 {
            insert_hit(((lex_count(m, qlow, n - 1)) as usize, (n - 1) as usize), prev)
        } else {
            prev
        }
    }
}

/// The chunk at position `ci`, as a ranking entry with its owning document's
/// path.
pub open spec fn ranked_of(m: StoreModel, ci: int) -> RankedModel {
    let c = m.chunks[ci];
    let di = find_doc_id(m.docs, c.doc)->Some_0;
    RankedModel {
        chunk_id: c.id,
        document_id: c.doc,
        chunk_index: c.idx,
        path: m.docs[di].path,
        content: c.content,
    }
}

/// A lexical worklist turned into ranking entries.
pub open spec fn lex_hit_models(m: StoreModel, s: Seq<(usize, usize)>) -> Seq<RankedModel> {
    Seq::new(s.len(), |k: int| ranked_of(m, s[k].1 as int))
}

/// A vector worklist turned into ranking entries.
pub open spec fn vec_hit_models(m: StoreModel, s: Seq<(i128, usize)>) -> Seq<RankedModel> {
    Seq::new(s.len(), |k: int| ranked_of(m, s[k].1 as int))
}

/// The in-memory backend's lexical ranking: chunks of in-scope documents
/// containing the lowered query, by descending occurrence count with
/// creation-order ties, cut to the rank pool.  An empty lowered query
/// matches nothing.
pub open spec fn mem_lexical_ranking(
    m: StoreModel,
    user: Seq<char>,
    agent: Option<u128>,
    query: Seq<char>,
) -> Seq<RankedModel> {
    let qlow = crate::text::lower_of(query);
    if qlow.len() == 0 {
        Seq::empty()
    } else {
        lex_hit_models(
            m,
            take_pool(lex_hits(m, user, agent, qlow, m.chunks.len() as int), MAX_RANK_POOL as int),
        )
    }
}

/// The dot product of the chunk's embedding with the query vector.
pub open spec fn vec_key(m: StoreModel, qe: Seq<i32>, ci: int) -> int {
    dot_from(m.chunks[ci].embedding->Some_0, qe, 0)
}

/// The ordered vector worklist over the first `n` chunks: every in-scope
/// chunk whose embedding matches the query vector's dimension, highest dot
/// product first, creation order breaking ties.
pub open spec fn vec_hits(
    m: StoreModel,
    user: Seq<char>,
    agent: Option<u128>,
    qe: Seq<i32>,
    n: int,
) -> Seq<(i128, usize)>
    decreases n,
{
    if n <= 0 {
        Seq::empty()
    } else {
        let prev = vec_hits(m, user, agent, qe, n - 1);
        if chunk_scoped(m, user, agent, n - 1) && (m.chunks[n - 1].embedding matches Some(e)
            && e.len() == qe.len()) {
            insert_vhit(((vec_key(m, qe, n - 1)) as i128, (n - 1) as usize), prev)
        } else {
            prev
        }
    }
}

/// The in-memory backend's vector ranking: in-scope chunks with embeddings
/// of the query vector's dimension, by descending exact dot product with
/// creation-order ties, cut to the rank pool.
pub open spec fn mem_vector_ranking(
    m: StoreModel,
    user: Seq<char>,
    agent: Option<u128>,
    qe: Seq<i32>,
) -> Seq<RankedModel> {
    vec_hit_models(
        m,
        take_pool(vec_hits(m, user, agent, qe, m.chunks.len() as int), MAX_RANK_POOL as int),
    )
}

/// The chunk at model position `ci` belongs to a document in scope.
pub open spec fn chunk_scoped(
    m: StoreModel,
    user: Seq<char>,
    agent: Option<u128>,
    ci: int,
) -> bool {
    &&& 0 <= ci < m.chunks.len()
    &&& match find_doc_id(m.docs, m.chunks[ci].doc) {
        Some(di) => doc_in_scope(m.docs[di], user, agent),
        None => false,
    }
}

impl InMemoryStore {
    /// Whether the chunk at position `ci` belongs to a document in scope,
    /// and that document's position.
    fn scoped_doc_pos(&self, user: &String, agent: Option<u128>, ci: usize) -> (r: Option<usize>)
        requires
            ci < self.model().chunks.len(),
        ensures
            match r {
                Some(di) => chunk_scoped(self.model(), user@, agent, ci as int) && di
                    < self.model().docs.len() && find_doc_id(
                    self.model().docs,
                    self.model().chunks[ci as int].doc,
                ) == Some(di as int),
                None => !chunk_scoped(self.model(), user@, agent, ci as int),
            },
    {
        proof {
            assert(self.model().chunks[ci as int] == self.chunks@[ci as int]@);
        }
        match self.doc_pos_by_id(self.chunks[ci].document_id) {
            Some(di) => {
                proof {
                    assert(self.model().docs[di as int] == self.docs@[di as int]@);
                }
                if self.docs[di].user_id == *user && agent_eq(self.docs[di].agent_id, agent) {
                    Some(di)
                } else {
                    None
                }
            },
            None => None,
        }
    }

    /// Whether any document path in scope continues below `dir/name`.
    fn seg_is_dir_exec(
        &self,
        user: &String,
        agent: Option<u128>,
        dv: &Vec<char>,
        dslash: &Vec<char>,
        name: &Vec<char>,
    ) -> (r: bool)
        requires
            dslash@ == dv@ + seq!['/'],
        ensures
            r == seg_is_dir(self.model().docs, user@, agent, dv@, name@),
    {
        let n = self.docs.len();
        let mut i: usize = 0;
        while i < n
            invariant
                i <= n,
                n == self.docs@.len(),
                dslash@ == dv@ + seq!['/'],
                forall|j: int|
                    0 <= j < i ==> !(doc_in_scope(#[trigger] self.model().docs[j], user@, agent)
                        && (match crate::types::rel_in_dir(dv@, self.model().docs[j].path) {
                        Some(rr) => crate::types::seg_of(rr) == name@ && crate::types::rel_is_dir(
                            rr,
                        ),
                        None => false,
                    })),
            decreases n - i,
        {
            proof {
                assert(self.model().docs[i as int] == self.docs@[i as int]@);
            }
            let d = &self.docs[i];
            if d.user_id == *user && agent_eq(d.agent_id, agent) {
                let pv = chars_vec(d.path.as_str());
                match rel_of(&pv, dv, dslash) {
                    Some(rv) => {
                        let (seg, isd) = seg_and_dir(&rv);
                        if isd && char_vecs_eq(&seg, name) {
                            assert(seg_is_dir(self.model().docs, user@, agent, dv@, name@));
                            return true;
                        }
                    },
                    None => {},
                }
            }
            i = i + 1;
        }
        false
    }

    /// The immediate children of `directory` in scope.
    fn list_directory_entries(&self, user_id: &str, agent_id: Option<u128>, directory: &str) -> (r:
        Vec<WorkspaceEntry>)
        ensures
            r@.map_values(|e: WorkspaceEntry| e@) == list_dir_spec(
                self.model().docs,
                user_id@,
                agent_id,
                directory@,
            ),
    {
        let user = user_id.to_owned();
        let dv = chars_vec(directory);
        let mut dslash = crate::text::subvec(&dv, 0, dv.len());
        proof {
            assert(dslash@ =~= dv@);
        }
        dslash.push('/');
        proof {
            assert(dslash@ =~= dv@ + seq!['/']);
        }

        let mut names: Vec<Vec<char>> = Vec::new();
        let n = self.docs.len();
        let mut i: usize = 0;
        while i < n
            invariant
                i <= n,
                n == self.docs@.len(),
                user@ == user_id@,
                dv@ == directory@,
                dslash@ == dv@ + seq!['/'],
                names@.map_values(|v: Vec<char>| v@) =~= seg_names(
                    self.model().docs.subrange(0, i as int),
                    user_id@,
                    agent_id,
                    directory@,
                ),
            decreases n - i,
        {
            proof {
                assert(self.model().docs[i as int] == self.docs@[i as int]@);
                assert(self.model().docs.subrange(0, i as int + 1).drop_last()
                    =~= self.model().docs.subrange(0, i as int));
                assert(self.model().docs.subrange(0, i as int + 1).last()
                    == self.model().docs[i as int]);
            }
            let d = &self.docs[i];
            if d.user_id == user && agent_eq(d.agent_id, agent_id) {
                let pv = chars_vec(d.path.as_str());
                match rel_of(&pv, &dv, &dslash) {
                    Some(rv) => {
                        if rv.len() > 0 {
                            let (seg, _isd) = seg_and_dir(&rv);
                            if !names_contain(&names, &seg) {
                                let ghost prevn = names@;
                                names.push(seg);
                                proof {
                                    assert(names@.map_values(|v: Vec<char>| v@) =~= prevn.map_values(
                                        |v: Vec<char>| v@,
                                    ).push(crate::types::seg_of(rv@)));
                                }
                            }
                        }
                    },
                    None => {},
                }
            }
            i = i + 1;
        }
        proof {
            assert(self.model().docs.subrange(0, n as int) =~= self.model().docs);
        }

        let ghost segs = seg_names(self.model().docs, user_id@, agent_id, directory@);
        let ghost target = list_dir_spec(self.model().docs, user_id@, agent_id, directory@);
        let m = names.len();
        let mut out: Vec<WorkspaceEntry> = Vec::new();
        let mut k: usize = 0;
        while k < m
            invariant
                k <= m,
                m == names@.len(),
                user@ == user_id@,
                dv@ == directory@,
                dslash@ == dv@ + seq!['/'],
                names@.map_values(|v: Vec<char>| v@) == segs,
                segs == seg_names(self.model().docs, user_id@, agent_id, directory@),
                target == list_dir_spec(self.model().docs, user_id@, agent_id, directory@),
                out@.map_values(|e: WorkspaceEntry| e@) =~= target.subrange(0, k as int),
            decreases m - k,
        {
            proof {
                assert(segs[k as int] == names@[k as int]@);
            }
            let name_v = &names[k];
            let is_dir = self.seg_is_dir_exec(&user, agent_id, &dv, &dslash, name_v);
            let name_s = string_from_chars(name_v);
            let path_s = if dv.len() == 0 {
                string_from_chars(name_v)
            } else {
                let mut s = directory.to_owned();
                s.append("/");
                let n2 = string_from_chars(name_v);
                s.append(n2.as_str());
                s
            };
            proof {
                reveal_strlit("/");
                assert("/"@ =~= seq!['/']);
                assert(path_s@ == crate::types::dir_join(directory@, names@[k as int]@));
            }
            let ghost prevo = out@;
            out.push(WorkspaceEntry { name: name_s, path: path_s, is_directory: is_dir });
            proof {
                assert(out@.last()@ == target[k as int]);
                assert(out@.map_values(|e: WorkspaceEntry| e@) =~= prevo.map_values(
                    |e: WorkspaceEntry| e@,
                ).push(target[k as int]));
                assert(out@.map_values(|e: WorkspaceEntry| e@) =~= target.subrange(0, k + 1));
            }
            k = k + 1;
        }
        proof {
            assert(target.subrange(0, m as int) =~= target);
        }
        out
    }

    /// The lexical ranking: chunks in scope containing the lowercased query,
    /// most occurrences first, ties by creation order.
    fn lexical_ranking(&self, user_id: &str, agent_id: Option<u128>, query: &str) -> (r: Vec<
        RankedResult,
    >)
        requires
            self.inv(),
        ensures
            ranking_in_scope(self.model(), user_id@, agent_id, ranked_views(r@), false),
            r@.len() <= MAX_RANK_POOL,
            ranked_views(r@) == mem_lexical_ranking(self.model(), user_id@, agent_id, query@),
    {
        let user = user_id.to_owned();
        let qlow = to_lowercase(query);
        let qv = chars_vec(qlow.as_str());
        let mut out: Vec<RankedResult> = Vec::new();
        if qv.len() == 0 {
            proof {
                assert(ranked_views(out@) =~= Seq::<RankedModel>::empty());
            }
            return out;
        }

        // Collect matching chunks, kept sorted by count descending (ties by
        // creation order, which the scan preserves).
        let mut hits: Vec<(usize, usize)> = Vec::new();
        let n = self.chunks.len();
        let mut ci: usize = 0;
        while ci < n
            invariant
                ci <= n,
                n == self.chunks@.len(),
                user@ == user_id@,
                qv@.len() >= 1,
                qv@ == crate::text::lower_of(query@),
                self.inv(),
                hits@ == lex_hits(self.model(), user_id@, agent_id, qv@, ci as int),
                forall|k: int|
                    0 <= k < hits@.len() ==> chunk_scoped(
                        self.model(),
                        user_id@,
                        agent_id,
                        (#[trigger] hits@[k]).1 as int,
                    ),
            decreases n - ci,
        {
            proof {
                assert(self.model().chunks[ci as int] == self.chunks@[ci as int]@);
            }
            if self.scoped_doc_pos(&user, agent_id, ci).is_some() {
                let clow = to_lowercase(self.chunks[ci].content.as_str());
                let cv = chars_vec(clow.as_str());
                let cnt = count_occ(&cv, &qv);
                proof {
                    assert(cv@ == crate::text::lower_of(self.model().chunks[ci as int].content));
                    assert(cnt as int == lex_count(self.model(), qv@, ci as int));
                }
                if cnt > 0 {
                    let hlen = hits.len();
                    let mut pos: usize = 0;
                    while pos < hlen
                        invariant
                            pos <= hlen,
                            hlen == hits@.len(),
                            forall|k: int| 0 <= k < pos ==> (#[trigger] hits@[k]).0 >= cnt,
                        ensures
                            pos <= hlen,
                            hlen == hits@.len(),
                            forall|k: int| 0 <= k < pos ==> (#[trigger] hits@[k]).0 >= cnt,
                            pos < hlen ==> hits@[pos as int].0 < cnt,
                        decreases hlen - pos,
                    {
                        if hits[pos].0 < cnt {
                            break ;
                        }
                        pos = pos + 1;
                    }
                    let ghost prevh = hits@;
                    proof {
                        lemma_insert_hit_at((cnt, ci), prevh, pos as int);
                    }
                    hits.insert(pos, (cnt, ci));
                    proof {
                        assert(hits@ == insert_hit((cnt, ci), prevh));
                        assert((cnt, ci) == ((lex_count(self.model(), qv@, ci as int)) as usize, ci));
                        assert(hits@ == lex_hits(
                            self.model(),
                            user_id@,
                            agent_id,
                            qv@,
                            ci as int + 1,
                        ));
                        assert forall|k: int| 0 <= k < hits@.len() implies chunk_scoped(
                            self.model(),
                            user_id@,
                            agent_id,
                            (#[trigger] hits@[k]).1 as int,
                        ) by {
                            if k < pos {
                                assert(hits@[k] == prevh[k]);
                            } else if k > pos {
                                assert(hits@[k] == prevh[k - 1]);
                            }
                        }
                    }
                } else {
                    proof {
                        assert(!(lex_count(self.model(), qv@, ci as int) > 0));
                    }
                }
            }
            ci = ci + 1;
        }
        let ghost hv = hits@;
        proof {
            assert(hv == lex_hits(self.model(), user_id@, agent_id, qv@, self.model().chunks.len() as int));
        }

        // Materialize the bounded ranking.
        let cap = if hits.len() < MAX_RANK_POOL {
            hits.len()
        } else {
            MAX_RANK_POOL
        };
        let mut k: usize = 0;
        while k < cap
            invariant
                k <= cap,
                cap <= hits@.len(),
                cap <= MAX_RANK_POOL,
                cap == (if hv.len() < MAX_RANK_POOL {
                    hv.len() as int
                } else {
                    MAX_RANK_POOL as int
                }),
                hits@ == hv,
                user@ == user_id@,
                self.inv(),
                out@.len() == k,
                forall|j: int|
                    0 <= j < k ==> (#[trigger] out@[j])@ == ranked_of(
                        self.model(),
                        hv[j].1 as int,
                    ),
                forall|j: int|
                    0 <= j < hits@.len() ==> chunk_scoped(
                        self.model(),
                        user_id@,
                        agent_id,
                        (#[trigger] hits@[j]).1 as int,
                    ),
                forall|j: int|
                    0 <= j < out@.len() ==> ranked_entry_sound(
                        self.model(),
                        user_id@,
                        agent_id,
                        (#[trigger] out@[j])@,
                        false,
                    ),
            decreases cap - k,
        {
            let (_cnt, ci) = hits[k];
            proof {
                assert(chunk_scoped(self.model(), user_id@, agent_id, hits@[k as int].1 as int));
                assert(self.model().chunks[ci as int] == self.chunks@[ci as int]@);
            }
            let c = &self.chunks[ci];
            match self.scoped_doc_pos(&user, agent_id, ci) {
                Some(di) => {
                    proof {
                        assert(self.model().docs[di as int] == self.docs@[di as int]@);
                    }
                    out.push(
                        RankedResult {
                            chunk_id: c.id,
                            document_id: c.document_id,
                            chunk_index: c.chunk_index,
                            path: self.docs[di].path.clone(),
                            content: c.content.clone(),
                        },
                    );
                    proof {
                        let e = out@.last()@;
                        let cii = ci as int;
                        let dii = di as int;
                        lemma_find_doc_id_from(
                            self.model().docs,
                            self.model().chunks[cii].doc,
                            0,
                        );
                        assert((#[trigger] self.model().chunks[cii]).id == e.chunk_id);
                        assert(self.model().chunks[cii].doc == e.document_id);
                        assert(self.model().chunks[cii].idx == e.chunk_index);
                        assert(self.model().chunks[cii].content == e.content);
                        assert((#[trigger] self.model().docs[dii]).id
                            == self.model().chunks[cii].doc);
                        assert(doc_in_scope(self.model().docs[dii], user_id@, agent_id));
                        assert(self.model().docs[dii].path == e.path);
                        assert(ranked_entry_sound(self.model(), user_id@, agent_id, e, false));
                        assert(find_doc_id(self.model().docs, self.model().chunks[cii].doc)
                            == Some(dii));
                        assert(e == ranked_of(self.model(), cii));
                    }
                },
                None => {
                    proof {
                        assert(false);
                    }
                },
            }
            k = k + 1;
        }
        proof {
            assert forall|j: int| 0 <= j < ranked_views(out@).len() implies ranked_entry_sound(
                self.model(),
                user_id@,
                agent_id,
                #[trigger] ranked_views(out@)[j],
                false,
            ) by {
                assert(ranked_views(out@)[j] == out@[j]@);
            }
            assert(ranked_views(out@) =~= lex_hit_models(
                self.model(),
                take_pool(hv, MAX_RANK_POOL as int),
            ));
            assert(ranked_views(out@) == mem_lexical_ranking(
                self.model(),
                user_id@,
                agent_id,
                query@,
            ));
        }
        out
    }

    /// The vector ranking: chunks in scope whose embedding matches the query
    /// vector's dimension, highest dot product first, ties by creation
    /// order.
    fn vector_ranking(&self, user_id: &str, agent_id: Option<u128>, qe: &Vec<i32>) -> (r: Vec<
        RankedResult,
    >)
        requires
            self.inv(),
        ensures
            ranking_in_scope(self.model(), user_id@, agent_id, ranked_views(r@), true),
            r@.len() <= MAX_RANK_POOL,
            ranked_views(r@) == mem_vector_ranking(self.model(), user_id@, agent_id, qe@),
    {
        let user = user_id.to_owned();
        let mut hits: Vec<(i128, usize)> = Vec::new();
        let n = self.chunks.len();
        let mut ci: usize = 0;
        while ci < n
            invariant
                ci <= n,
                n == self.chunks@.len(),
                user@ == user_id@,
                self.inv(),
                hits@ == vec_hits(self.model(), user_id@, agent_id, qe@, ci as int),
                forall|k: int|
                    0 <= k < hits@.len() ==> chunk_scoped(
                        self.model(),
                        user_id@,
                        agent_id,
                        (#[trigger] hits@[k]).1 as int,
                    ) && self.model().chunks[hits@[k].1 as int].embedding is Some,
            decreases n - ci,
        {
            proof {
                assert(self.model().chunks[ci as int] == self.chunks@[ci as int]@);
            }
            let has_fit = match &self.chunks[ci].embedding {
                Some(e) => e.len() == qe.len(),
                None => false,
            };
            if has_fit && self.scoped_doc_pos(&user, agent_id, ci).is_some() {
                let score = match &self.chunks[ci].embedding {
                    Some(e) => dot_i32(e, qe),
                    None => 0,
                };
                proof {
                    assert(score as int == vec_key(self.model(), qe@, ci as int));
                }
                let hlen = hits.len();
                let mut pos: usize = 0;
                while pos < hlen
                    invariant
                        pos <= hlen,
                        hlen == hits@.len(),
                        forall|k: int| 0 <= k < pos ==> (#[trigger] hits@[k]).0 >= score,
                    ensures
                        pos <= hlen,
                        hlen == hits@.len(),
                        forall|k: int| 0 <= k < pos ==> (#[trigger] hits@[k]).0 >= score,
                        pos < hlen ==> hits@[pos as int].0 < score,
                    decreases hlen - pos,
                {
                    if hits[pos].0 < score {
                        break ;
                    }
                    pos = pos + 1;
                }
                let ghost prevh = hits@;
                proof {
                    lemma_insert_vhit_at((score, ci), prevh, pos as int);
                }
                hits.insert(pos, (score, ci));
                proof {
                    assert(hits@ == insert_vhit((score, ci), prevh));
                    assert((score, ci) == ((vec_key(self.model(), qe@, ci as int)) as i128, ci));
                    assert(hits@ == vec_hits(
                        self.model(),
                        user_id@,
                        agent_id,
                        qe@,
                        ci as int + 1,
                    ));
                    assert forall|k: int| 0 <= k < hits@.len() implies chunk_scoped(
                        self.model(),
                        user_id@,
                        agent_id,
                        (#[trigger] hits@[k]).1 as int,
                    ) && self.model().chunks[hits@[k].1 as int].embedding is Some by {
                        if k < pos {
                            assert(hits@[k] == prevh[k]);
                        } else if k > pos {
                            assert(hits@[k] == prevh[k - 1]);
                        }
                    }
                }
            }
            ci = ci + 1;
        }

        let ghost hv = hits@;
        proof {
            assert(hv == vec_hits(self.model(), user_id@, agent_id, qe@, self.model().chunks.len() as int));
        }
        let cap = if hits.len() < MAX_RANK_POOL {
            hits.len()
        } else {
            MAX_RANK_POOL
        };
        let mut out: Vec<RankedResult> = Vec::new();
        let mut k: usize = 0;
        while k < cap
            invariant
                k <= cap,
                cap <= hits@.len(),
                cap <= MAX_RANK_POOL,
                cap == (if hv.len() < MAX_RANK_POOL {
                    hv.len() as int
                } else {
                    MAX_RANK_POOL as int
                }),
                hits@ == hv,
                user@ == user_id@,
                self.inv(),
                out@.len() == k,
                forall|j: int|
                    0 <= j < k ==> (#[trigger] out@[j])@ == ranked_of(
                        self.model(),
                        hv[j].1 as int,
                    ),
                forall|j: int|
                    0 <= j < hits@.len() ==> chunk_scoped(
                        self.model(),
                        user_id@,
                        agent_id,
                        (#[trigger] hits@[j]).1 as int,
                    ) && self.model().chunks[hits@[j].1 as int].embedding is Some,
                forall|j: int|
                    0 <= j < out@.len() ==> ranked_entry_sound(
                        self.model(),
                        user_id@,
                        agent_id,
                        (#[trigger] out@[j])@,
                        true,
                    ),
            decreases cap - k,
        {
            let (_score, ci) = hits[k];
            proof {
                assert(chunk_scoped(self.model(), user_id@, agent_id, hits@[k as int].1 as int));
                assert(self.model().chunks[ci as int] == self.chunks@[ci as int]@);
            }
            let c = &self.chunks[ci];
            match self.scoped_doc_pos(&user, agent_id, ci) {
                Some(di) => {
                    proof {
                        assert(self.model().docs[di as int] == self.docs@[di as int]@);
                    }
                    out.push(
                        RankedResult {
                            chunk_id: c.id,
                            document_id: c.document_id,
                            chunk_index: c.chunk_index,
                            path: self.docs[di].path.clone(),
                            content: c.content.clone(),
                        },
                    );
                    proof {
                        let e = out@.last()@;
                        let cii = ci as int;
                        let dii = di as int;
                        lemma_find_doc_id_from(
                            self.model().docs,
                            self.model().chunks[cii].doc,
                            0,
                        );
                        assert((#[trigger] self.model().chunks[cii]).id == e.chunk_id);
                        assert(self.model().chunks[cii].doc == e.document_id);
                        assert(self.model().chunks[cii].idx == e.chunk_index);
                        assert(self.model().chunks[cii].content == e.content);
                        assert(self.model().chunks[cii].embedding is Some);
                        assert((#[trigger] self.model().docs[dii]).id
                            == self.model().chunks[cii].doc);
                        assert(doc_in_scope(self.model().docs[dii], user_id@, agent_id));
                        assert(self.model().docs[dii].path == e.path);
                        assert(ranked_entry_sound(self.model(), user_id@, agent_id, e, true));
                        assert(find_doc_id(self.model().docs, self.model().chunks[cii].doc)
                            == Some(dii));
                        assert(e == ranked_of(self.model(), cii));
                    }
                },
                None => {
                    proof {
                        assert(false);
                    }
                },
            }
            k = k + 1;
        }
        proof {
            assert forall|j: int| 0 <= j < ranked_views(out@).len() implies ranked_entry_sound(
                self.model(),
                user_id@,
                agent_id,
                #[trigger] ranked_views(out@)[j],
                true,
            ) by {
                assert(ranked_views(out@)[j] == out@[j]@);
            }
            assert(ranked_views(out@) =~= vec_hit_models(
                self.model(),
                take_pool(hv, MAX_RANK_POOL as int),
            ));
            assert(ranked_views(out@) == mem_vector_ranking(
                self.model(),
                user_id@,
                agent_id,
                qe@,
            ));
        }
        out
    }
}

/// The first `limit` entries of `s`.
pub open spec fn clip(s: Seq<ChunkModel>, limit: usize) -> Seq<ChunkModel> {
    if s.len() <= limit {
        s
    } else {
        s.subrange(0, limit as int)
    }
}

/// Once the clip is saturated, appending more does not change it.
proof fn lemma_clip_saturated(s: Seq<ChunkModel>, c: ChunkModel, limit: usize)
    requires
        s.len() >= limit,
    ensures
        clip(s.push(c), limit) =~= clip(s, limit),
{
}

} // verus!

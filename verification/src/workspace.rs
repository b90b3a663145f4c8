//! The workspace facade: file operations, indexing, seeding, search.
//!
//! A `Workspace` binds one `(user_id, agent_id?)` scope and an optional
//! embedding provider over one storage backend.  Every mutation normalizes
//! its path, writes through the backend, and re-indexes the document: the
//! old chunk set is dropped and the new content is chunked, each chunk
//! optionally embedded (an embedding failure is non-fatal: the chunk is
//! stored without a vector and backfilled later).

use vstd::prelude::*;

use crate::chunk::{chunk_document, chunk_document_spec, ChunkConfig};
use crate::date::{
    clamp_date, daily_path_spec, date_code_exec, log_line_exec, log_line_spec, pred_date,
    pred_date_spec, utc_now_reading, ClockReading, Date,
};
use crate::embed::EmbeddingProvider;
use crate::pathnorm::{normalize_directory, normalize_path, normalize_path_spec};
use crate::search::{RankedModel, SearchConfig, SearchResult, MAX_RANK_POOL};
use crate::seeds::{
    heartbeat_path, heartbeat_seed, heartbeat_seed_spec, memory_path, seed_content_spec, seed_file,
    seed_path_spec, SEED_COUNT,
};
use crate::store::{ranking_in_scope, StorageBackend};
use crate::text::string_from_chars;
use crate::types::{
    chunks_without_doc, find_doc, find_doc_id, lemma_chunks_without_doc_members,
    lemma_find_doc_from, lemma_find_doc_id_some_iff, ChunkModel, DocModel, MemoryChunk,
    MemoryDocument, StoreModel, WorkspaceEntry, WorkspaceError,
};
use vstd::string::{StrSliceExecFns, StringExecFns};

verus! {

/// The chunker configuration the facade indexes with.
pub open spec fn default_cfg() -> ChunkConfig {
    ChunkConfig { max_chunk_chars: 1000, overlap_chars: 100, min_chunk_chars: 200 }
}

/// The content of the document at `path` in scope, if one exists.
pub open spec fn doc_content_at(
    m: StoreModel,
    user: Seq<char>,
    agent: Option<u128>,
    path: Seq<char>,
) -> Option<Seq<char>> {
    match find_doc(m.docs, user, agent, path) {
        Some(i) => Some(m.docs[i].content),
        None => None,
    }
}

/// The chunk rows of `chunks` are exactly `base` followed by the chunk list
/// `cs` of document `doc`, densely indexed from zero.
pub open spec fn chunk_list_matches(
    chunks: Seq<ChunkModel>,
    base: Seq<ChunkModel>,
    doc: u128,
    cs: Seq<Seq<char>>,
) -> bool {
    &&& chunks.len() == base.len() + cs.len()
    &&& chunks.subrange(0, base.len() as int) == base
    &&& forall|j: int|
        0 <= j < cs.len() ==> {
            let c = #[trigger] chunks[base.len() + j];
            c.doc == doc && c.idx == j && c.content == cs[j]
        }
}

/// Each of the `count` chunk rows after `base_len` carries either no
/// embedding or one of the configured provider's dimension: an embedding is
/// absent exactly when none could be computed.
pub open spec fn chunks_dim_ok(
    chunks: Seq<ChunkModel>,
    base_len: int,
    count: int,
    has_provider: bool,
    dim: nat,
) -> bool {
    forall|j: int|
        0 <= j < count ==> (match (#[trigger] chunks[base_len + j]).embedding {
            Some(e) => has_provider && e.len() == dim,
            None => true,
        })
}

/// The document at `p` now holds `merged`, and its chunk rows are exactly
/// the chunk list of `merged` after the untouched chunks of other
/// documents, each embedded only at the provider's dimension.
pub open spec fn content_and_chunks_at(
    m0: StoreModel,
    m1: StoreModel,
    user: Seq<char>,
    agent: Option<u128>,
    p: Seq<char>,
    merged: Seq<char>,
    has_provider: bool,
    dim: nat,
) -> bool {
    &&& doc_content_at(m1, user, agent, p) == Some(merged)
    &&& (find_doc(m1.docs, user, agent, p) matches Some(i1) && {
        let did = m1.docs[i1].id;
        let base = chunks_without_doc(m0.chunks, did);
        let cs = chunk_document_spec(merged, default_cfg());
        &&& chunk_list_matches(m1.chunks, base, did, cs)
        &&& chunks_dim_ok(m1.chunks, base.len() as int, cs.len() as int, has_provider, dim)
    })
}

/// What reading-or-creating the document at normalized path `p` guarantees:
/// the existing record is returned unchanged, or a fresh empty one was
/// appended.
pub open spec fn read_or_create_post(
    m0: StoreModel,
    m1: StoreModel,
    user: Seq<char>,
    agent: Option<u128>,
    p: Seq<char>,
    r: Result<MemoryDocument, WorkspaceError>,
) -> bool {
    match r {
        Ok(d) => {
            &&& d@.user == user
            &&& d@.agent == agent
            &&& d@.path == p
            &&& match find_doc(m0.docs, user, agent, p) {
                Some(i) => m1 == m0 && d@ == m0.docs[i],
                None => m1.docs == m0.docs.push(d@) && d@.content.len() == 0 && find_doc_id(
                    m0.docs,
                    d@.id,
                ) is None,
            }
        },
        Err(e) => e is BackendError && m1 == m0 && m0.next == u128::MAX,
    }
}

/// How many chunk rows lacked an embedding in the old state and carry one
/// in the new state, from position `w` on.
pub open spec fn newly_embedded_from(c0: Seq<ChunkModel>, c1: Seq<ChunkModel>, w: int) -> int
    decreases c0.len() + 1 - w,
{
    if w < 0 || w >= c0.len() {
        0
    } else {
        (if c0[w].embedding is None && w < c1.len() && c1[w].embedding is Some {
            1int
        } else {
            0
        }) + newly_embedded_from(c0, c1, w + 1)
    }
}

/// How many chunk rows went from un-embedded to embedded.
pub open spec fn newly_embedded(c0: Seq<ChunkModel>, c1: Seq<ChunkModel>) -> int {
    newly_embedded_from(c0, c1, 0)
}

/// An unchanged state embeds nothing new.
proof fn lemma_newly_embedded_refl(c: Seq<ChunkModel>, w: int)
    ensures
        newly_embedded_from(c, c, w) == 0,
    decreases c.len() + 1 - w,
{
    if !(w < 0 || w >= c.len()) {
        lemma_newly_embedded_refl(c, w + 1);
    }
}

/// Setting the embedding of one still-unembedded row raises the count by
/// exactly one.
proof fn lemma_newly_embedded_update(
    c0: Seq<ChunkModel>,
    c1: Seq<ChunkModel>,
    i: int,
    x: ChunkModel,
    w: int,
)
    requires
        0 <= w,
        c0.len() == c1.len(),
        0 <= i < c0.len(),
        c0[i].embedding is None,
        c1[i].embedding is None,
        x.embedding is Some,
    ensures
        newly_embedded_from(c0, c1.update(i, x), w) == newly_embedded_from(c0, c1, w) + (if w <= i {
            1int
        } else {
            0
        }),
    decreases c0.len() + 1 - w,
{
    if !(w >= c0.len()) {
        lemma_newly_embedded_update(c0, c1, i, x, w + 1);
        if w == i {
            assert(c1.update(i, x)[w] == x);
        } else {
            assert(c1.update(i, x)[w] == c1[w]);
        }
    }
}

/// What appending to the daily log of clock reading `now` guarantees: the
/// log at `now`'s (range-clamped) date gained the reading's time-stamped
/// line, with a newline separator when the log already had content.
pub open spec fn daily_append_post(
    m0: StoreModel,
    m1: StoreModel,
    user: Seq<char>,
    agent: Option<u128>,
    now: ClockReading,
    entry: Seq<char>,
    has_provider: bool,
    dim: nat,
    r: Result<(), WorkspaceError>,
) -> bool {
    exists|d: Date|
        #![trigger daily_path_spec(d)]
        d.wf() && (1 <= now.year <= 9999 ==> d == (Date {
            year: now.year,
            month: now.month,
            day: now.day,
        })) && ({
            let p = daily_path_spec(d);
            let line = log_line_spec(now.hour as int, now.minute as int, now.second as int, entry);
            let prior = match doc_content_at(m0, user, agent, p) {
                Some(c) => c,
                None => Seq::empty(),
            };
            let merged = if prior.len() == 0 {
                line
            } else {
                prior + "\n"@ + line
            };
            match r {
                Ok(()) => content_and_chunks_at(m0, m1, user, agent, p, merged, has_provider, dim),
                Err(e) => e is BackendError || e is DimensionMismatch,
            }
        })
}

/// A path without separators or trimmable edges is its own normal form.
proof fn lemma_fixed_path_norm(s: Seq<char>)
    requires
        s.len() > 0,
        !crate::pathnorm::is_edge_char(s.first()),
        !crate::pathnorm::is_edge_char(s.last()),
        forall|i: int| 0 <= i < s.len() ==> s[i] != '/',
    ensures
        normalize_path_spec(s) == s,
{
    crate::pathnorm::lemma_normalize_of_clean(s);
}

/// The daily-log path of a date is its own normal form.
proof fn lemma_daily_path_clean(d: Date)
    requires
        d.wf(),
    ensures
        normalize_path_spec(daily_path_spec(d)) == daily_path_spec(d),
        daily_path_spec(d).len() == 19,
{
    reveal_strlit("daily/");
    reveal_strlit(".md");
    let s = daily_path_spec(d);
    let code = crate::date::date_code(d);
    assert(code.len() == 10);
    assert(s.len() == 19);
    assert(s[0] == 'd');
    assert(s[18] == 'd');
    assert forall|i: int| 0 <= i < code.len() implies #[trigger] code[i] != '/' by {
        if i < 4 {
            assert(code[i] == crate::date::pad4(d.year as int)[i]);
        } else if i == 4 || i == 7 {
            assert(code[i] == '-');
        } else if i < 7 {
            assert(code[i] == crate::date::pad2(d.month as int)[i - 5]);
        } else {
            assert(code[i] == crate::date::pad2(d.day as int)[i - 8]);
        }
    }
    assert forall|i: int| 1 <= i < s.len() implies !((#[trigger] s[i]) == '/' && s[i - 1] == '/')
        by {
        if i <= 5 {
            assert(s[i] == "daily/"@[i]);
            assert(s[i - 1] == "daily/"@[i - 1]);
        } else if i < 16 {
            assert(s[i] == code[i - 6]);
        } else {
            assert(s[i] == ".md"@[i - 16]);
        }
    }
    crate::pathnorm::lemma_normalize_of_clean(s);
}
/// Every canonical seed path is its own normal form, non-empty, and no two
/// seed positions share a path.
proof fn lemma_seed_paths_good()
    ensures
        forall|i: int|
            0 <= i < SEED_COUNT ==> normalize_path_spec(#[trigger] seed_path_spec(i))
                == seed_path_spec(i) && seed_path_spec(i).len() > 0,
        forall|i: int, j: int|
            0 <= i < j < SEED_COUNT ==> #[trigger] seed_path_spec(i) != #[trigger] seed_path_spec(
                j,
            ),
{
    reveal_strlit("README.md");
    reveal_strlit("MEMORY.md");
    reveal_strlit("IDENTITY.md");
    reveal_strlit("SOUL.md");
    reveal_strlit("AGENTS.md");
    reveal_strlit("USER.md");
    reveal_strlit("TOOLS.md");
    reveal_strlit("BOOT.md");
    reveal_strlit("BOOTSTRAP.md");
    reveal_strlit("HEARTBEAT.md");
    assert forall|i: int|
        0 <= i < SEED_COUNT implies normalize_path_spec(#[trigger] seed_path_spec(i))
        == seed_path_spec(i) && seed_path_spec(i).len() > 0 by {
        let s = seed_path_spec(i);
        assert(s.len() > 0);
        assert forall|k: int| 0 <= k < s.len() implies s[k] != '/' by {}
        lemma_fixed_path_norm(s);
    }
}

/// The optional prompt section for one file: a header and the file's
/// content, present only when the file exists with non-empty content.
pub open spec fn section_part(
    m: StoreModel,
    user: Seq<char>,
    agent: Option<u128>,
    path: Seq<char>,
    header: Seq<char>,
) -> Seq<Seq<char>> {
    match doc_content_at(m, user, agent, path) {
        Some(c) => if c.len() > 0 {
            seq![header + "\n\n"@ + c]
        } else {
            Seq::empty()
        },
        None => Seq::empty(),
    }
}

/// Sections joined by the prompt separator.
pub open spec fn join_parts(parts: Seq<Seq<char>>) -> Seq<char>
    decreases parts.len(),
{
    if parts.len() == 0 {
        Seq::empty()
    } else if parts.len() == 1 {
        parts[0]
    } else {
        join_parts(parts.drop_last()) + "\n\n---\n\n"@ + parts.last()
    }
}

/// The sections of the system prompt, in order: the four identity files,
/// then today's and yesterday's daily notes.
pub open spec fn prompt_parts(
    m: StoreModel,
    user: Seq<char>,
    agent: Option<u128>,
    today: Date,
) -> Seq<Seq<Seq<char>>> {
    let yesterday = if today.year == 1 && today.month == 1 && today.day == 1 {
        today
    } else {
        pred_date_spec(today)
    };
    seq![
        section_part(m, user, agent, "AGENTS.md"@, "## Agent Instructions"@),
        section_part(m, user, agent, "SOUL.md"@, "## Core Values"@),
        section_part(m, user, agent, "USER.md"@, "## User Context"@),
        section_part(m, user, agent, "IDENTITY.md"@, "## Identity"@),
        section_part(m, user, agent, daily_path_spec(today), "## Today's Notes"@),
        section_part(
            m,
            user,
            agent,
            daily_path_spec(yesterday),
            if yesterday == today {
                "## Today's Notes"@
            } else {
                "## Yesterday's Notes"@
            },
        ),
    ]
}

/// The composed system prompt: the non-empty sections, joined.
pub open spec fn prompt_spec(
    m: StoreModel,
    user: Seq<char>,
    agent: Option<u128>,
    today: Date,
) -> Seq<char> {
    let ps = prompt_parts(m, user, agent, today);
    join_parts(ps[0] + ps[1] + ps[2] + ps[3] + ps[4] + ps[5])
}

/// The document table after a write at normalized path `p`: the matching
/// record's content replaced, or a fresh record appended.
pub open spec fn write_docs_shape(
    m0d: Seq<DocModel>,
    m1d: Seq<DocModel>,
    user: Seq<char>,
    agent: Option<u128>,
    p: Seq<char>,
    content: Seq<char>,
) -> bool {
    match find_doc(m0d, user, agent, p) {
        Some(i) => m1d == m0d.update(i, DocModel { content: content, ..m0d[i] }),
        None => m1d.len() == m0d.len() + 1 && m1d == m0d.push(m1d.last()) && crate::types::doc_matches(
            m1d.last(),
            user,
            agent,
            p,
        ) && m1d.last().content == content,
    }
}

/// After a write-shaped change at `p`, the content stored at `p` is exactly
/// what was written.
proof fn lemma_shape_content(
    m0d: Seq<DocModel>,
    m1d: Seq<DocModel>,
    user: Seq<char>,
    agent: Option<u128>,
    p: Seq<char>,
    content: Seq<char>,
)
    requires
        write_docs_shape(m0d, m1d, user, agent, p, content),
    ensures
        match find_doc(m1d, user, agent, p) {
            Some(w) => m1d[w].content == content,
            None => false,
        },
{
    lemma_find_doc_from(m0d, user, agent, p, 0);
    lemma_find_doc_from(m1d, user, agent, p, 0);
    match find_doc(m0d, user, agent, p) {
        Some(i) => {
            assert(crate::types::doc_matches(m1d[i], user, agent, p));
            match find_doc(m1d, user, agent, p) {
                Some(w) => {
                    if w < i {
                        assert(m1d[w] == m0d[w]);
                        assert(false);
                    } else if w > i {
                        assert(false);
                    }
                },
                None => {
                    assert(false);
                },
            }
        },
        None => {
            match find_doc(m1d, user, agent, p) {
                Some(w) => {
                    if w < m0d.len() {
                        assert(m1d[w] == m0d[w]);
                        assert(false);
                    }
                    assert(m1d[w] == m1d.last());
                },
                None => {
                    assert(crate::types::doc_matches(m1d[m1d.len() - 1], user, agent, p));
                    assert(false);
                },
            }
        },
    }
}

/// How many of the first `n` canonical files were absent in the old state
/// and carry their bundled template in the new state: the number of files
/// seeding created.
pub open spec fn seeded_count(
    m0: StoreModel,
    m1: StoreModel,
    user: Seq<char>,
    agent: Option<u128>,
    n: int,
) -> int
    decreases n,
{
    if n <= 0 {
        0
    } else {
        seeded_count(m0, m1, user, agent, n - 1) + (if find_doc(
            m0.docs,
            user,
            agent,
            seed_path_spec(n - 1),
        ) is None && doc_content_at(m1, user, agent, seed_path_spec(n - 1)) == Some(
            seed_content_spec(n - 1),
        ) {
            1int
        } else {
            0
        })
    }
}

/// Two states agreeing on the first `n` canonical files seed alike.
proof fn lemma_seeded_count_stable(
    m0: StoreModel,
    m1a: StoreModel,
    m1b: StoreModel,
    user: Seq<char>,
    agent: Option<u128>,
    n: int,
)
    requires
        forall|t: int|
            0 <= t < n ==> doc_content_at(m1a, user, agent, #[trigger] seed_path_spec(t))
                == doc_content_at(m1b, user, agent, seed_path_spec(t)),
    ensures
        seeded_count(m0, m1a, user, agent, n) == seeded_count(m0, m1b, user, agent, n),
    decreases n,
{
    if n > 0 {
        lemma_seeded_count_stable(m0, m1a, m1b, user, agent, n - 1);
    }
}

/// A write-shaped change at one canonical path leaves every other canonical
/// path's lookup untouched.
proof fn lemma_seed_others_stable(
    mprev: StoreModel,
    mnew: StoreModel,
    user: Seq<char>,
    agent: Option<u128>,
    i: int,
    content: Seq<char>,
)
    requires
        0 <= i < SEED_COUNT,
        mnew.docs == mprev.docs || write_docs_shape(
            mprev.docs,
            mnew.docs,
            user,
            agent,
            seed_path_spec(i),
            content,
        ),
    ensures
        forall|t: int|
            0 <= t < SEED_COUNT && t != i ==> doc_content_at(
                mnew,
                user,
                agent,
                #[trigger] seed_path_spec(t),
            ) == doc_content_at(mprev, user, agent, seed_path_spec(t)),
{
    lemma_seed_paths_good();
    if mnew.docs != mprev.docs {
        assert forall|t: int| 0 <= t < SEED_COUNT && t != i implies doc_content_at(
            mnew,
            user,
            agent,
            #[trigger] seed_path_spec(t),
        ) == doc_content_at(mprev, user, agent, seed_path_spec(t)) by {
            assert(seed_path_spec(t) != seed_path_spec(i));
            lemma_write_keeps_other_paths(
                mprev.docs,
                mnew.docs,
                user,
                agent,
                seed_path_spec(i),
                content,
                seed_path_spec(t),
            );
        }
    }
}

/// Two tables with pointwise-equal match patterns resolve a lookup alike.
proof fn lemma_find_pointwise(
    aa: Seq<DocModel>,
    bb: Seq<DocModel>,
    user: Seq<char>,
    agent: Option<u128>,
    q: Seq<char>,
    i: int,
)
    requires
        0 <= i,
        aa.len() == bb.len(),
        forall|k: int|
            0 <= k < aa.len() ==> crate::types::doc_matches(#[trigger] aa[k], user, agent, q)
                == crate::types::doc_matches(#[trigger] bb[k], user, agent, q),
    ensures
        crate::types::find_doc_from(aa, user, agent, q, i) == crate::types::find_doc_from(
            bb,
            user,
            agent,
            q,
            i,
        ),
    decreases aa.len() + 1 - i,
{
    if !(i < 0 || i >= aa.len()) {
        if !crate::types::doc_matches(aa[i], user, agent, q) {
            lemma_find_pointwise(aa, bb, user, agent, q, i + 1);
        }
    }
}

/// Appending a record that does not match the lookup leaves it unchanged.
proof fn lemma_find_push(
    docs: Seq<DocModel>,
    d: DocModel,
    user: Seq<char>,
    agent: Option<u128>,
    q: Seq<char>,
)
    requires
        !crate::types::doc_matches(d, user, agent, q),
    ensures
        find_doc(docs.push(d), user, agent, q) == find_doc(docs, user, agent, q),
{
    lemma_find_doc_from(docs, user, agent, q, 0);
    lemma_find_doc_from(docs.push(d), user, agent, q, 0);
    match find_doc(docs, user, agent, q) {
        Some(w) => {
            assert(docs.push(d)[w] == docs[w]);
            match find_doc(docs.push(d), user, agent, q) {
                Some(w2) => {
                    if w2 < w {
                        assert(docs[w2] == docs.push(d)[w2]);
                    } else if w2 > w {
                        assert(false);
                    }
                },
                None => {
                    assert(false);
                },
            }
        },
        None => {
            match find_doc(docs.push(d), user, agent, q) {
                Some(w2) => {
                    if w2 < docs.len() {
                        assert(docs[w2] == docs.push(d)[w2]);
                    } else {
                        assert(docs.push(d)[w2] == d);
                    }
                    assert(false);
                },
                None => {},
            }
        },
    }
}

/// A write at path `p` leaves the record resolved by any other path in the
/// scope untouched.
proof fn lemma_write_keeps_other_paths(
    m0d: Seq<DocModel>,
    m1d: Seq<DocModel>,
    user: Seq<char>,
    agent: Option<u128>,
    p: Seq<char>,
    content: Seq<char>,
    q: Seq<char>,
)
    requires
        q != p,
        write_docs_shape(m0d, m1d, user, agent, p, content),
    ensures
        match find_doc(m0d, user, agent, q) {
            Some(i) => find_doc(m1d, user, agent, q) == Some(i) && m1d[i] == m0d[i],
            None => find_doc(m1d, user, agent, q) is None,
        },
{
    lemma_find_doc_from(m0d, user, agent, p, 0);
    match find_doc(m0d, user, agent, p) {
        Some(i) => {
            assert forall|k: int|
                0 <= k < m0d.len() implies crate::types::doc_matches(
                #[trigger] m0d[k],
                user,
                agent,
                q,
            ) == crate::types::doc_matches(#[trigger] m1d[k], user, agent, q) by {
                if k != i {
                    assert(m1d[k] == m0d[k]);
                } else {
                    assert(m1d[k].path == m0d[k].path);
                    assert(m1d[k].user == m0d[k].user);
                    assert(m1d[k].agent == m0d[k].agent);
                }
            }
            lemma_find_pointwise(m0d, m1d, user, agent, q, 0);
            lemma_find_doc_from(m0d, user, agent, q, 0);
            match find_doc(m0d, user, agent, q) {
                Some(w) => {
                    assert(m0d[w].path == q);
                    assert(m0d[i].path == p);
                    assert(w != i);
                    assert(m1d[w] == m0d[w]);
                },
                None => {},
            }
        },
        None => {
            assert(m1d == m0d.push(m1d.last()));
            assert(!crate::types::doc_matches(m1d.last(), user, agent, q));
            lemma_find_push(m0d, m1d.last(), user, agent, q);
            lemma_find_doc_from(m0d, user, agent, q, 0);
            match find_doc(m0d, user, agent, q) {
                Some(w) => {
                    assert(m1d[w] == m0d[w]);
                },
                None => {},
            }
        },
    }
}

pub struct Workspace<S: StorageBackend, E: EmbeddingProvider> {
    user_id: String,
    agent_id: Option<u128>,
    storage: S,
    embeddings: Option<E>,
}

impl<S: StorageBackend, E: EmbeddingProvider> Workspace<S, E> {
    /// The abstract storage state seen through this workspace.
    pub closed spec fn model(&self) -> StoreModel {
        self.storage.model()
    }

    /// The bound user.
    pub closed spec fn user(&self) -> Seq<char> {
        self.user_id@
    }

    /// The bound agent, if any.
    pub closed spec fn agent(&self) -> Option<u128> {
        self.agent_id
    }

    /// Whether an embedding provider is configured.
    pub closed spec fn has_provider(&self) -> bool {
        self.embeddings is Some
    }

    /// The configured provider's fixed vector dimension; meaningful only
    /// when a provider is configured.
    pub closed spec fn provider_dim(&self) -> nat {
        self.embeddings->Some_0.dim()
    }

    /// Whether the configured provider never fails; meaningful only when a
    /// provider is configured.
    pub closed spec fn provider_total(&self) -> bool {
        self.embeddings->Some_0.total_provider()
    }

    /// The workspace is usable: its backend invariant holds.
    pub closed spec fn inv(&self) -> bool {
        self.storage.inv()
    }

    /// No two documents in this workspace's store share one scope and path:
    /// normalized paths are unique keys per `(user, agent)`.
    pub proof fn paths_unique(&self)
        requires
            self.inv(),
        ensures
            crate::types::docs_unique(self.model().docs),
    {
        self.storage.ids_unique();
    }

    /// The scope and provider are unchanged by an operation.
    pub open spec fn same_binding(&self, other: &Self) -> bool {
        &&& self.user() == other.user()
        &&& self.agent() == other.agent()
        &&& self.has_provider() == other.has_provider()
        &&& self.provider_dim() == other.provider_dim()
        &&& self.provider_total() == other.provider_total()
    }

    /// A workspace over `storage`, scoped to `user_id`, with no agent and no
    /// embedding provider.
    pub fn new(user_id: String, storage: S) -> (r: Self)
        requires
            storage.inv(),
        ensures
            r.inv(),
            r.model() == storage.model(),
            r.user() == user_id@,
            r.agent() is None,
            !r.has_provider(),
    {
        Workspace { user_id, agent_id: None, storage, embeddings: None }
    }

    /// The same workspace scoped to a specific agent.
    pub fn with_agent(self, agent_id: u128) -> (r: Self)
        ensures
            r.inv() == self.inv(),
            r.model() == self.model(),
            r.user() == self.user(),
            r.agent() == Some(agent_id),
            r.has_provider() == self.has_provider(),
    {
        Workspace { agent_id: Some(agent_id), ..self }
    }

    /// The same workspace with an embedding provider for semantic search.
    pub fn with_embeddings(self, provider: E) -> (r: Self)
        ensures
            r.inv() == self.inv(),
            r.model() == self.model(),
            r.user() == self.user(),
            r.agent() == self.agent(),
            r.has_provider(),
    {
        Workspace { embeddings: Some(provider), ..self }
    }

    /// The bound user id.
    pub fn user_id(&self) -> (r: &str)
        ensures
            r@ == self.user(),
    {
        self.user_id.as_str()
    }

    /// The bound agent id.
    pub fn agent_id(&self) -> (r: Option<u128>)
        ensures
            r == self.agent(),
    {
        self.agent_id
    }

    /// Read a file by normalized path.
    pub fn read(&self, path: &str) -> (r: Result<MemoryDocument, WorkspaceError>)
        requires
            self.inv(),
        ensures
            ({
                let p = normalize_path_spec(path@);
                match r {
                    Ok(d) => p.len() > 0 && (find_doc(self.model().docs, self.user(), self.agent(), p)
                        matches Some(i) && d@ == self.model().docs[i]),
                    Err(e) => (e is InvalidPath && p.len() == 0) || (e is DocumentNotFound && p.len()
                        > 0 && find_doc(self.model().docs, self.user(), self.agent(), p) is None),
                }
            }),
    {
        let p = normalize_path(path);
        if p.as_str().is_empty() {
            return Err(
                WorkspaceError::InvalidPath { path: p, reason: "empty after normalization".to_owned() },
            );
        }
        let user = self.user_id.clone();
        self.storage.get_document_by_path(user.as_str(), self.agent_id, p.as_str())
    }

    /// Read a file, creating it empty when absent.
    pub fn read_or_create(&mut self, path: &str) -> (r: Result<MemoryDocument, WorkspaceError>)
        requires
            old(self).inv(),
        ensures
            final(self).inv(),
            old(self).same_binding(final(self)),
            final(self).model().chunks == old(self).model().chunks,
            ({
                let p = normalize_path_spec(path@);
                let m0 = old(self).model();
                let m1 = final(self).model();
                match r {
                    Ok(d) => {
                        &&& p.len() > 0
                        &&& d@.user == old(self).user()
                        &&& d@.agent == old(self).agent()
                        &&& d@.path == p
                        &&& match find_doc(m0.docs, old(self).user(), old(self).agent(), p) {
                            Some(i) => m1 == m0 && d@ == m0.docs[i],
                            None => m1.docs == m0.docs.push(d@) && d@.content.len() == 0
                                && find_doc_id(m0.docs, d@.id) is None,
                        }
                    },
                    Err(e) => (e is InvalidPath && p.len() == 0 && m1 == m0) || (e is BackendError
                        && m1 == m0 && m0.next == u128::MAX),
                }
            }),
            final(self).model().next >= old(self).model().next,
    {
        let p = normalize_path(path);
        if p.as_str().is_empty() {
            return Err(
                WorkspaceError::InvalidPath { path: p, reason: "empty after normalization".to_owned() },
            );
        }
        let user = self.user_id.clone();
        self.storage.get_or_create_document_by_path(user.as_str(), self.agent_id, p.as_str())
    }

    /// Re-index a document: drop its chunks, chunk its current content, and
    /// insert the new chunks, each with an embedding when the provider gives
    /// one.  An embedding failure is non-fatal; a refused insert is.
    fn reindex_document(&mut self, document_id: u128) -> (r: Result<(), WorkspaceError>)
        requires
            old(self).inv(),
            find_doc_id(old(self).model().docs, document_id) is Some,
        ensures
            final(self).inv(),
            old(self).same_binding(final(self)),
            final(self).model().docs == old(self).model().docs,
            final(self).model().next >= old(self).model().next,
            ({
                let m0 = old(self).model();
                let base = chunks_without_doc(m0.chunks, document_id);
                let di = find_doc_id(m0.docs, document_id)->Some_0;
                let cs = chunk_document_spec(m0.docs[di].content, default_cfg());
                let m1 = final(self).model();
                match r {
                    Ok(()) => chunk_list_matches(m1.chunks, base, document_id, cs) && chunks_dim_ok(
                        m1.chunks,
                        base.len() as int,
                        cs.len() as int,
                        old(self).has_provider(),
                        old(self).provider_dim(),
                    ),
                    Err(e) => (e is BackendError || e is DimensionMismatch) && (exists|k: int|
                        0 <= k <= cs.len() && chunk_list_matches(
                            m1.chunks,
                            base,
                            document_id,
                            cs.subrange(0, k),
                        ) && chunks_dim_ok(
                            m1.chunks,
                            base.len() as int,
                            k,
                            old(self).has_provider(),
                            old(self).provider_dim(),
                        )),
                }
            }),
    {
        let ghost m0 = self.model();
        let ghost di = find_doc_id(m0.docs, document_id)->Some_0;
        let doc = match self.storage.get_document_by_id(document_id) {
            Ok(d) => d,
            Err(_) => {
                proof {
                    assert(false);
                }
                return Err(WorkspaceError::BackendError { reason: "unreachable".to_owned() });
            },
        };
        assert(doc@.content == m0.docs[di].content);
        let pieces = chunk_document(doc.content.as_str(), ChunkConfig::default());
        let ghost cs = chunk_document_spec(m0.docs[di].content, default_cfg());
        proof {
            assert(pieces.deep_view() == cs);
        }
        match self.storage.delete_chunks(document_id) {
            Ok(()) => {},
            Err(_) => {
                proof {
                    assert(false);
                }
                return Err(WorkspaceError::BackendError { reason: "unreachable".to_owned() });
            },
        }
        let ghost base = chunks_without_doc(m0.chunks, document_id);
        proof {
            lemma_chunks_without_doc_members(m0.chunks, document_id);
            assert(chunk_list_matches(self.model().chunks, base, document_id, cs.subrange(0, 0)))
                by {
                assert(cs.subrange(0, 0) =~= Seq::<Seq<char>>::empty());
                assert(self.model().chunks.subrange(0, base.len() as int) =~= base);
            }
        }
        let n = pieces.len();
        let mut j: usize = 0;
        while j < n
            invariant
                j <= n,
                n == pieces@.len(),
                self.inv(),
                old(self).same_binding(self),
                m0 == old(self).model(),
                self.model().next >= m0.next,
                pieces.deep_view() == cs,
                cs == chunk_document_spec(m0.docs[di as int].content, default_cfg()),
                di == find_doc_id(m0.docs, document_id)->Some_0,
                self.model().docs == m0.docs,
                find_doc_id(m0.docs, document_id) is Some,
                base == chunks_without_doc(m0.chunks, document_id),
                forall|k: int|
                    0 <= k < base.len() ==> (exists|w: int|
                        0 <= w < m0.chunks.len() && #[trigger] base[k] == m0.chunks[w]
                            && m0.chunks[w].doc != document_id),
                chunk_list_matches(self.model().chunks, base, document_id, cs.subrange(0, j as int)),
                chunks_dim_ok(
                    self.model().chunks,
                    base.len() as int,
                    j as int,
                    old(self).has_provider(),
                    old(self).provider_dim(),
                ),
            decreases n - j,
        {
            let emb: Option<Vec<i32>> = match &self.embeddings {
                Some(p) => match p.embed(pieces[j].as_str()) {
                    Ok(v) => Some(v),
                    Err(_) => None,
                },
                None => None,
            };
            proof {
                assert(emb matches Some(v) ==> self.has_provider() && v@.len()
                    == self.provider_dim());
                assert(pieces@[j as int]@ == cs[j as int]);
                assert forall|ci: int| 0 <= ci < self.model().chunks.len() implies !((#[trigger]
                self.model().chunks[ci]).doc == document_id && self.model().chunks[ci].idx == j) by {
                    if ci < base.len() {
                        assert(self.model().chunks[ci] == base[ci]);
                    } else {
                        assert(self.model().chunks[ci] == self.model().chunks[base.len() + (ci
                            - base.len())]);
                        assert(self.model().chunks[ci].idx == ci - base.len());
                    }
                }
            }
            let res = self.storage.insert_chunk(
                document_id,
                j,
                pieces[j].as_str(),
                emb.as_ref(),
            );
            match res {
                Ok(_) => {
                    proof {
                        assert(self.model().chunks.subrange(0, base.len() as int) =~= base);
                        assert(chunk_list_matches(
                            self.model().chunks,
                            base,
                            document_id,
                            cs.subrange(0, j + 1),
                        )) by {
                            assert(cs.subrange(0, j + 1).drop_last() =~= cs.subrange(0, j as int));
                        }
                    }
                },
                Err(e) => {
                    proof {
                        assert(!(e is DocumentNotFound));
                        assert(e is BackendError || e is DimensionMismatch);
                    }
                    let out = match e {
                        WorkspaceError::DimensionMismatch { expected, actual } => Err(
                            WorkspaceError::DimensionMismatch { expected, actual },
                        ),
                        _ => Err(
                            WorkspaceError::BackendError { reason: "chunk insert refused".to_owned() },
                        ),
                    };
                    proof {
                        assert(chunk_list_matches(
                            self.model().chunks,
                            base,
                            document_id,
                            cs.subrange(0, j as int),
                        ));
                    }
                    return out;
                },
            }
            j = j + 1;
        }
        proof {
            assert(cs.subrange(0, n as int) =~= cs);
        }
        Ok(())
    }

    /// Write (create or update) a file, then re-index it for search.
    ///
    /// On success the stored content at the normalized path is exactly
    /// `content`, and the document's chunk rows are exactly its chunk list.
    /// A backend refusal can leave the fresh content with a partial chunk
    /// set; the next successful write restores it.
    pub fn write(&mut self, path: &str, content: &str) -> (r: Result<
        MemoryDocument,
        WorkspaceError,
    >)
        requires
            old(self).inv(),
        ensures
            final(self).inv(),
            old(self).same_binding(final(self)),
            ({
                let p = normalize_path_spec(path@);
                let m0 = old(self).model();
                let m1 = final(self).model();
                let user = old(self).user();
                let agent = old(self).agent();
                match r {
                    Ok(d) => {
                        &&& p.len() > 0
                        &&& d@.user == user
                        &&& d@.agent == agent
                        &&& d@.path == p
                        &&& d@.content == content@
                        &&& doc_content_at(m1, user, agent, p) == Some(content@)
                        &&& (match find_doc(m0.docs, user, agent, p) {
                            Some(i) => m1.docs == m0.docs.update(
                                i,
                                DocModel { content: content@, ..m0.docs[i] },
                            ) && d@.id == m0.docs[i].id,
                            None => m1.docs.len() == m0.docs.len() + 1 && m1.docs == m0.docs.push(
                                m1.docs.last(),
                            ) && m1.docs.last() == d@,
                        })
                        &&& chunk_list_matches(
                            m1.chunks,
                            chunks_without_doc(m0.chunks, d@.id),
                            d@.id,
                            chunk_document_spec(content@, default_cfg()),
                        )
                        &&& chunks_dim_ok(
                            m1.chunks,
                            chunks_without_doc(m0.chunks, d@.id).len() as int,
                            chunk_document_spec(content@, default_cfg()).len() as int,
                            old(self).has_provider(),
                            old(self).provider_dim(),
                        )
                    },
                    Err(e) => (e is InvalidPath && p.len() == 0 && m1 == m0) || ((e
                        is BackendError || e is DimensionMismatch) && (write_docs_shape(
                        m0.docs,
                        m1.docs,
                        user,
                        agent,
                        p,
                        content@,
                    ) || (m1 == m0 && m0.next == u128::MAX))),
                }
            }),
            final(self).model().next >= old(self).model().next,
    {
        let ghost p = normalize_path_spec(path@);
        let ghost user = old(self).user();
        let ghost agent = old(self).agent();
        let ghost m0 = self.model();
        let doc = match self.read_or_create(path) {
            Ok(d) => d,
            Err(e) => {
                return Err(e);
            },
        };
        let ghost mc = self.model();
        let ghost ix: int = match find_doc(m0.docs, user, agent, p) {
            Some(i) => i,
            None => mc.docs.len() - 1,
        };
        proof {
            lemma_find_doc_from(m0.docs, user, agent, p, 0);
            match find_doc(m0.docs, user, agent, p) {
                Some(i) => {
                    assert(mc == m0);
                    assert(mc.docs[ix].id == doc.id);
                },
                None => {
                    assert(mc.docs[ix] == doc@);
                },
            }
            assert(mc.docs[ix].id == doc.id);
            assert(crate::types::doc_matches(mc.docs[ix], user, agent, p));
            self.lemma_doc_id_pins(doc.id, ix);
        }
        match self.storage_update(doc.id, content) {
            Ok(()) => {},
            Err(e) => {
                return Err(e);
            },
        }
        proof {
            assert(self.model().docs[ix].id == doc.id);
            self.lemma_doc_id_pins(doc.id, ix);
        }
        proof {
            let md = self.model().docs;
            assert(md == mc.docs.update(ix, DocModel { content: content@, ..mc.docs[ix] }));
            if find_doc(m0.docs, user, agent, p) is None {
                assert(md =~= m0.docs.push(md.last()));
                assert(crate::types::doc_matches(md.last(), user, agent, p));
            }
            assert(write_docs_shape(m0.docs, md, user, agent, p, content@));
        }
        match self.reindex_document(doc.id) {
            Ok(()) => {},
            Err(e) => {
                return Err(e);
            },
        }
        let ghost m1 = self.model();
        proof {
            assert(m1.docs == mc.docs.update(ix, DocModel { content: content@, ..mc.docs[ix] }));
            assert(crate::types::doc_matches(m1.docs[ix], user, agent, p));
            assert forall|k: int| 0 <= k < ix implies !crate::types::doc_matches(
                #[trigger] m1.docs[k],
                user,
                agent,
                p,
            ) by {
                assert(m1.docs[k] == m0.docs[k]);
            }
            lemma_find_doc_from(m1.docs, user, agent, p, 0);
            assert(find_doc(m1.docs, user, agent, p) == Some(ix));
            self.lemma_doc_id_pins(doc.id, ix);
        }
        let out = match self.storage.get_document_by_id(doc.id) {
            Ok(d) => d,
            Err(_) => {
                proof {
                    assert(false);
                }
                return Err(WorkspaceError::BackendError { reason: "unreachable".to_owned() });
            },
        };
        proof {
            assert(out@ == m1.docs[ix]);
            if find_doc(m0.docs, user, agent, p) is None {
                assert(m1.docs =~= m0.docs.push(m1.docs.last()));
            }
        }
        Ok(out)
    }

    /// With a document carrying `id` at position `ix`, the identity lookup
    /// lands exactly there.
    proof fn lemma_doc_id_pins(&self, id: u128, ix: int)
        requires
            self.inv(),
            0 <= ix < self.model().docs.len(),
            self.model().docs[ix].id == id,
        ensures
            find_doc_id(self.model().docs, id) == Some(ix),
    {
        self.storage.ids_unique();
        crate::types::lemma_find_doc_id_from(self.model().docs, id, 0);
        match find_doc_id(self.model().docs, id) {
            Some(m) => {
                if m < ix {
                    assert(self.model().docs[m].id != self.model().docs[ix].id);
                } else if m > ix {
                    assert(false);
                }
            },
            None => {
                assert(false);
            },
        }
    }

    /// Replace a document's content through the backend.
    fn storage_update(&mut self, id: u128, content: &str) -> (r: Result<(), WorkspaceError>)
        requires
            old(self).inv(),
            find_doc_id(old(self).model().docs, id) is Some,
        ensures
            final(self).inv(),
            old(self).same_binding(final(self)),
            final(self).model().chunks == old(self).model().chunks,
            final(self).model().next >= old(self).model().next,
            r is Ok,
            ({
                let m0 = old(self).model();
                let i = find_doc_id(m0.docs, id)->Some_0;
                final(self).model().docs == m0.docs.update(
                    i,
                    DocModel { content: content@, ..m0.docs[i] },
                )
            }),
    {
        match self.storage.update_document(id, content) {
            Ok(()) => Ok(()),
            Err(_) => {
                proof {
                    assert(false);
                }
                Err(WorkspaceError::BackendError { reason: "unreachable".to_owned() })
            },
        }
    }

    /// Append content to a file, creating it when absent, with the given
    /// separator between existing content and the new entry.
    fn append_sep(&mut self, path: &str, sep: &str, content: &str) -> (r: Result<
        (),
        WorkspaceError,
    >)
        requires
            old(self).inv(),
        ensures
            final(self).inv(),
            old(self).same_binding(final(self)),
            ({
                let p = normalize_path_spec(path@);
                let m0 = old(self).model();
                let m1 = final(self).model();
                let user = old(self).user();
                let agent = old(self).agent();
                let prior = match doc_content_at(m0, user, agent, p) {
                    Some(c) => c,
                    None => Seq::empty(),
                };
                let merged = if prior.len() == 0 {
                    content@
                } else {
                    prior + sep@ + content@
                };
                match r {
                    Ok(()) => p.len() > 0 && content_and_chunks_at(
                        m0,
                        m1,
                        user,
                        agent,
                        p,
                        merged,
                        old(self).has_provider(),
                        old(self).provider_dim(),
                    ),
                    Err(e) => (e is InvalidPath && p.len() == 0 && m1 == m0) || (e is BackendError
                        || e is DimensionMismatch),
                }
            }),
    {
        let ghost p = normalize_path_spec(path@);
        let ghost user = old(self).user();
        let ghost agent = old(self).agent();
        let ghost m0 = self.model();
        let doc = match self.read_or_create(path) {
            Ok(d) => d,
            Err(e) => {
                return Err(e);
            },
        };
        let ghost mc = self.model();
        let ghost ix: int = match find_doc(m0.docs, user, agent, p) {
            Some(i) => i,
            None => mc.docs.len() - 1,
        };
        proof {
            lemma_find_doc_from(m0.docs, user, agent, p, 0);
            match find_doc(m0.docs, user, agent, p) {
                Some(i) => {
                    assert(mc == m0);
                    assert(mc.docs[ix].id == doc.id);
                    assert(doc.content@ == m0.docs[ix].content);
                },
                None => {
                    assert(mc.docs[ix] == doc@);
                },
            }
            assert(mc.docs[ix].id == doc.id);
            assert(crate::types::doc_matches(mc.docs[ix], user, agent, p));
            self.lemma_doc_id_pins(doc.id, ix);
        }
        let new_content = if doc.content.as_str().is_empty() {
            content.to_owned()
        } else {
            let mut s = doc.content;
            s.append(sep);
            s.append(content);
            s
        };
        match self.storage_update(doc.id, new_content.as_str()) {
            Ok(()) => {},
            Err(e) => {
                return Err(e);
            },
        }
        proof {
            assert(self.model().docs[ix].id == doc.id);
            self.lemma_doc_id_pins(doc.id, ix);
        }
        match self.reindex_document(doc.id) {
            Ok(()) => {},
            Err(e) => {
                return Err(e);
            },
        }
        let ghost m1 = self.model();
        proof {
            assert(m1.docs == mc.docs.update(
                ix,
                DocModel { content: new_content@, ..mc.docs[ix] },
            ));
            assert(crate::types::doc_matches(m1.docs[ix], user, agent, p));
            assert forall|k: int| 0 <= k < ix implies !crate::types::doc_matches(
                #[trigger] m1.docs[k],
                user,
                agent,
                p,
            ) by {
                assert(m1.docs[k] == m0.docs[k]);
            }
            lemma_find_doc_from(m1.docs, user, agent, p, 0);
            assert(find_doc(m1.docs, user, agent, p) == Some(ix));
        }
        Ok(())
    }

    /// Append content to a file, creating it when absent; a single newline
    /// separates existing content from the new entry.
    pub fn append(&mut self, path: &str, content: &str) -> (r: Result<(), WorkspaceError>)
        requires
            old(self).inv(),
        ensures
            final(self).inv(),
            old(self).same_binding(final(self)),
            ({
                let p = normalize_path_spec(path@);
                let m0 = old(self).model();
                let m1 = final(self).model();
                let user = old(self).user();
                let agent = old(self).agent();
                let prior = match doc_content_at(m0, user, agent, p) {
                    Some(c) => c,
                    None => Seq::empty(),
                };
                let merged = if prior.len() == 0 {
                    content@
                } else {
                    prior + "\n"@ + content@
                };
                match r {
                    Ok(()) => p.len() > 0 && content_and_chunks_at(
                        m0,
                        m1,
                        user,
                        agent,
                        p,
                        merged,
                        old(self).has_provider(),
                        old(self).provider_dim(),
                    ),
                    Err(e) => (e is InvalidPath && p.len() == 0 && m1 == m0) || (e is BackendError
                        || e is DimensionMismatch),
                }
            }),
    {
        self.append_sep(path, "\n", content)
    }

    /// Append an entry to the main memory file, with a blank line as the
    /// semantic separator.
    pub fn append_memory(&mut self, entry: &str) -> (r: Result<(), WorkspaceError>)
        requires
            old(self).inv(),
        ensures
            final(self).inv(),
            old(self).same_binding(final(self)),
            ({
                let m0 = old(self).model();
                let m1 = final(self).model();
                let user = old(self).user();
                let agent = old(self).agent();
                let prior = match doc_content_at(m0, user, agent, "MEMORY.md"@) {
                    Some(c) => c,
                    None => Seq::empty(),
                };
                let merged = if prior.len() == 0 {
                    entry@
                } else {
                    prior + "\n\n"@ + entry@
                };
                match r {
                    Ok(()) => content_and_chunks_at(
                        m0,
                        m1,
                        user,
                        agent,
                        "MEMORY.md"@,
                        merged,
                        old(self).has_provider(),
                        old(self).provider_dim(),
                    ),
                    Err(e) => e is BackendError || e is DimensionMismatch,
                }
            }),
    {
        proof {
            reveal_strlit("MEMORY.md");
            assert forall|i: int| 0 <= i < "MEMORY.md"@.len() implies "MEMORY.md"@[i] != '/' by {}
            lemma_fixed_path_norm("MEMORY.md"@);
        }
        self.append_sep(memory_path(), "\n\n", entry)
    }

    /// Append a time-stamped entry to the daily log of the given clock
    /// reading, in the `[HH:MM:SS] entry` line format.
    pub fn append_daily_log_at(&mut self, now: ClockReading, entry: &str) -> (r: Result<
        (),
        WorkspaceError,
    >)
        requires
            old(self).inv(),
            now.wf(),
        ensures
            final(self).inv(),
            old(self).same_binding(final(self)),
            daily_append_post(
                old(self).model(),
                final(self).model(),
                old(self).user(),
                old(self).agent(),
                now,
                entry@,
                old(self).has_provider(),
                old(self).provider_dim(),
                r,
            ),
    {
        let d = clamp_date(now.year, now.month, now.day);
        let line = log_line_exec(now.hour, now.minute, now.second, entry);
        let code = date_code_exec(d);
        let mut path = "daily/".to_owned();
        path.append(code.as_str());
        path.append(".md");
        proof {
            assert(path@ == daily_path_spec(d));
            lemma_daily_path_clean(d);
        }
        let r = self.append_sep(path.as_str(), "\n", line.as_str());
        proof {
            assert(daily_path_spec(d) == daily_path_spec(d));
        }
        r
    }

    /// Append a time-stamped entry to today's daily log, by the UTC clock:
    /// for some well-formed clock reading, the log at that reading's date
    /// now ends with the reading's `[HH:MM:SS] entry` line.
    pub fn append_daily_log(&mut self, entry: &str) -> (r: Result<(), WorkspaceError>)
        requires
            old(self).inv(),
        ensures
            final(self).inv(),
            old(self).same_binding(final(self)),
            exists|c: ClockReading|
                c.wf() && #[trigger] daily_append_post(
                    old(self).model(),
                    final(self).model(),
                    old(self).user(),
                    old(self).agent(),
                    c,
                    entry@,
                    old(self).has_provider(),
                    old(self).provider_dim(),
                    r,
                ),
    {
        let now = utc_now_reading();
        self.append_daily_log_at(now, entry)
    }

    /// Whether a file exists; a lookup miss maps to `false`.
    pub fn file_exists(&self, path: &str) -> (r: Result<bool, WorkspaceError>)
        requires
            self.inv(),
        ensures
            ({
                let p = normalize_path_spec(path@);
                match r {
                    Ok(b) => p.len() > 0 && b == (find_doc(
                        self.model().docs,
                        self.user(),
                        self.agent(),
                        p,
                    ) is Some),
                    Err(e) => e is InvalidPath && p.len() == 0,
                }
            }),
    {
        match self.read(path) {
            Ok(_) => Ok(true),
            Err(e) => match e {
                WorkspaceError::DocumentNotFound { .. } => Ok(false),
                other => Err(other),
            },
        }
    }

    /// Delete a file and all its chunks.
    pub fn delete(&mut self, path: &str) -> (r: Result<(), WorkspaceError>)
        requires
            old(self).inv(),
        ensures
            final(self).inv(),
            old(self).same_binding(final(self)),
            ({
                let p = normalize_path_spec(path@);
                let m0 = old(self).model();
                let m1 = final(self).model();
                match r {
                    Ok(()) => p.len() > 0 && (find_doc(m0.docs, old(self).user(), old(self).agent(), p)
                        matches Some(i) && m1.docs == m0.docs.remove(i) && m1.chunks
                        == chunks_without_doc(m0.chunks, m0.docs[i].id)),
                    Err(e) => m1 == m0 && ((e is InvalidPath && p.len() == 0) || (e
                        is DocumentNotFound && p.len() > 0 && find_doc(
                        m0.docs,
                        old(self).user(),
                        old(self).agent(),
                        p,
                    ) is None)),
                }
            }),
    {
        let p = normalize_path(path);
        if p.as_str().is_empty() {
            return Err(
                WorkspaceError::InvalidPath { path: p, reason: "empty after normalization".to_owned() },
            );
        }
        let user = self.user_id.clone();
        self.storage.delete_document_by_path(user.as_str(), self.agent_id, p.as_str())
    }

    /// List the immediate children of a directory.
    pub fn list(&self, directory: &str) -> (r: Result<Vec<WorkspaceEntry>, WorkspaceError>)
        requires
            self.inv(),
        ensures
            ({
                match r {
                    Ok(es) => es@.map_values(|e: WorkspaceEntry| e@) == crate::types::list_dir_spec(
                        self.model().docs,
                        self.user(),
                        self.agent(),
                        normalize_path_spec(directory@),
                    ),
                    Err(e) => e is BackendError,
                }
            }),
    {
        let d = normalize_directory(directory);
        let user = self.user_id.clone();
        self.storage.list_directory(user.as_str(), self.agent_id, d.as_str())
    }

    /// Read or create the main long-term memory file `MEMORY.md`.
    pub fn memory(&mut self) -> (r: Result<MemoryDocument, WorkspaceError>)
        requires
            old(self).inv(),
        ensures
            final(self).inv(),
            old(self).same_binding(final(self)),
            final(self).model().chunks == old(self).model().chunks,
            read_or_create_post(
                old(self).model(),
                final(self).model(),
                old(self).user(),
                old(self).agent(),
                "MEMORY.md"@,
                r,
            ),
    {
        proof {
            reveal_strlit("MEMORY.md");
            assert forall|i: int| 0 <= i < "MEMORY.md"@.len() implies "MEMORY.md"@[i] != '/' by {}
            lemma_fixed_path_norm("MEMORY.md"@);
        }
        self.read_or_create(memory_path())
    }

    /// Read or create the daily log for a date.
    pub fn daily_log(&mut self, date: Date) -> (r: Result<MemoryDocument, WorkspaceError>)
        requires
            old(self).inv(),
            date.wf(),
        ensures
            final(self).inv(),
            old(self).same_binding(final(self)),
            final(self).model().chunks == old(self).model().chunks,
            read_or_create_post(
                old(self).model(),
                final(self).model(),
                old(self).user(),
                old(self).agent(),
                daily_path_spec(date),
                r,
            ),
    {
        let code = date_code_exec(date);
        let mut path = "daily/".to_owned();
        path.append(code.as_str());
        path.append(".md");
        proof {
            assert(path@ == daily_path_spec(date));
            lemma_daily_path_clean(date);
        }
        self.read_or_create(path.as_str())
    }

    /// Read or create today's daily log, by the UTC clock.
    pub fn today_log(&mut self) -> (r: Result<MemoryDocument, WorkspaceError>)
        requires
            old(self).inv(),
        ensures
            final(self).inv(),
            old(self).same_binding(final(self)),
            final(self).model().chunks == old(self).model().chunks,
            exists|d: Date|
                d.wf() && #[trigger] read_or_create_post(
                    old(self).model(),
                    final(self).model(),
                    old(self).user(),
                    old(self).agent(),
                    daily_path_spec(d),
                    r,
                ),
    {
        let now = utc_now_reading();
        let d = clamp_date(now.year, now.month, now.day);
        self.daily_log(d)
    }

    /// The heartbeat checklist: the stored `HEARTBEAT.md` when present, else
    /// the in-memory seed template, which is never persisted.
    pub fn heartbeat_checklist(&self) -> (r: Result<Option<String>, WorkspaceError>)
        requires
            self.inv(),
        ensures
            match r {
                Ok(o) => o matches Some(s) && (match find_doc(
                    self.model().docs,
                    self.user(),
                    self.agent(),
                    "HEARTBEAT.md"@,
                ) {
                    Some(i) => s@ == self.model().docs[i].content,
                    None => s@ == heartbeat_seed_spec(),
                }),
                Err(e) => false,
            },
    {
        proof {
            reveal_strlit("HEARTBEAT.md");
            assert forall|i: int| 0 <= i < "HEARTBEAT.md"@.len() implies "HEARTBEAT.md"@[i] != '/'
                by {}
            lemma_fixed_path_norm("HEARTBEAT.md"@);
        }
        match self.read(heartbeat_path()) {
            Ok(doc) => Ok(Some(doc.content)),
            Err(_) => Ok(Some(heartbeat_seed().to_owned())),
        }
    }

    /// Append to `parts` the prompt section for one file, read from the
    /// current state.
    fn push_section(&self, parts: &mut Vec<String>, path: &str, header: &'static str)
        requires
            self.inv(),
            normalize_path_spec(path@) == path@,
            path@.len() > 0,
        ensures
            final(parts)@.map_values(|s: String| s@) == old(parts)@.map_values(|s: String| s@)
                + section_part(self.model(), self.user(), self.agent(), path@, header@),
    {
        let ghost before = parts@;
        match self.read(path) {
            Ok(d) => {
                if !d.content.as_str().is_empty() {
                    let mut s = header.to_owned();
                    s.append("\n\n");
                    s.append(d.content.as_str());
                    parts.push(s);
                    proof {
                        assert(parts@.map_values(|s: String| s@) =~= before.map_values(
                            |s: String| s@,
                        ) + section_part(self.model(), self.user(), self.agent(), path@, header@));
                    }
                } else {
                    proof {
                        assert(parts@.map_values(|s: String| s@) =~= before.map_values(
                            |s: String| s@,
                        ) + section_part(self.model(), self.user(), self.agent(), path@, header@));
                    }
                }
            },
            Err(_) => {
                proof {
                    assert(parts@.map_values(|s: String| s@) =~= before.map_values(|s: String| s@)
                        + section_part(self.model(), self.user(), self.agent(), path@, header@));
                }
            },
        }
    }

    /// Compose the system prompt for a given "today": the non-empty content
    /// of the four identity files under fixed headers, then today's and
    /// yesterday's daily notes, joined by the section separator.  The two
    /// daily logs are created empty when absent.
    pub fn system_prompt_at(&mut self, today: Date) -> (r: Result<String, WorkspaceError>)
        requires
            old(self).inv(),
            today.wf(),
        ensures
            final(self).inv(),
            old(self).same_binding(final(self)),
            final(self).model().chunks == old(self).model().chunks,
            match r {
                Ok(s) => s@ == prompt_spec(
                    final(self).model(),
                    old(self).user(),
                    old(self).agent(),
                    today,
                ),
                Err(e) => e is BackendError,
            },
    {
        let yesterday = match pred_date(today) {
            Some(p) => p,
            None => today,
        };
        match self.daily_log(today) {
            Ok(_) => {},
            Err(e) => {
                return Err(e);
            },
        }
        match self.daily_log(yesterday) {
            Ok(_) => {},
            Err(e) => {
                return Err(e);
            },
        }
        let ghost m1 = self.model();
        let ghost user = old(self).user();
        let ghost agent = old(self).agent();

        let mut parts: Vec<String> = Vec::new();
        proof {
            reveal_strlit("AGENTS.md");
            reveal_strlit("SOUL.md");
            reveal_strlit("USER.md");
            reveal_strlit("IDENTITY.md");
            assert forall|k: int| 0 <= k < "AGENTS.md"@.len() implies "AGENTS.md"@[k] != '/' by {}
            lemma_fixed_path_norm("AGENTS.md"@);
            assert forall|k: int| 0 <= k < "SOUL.md"@.len() implies "SOUL.md"@[k] != '/' by {}
            lemma_fixed_path_norm("SOUL.md"@);
            assert forall|k: int| 0 <= k < "USER.md"@.len() implies "USER.md"@[k] != '/' by {}
            lemma_fixed_path_norm("USER.md"@);
            assert forall|k: int| 0 <= k < "IDENTITY.md"@.len() implies "IDENTITY.md"@[k] != '/'
                by {}
            lemma_fixed_path_norm("IDENTITY.md"@);
            lemma_daily_path_clean(today);
            lemma_daily_path_clean(yesterday);
        }
        self.push_section(&mut parts, "AGENTS.md", "## Agent Instructions");
        self.push_section(&mut parts, "SOUL.md", "## Core Values");
        self.push_section(&mut parts, "USER.md", "## User Context");
        self.push_section(&mut parts, "IDENTITY.md", "## Identity");

        let tcode = date_code_exec(today);
        let mut tpath = "daily/".to_owned();
        tpath.append(tcode.as_str());
        tpath.append(".md");
        assert(tpath@ == daily_path_spec(today));
        self.push_section(&mut parts, tpath.as_str(), "## Today's Notes");

        let ycode = date_code_exec(yesterday);
        let mut ypath = "daily/".to_owned();
        ypath.append(ycode.as_str());
        ypath.append(".md");
        assert(ypath@ == daily_path_spec(yesterday));
        if yesterday == today {
            self.push_section(&mut parts, ypath.as_str(), "## Today's Notes");
        } else {
            self.push_section(&mut parts, ypath.as_str(), "## Yesterday's Notes");
        }
        proof {
            let ps = prompt_parts(m1, user, agent, today);
            assert(parts@.map_values(|s: String| s@) =~= ps[0] + ps[1] + ps[2] + ps[3] + ps[4]
                + ps[5]);
        }

        let ghost pv = parts@.map_values(|s: String| s@);
        let n = parts.len();
        let mut out = String::new();
        let mut k: usize = 0;
        while k < n
            invariant
                k <= n,
                n == parts@.len(),
                pv == parts@.map_values(|s: String| s@),
                out@ == join_parts(pv.subrange(0, k as int)),
            decreases n - k,
        {
            if k > 0 {
                out.append("\n\n---\n\n");
            }
            out.append(parts[k].as_str());
            proof {
                assert(pv.subrange(0, k + 1).drop_last() =~= pv.subrange(0, k as int));
                assert(pv.subrange(0, k + 1).last() == pv[k as int]);
            }
            k = k + 1;
        }
        proof {
            assert(pv.subrange(0, n as int) =~= pv);
        }
        Ok(out)
    }

    /// Compose the system prompt for the current UTC date.
    pub fn system_prompt(&mut self) -> (r: Result<String, WorkspaceError>)
        requires
            old(self).inv(),
        ensures
            final(self).inv(),
            old(self).same_binding(final(self)),
            final(self).model().chunks == old(self).model().chunks,
            match r {
                Ok(s) => exists|today: Date|
                    today.wf() && s@ == #[trigger] prompt_spec(
                        final(self).model(),
                        old(self).user(),
                        old(self).agent(),
                        today,
                    ),
                Err(e) => e is BackendError,
            },
    {
        let now = utc_now_reading();
        let d = clamp_date(now.year, now.month, now.day);
        self.system_prompt_at(d)
    }

    /// Seed any missing canonical files, never overwriting an existing one.
    ///
    /// Returns how many files were created: the canonical paths absent
    /// beforehand that now carry their bundled template.  An existing file
    /// is never touched, and when every canonical file is already present
    /// nothing changes and the count is zero.  Only a backend that refuses
    /// to create (its identity space exhausted) can leave a file absent.
    pub fn seed_if_empty(&mut self) -> (r: Result<usize, WorkspaceError>)
        requires
            old(self).inv(),
        ensures
            final(self).inv(),
            old(self).same_binding(final(self)),
            ({
                let m0 = old(self).model();
                let m1 = final(self).model();
                let user = old(self).user();
                let agent = old(self).agent();
                match r {
                    Ok(count) => {
                        &&& count <= SEED_COUNT
                        &&& count as int == seeded_count(m0, m1, user, agent, SEED_COUNT as int)
                        &&& (forall|t: int|
                            0 <= t < SEED_COUNT ==> (find_doc(
                                m0.docs,
                                user,
                                agent,
                                #[trigger] seed_path_spec(t),
                            ) matches Some(dt) ==> doc_content_at(m1, user, agent, seed_path_spec(t))
                                == Some(m0.docs[dt].content)))
                        &&& (forall|t: int|
                            0 <= t < SEED_COUNT ==> (find_doc(
                                m0.docs,
                                user,
                                agent,
                                #[trigger] seed_path_spec(t),
                            ) is None ==> doc_content_at(m1, user, agent, seed_path_spec(t))
                                == Some(seed_content_spec(t)) || (doc_content_at(
                                m1,
                                user,
                                agent,
                                seed_path_spec(t),
                            ) is None && m1.next == u128::MAX)))
                        &&& ((forall|t: int|
                            0 <= t < SEED_COUNT ==> find_doc(
                                m0.docs,
                                user,
                                agent,
                                #[trigger] seed_path_spec(t),
                            ) is Some) ==> m1 == m0 && count == 0)
                    },
                    Err(e) => false,
                }
            }),
    {
        let ghost m0 = self.model();
        let ghost user = old(self).user();
        let ghost agent = old(self).agent();
        proof {
            lemma_seed_paths_good();
        }
        let mut count: usize = 0;
        let mut i: usize = 0;
        while i < SEED_COUNT
            invariant
                i <= SEED_COUNT,
                count <= i,
                self.inv(),
                old(self).same_binding(self),
                m0 == old(self).model(),
                user == old(self).user(),
                agent == old(self).agent(),
                count as int == seeded_count(m0, self.model(), user, agent, i as int),
                forall|t: int|
                    0 <= t < SEED_COUNT ==> (find_doc(
                        m0.docs,
                        user,
                        agent,
                        #[trigger] seed_path_spec(t),
                    ) matches Some(dt) ==> doc_content_at(
                        self.model(),
                        user,
                        agent,
                        seed_path_spec(t),
                    ) == Some(m0.docs[dt].content)),
                forall|t: int|
                    0 <= t < i ==> (find_doc(m0.docs, user, agent, #[trigger] seed_path_spec(t))
                        is None ==> doc_content_at(self.model(), user, agent, seed_path_spec(t))
                        == Some(seed_content_spec(t)) || (doc_content_at(
                        self.model(),
                        user,
                        agent,
                        seed_path_spec(t),
                    ) is None && self.model().next == u128::MAX)),
                forall|t: int|
                    i <= t < SEED_COUNT ==> (find_doc(
                        m0.docs,
                        user,
                        agent,
                        #[trigger] seed_path_spec(t),
                    ) is None ==> doc_content_at(self.model(), user, agent, seed_path_spec(t))
                        is None),
                (forall|t: int|
                    0 <= t < SEED_COUNT ==> find_doc(
                        m0.docs,
                        user,
                        agent,
                        #[trigger] seed_path_spec(t),
                    ) is Some) ==> self.model() == m0 && count == 0,
            decreases SEED_COUNT - i,
        {
            proof {
                lemma_seed_paths_good();
            }
            let (path, template) = seed_file(i);
            let present = match self.read(path) {
                Ok(_) => true,
                Err(_) => false,
            };
            if !present {
                let ghost mprev = self.model();
                proof {
                    assert(find_doc(mprev.docs, user, agent, seed_path_spec(i as int)) is None);
                    if find_doc(m0.docs, user, agent, seed_path_spec(i as int)) is Some {
                        assert(doc_content_at(mprev, user, agent, seed_path_spec(i as int))
                            is Some);
                        assert(false);
                    }
                }
                let outcome = self.write(path, template);
                let created = match outcome {
                    Ok(_) => true,
                    Err(_) => {
                        // a refused write may still have stored the content
                        // before its chunk pass; what the file reads back as
                        // decides whether it counts as created
                        match self.read(path) {
                            Ok(_) => true,
                            Err(_) => false,
                        }
                    },
                };
                proof {
                    if outcome is Ok {
                        assert(write_docs_shape(
                            mprev.docs,
                            self.model().docs,
                            user,
                            agent,
                            seed_path_spec(i as int),
                            seed_content_spec(i as int),
                        ));
                    }
                    if write_docs_shape(
                        mprev.docs,
                        self.model().docs,
                        user,
                        agent,
                        seed_path_spec(i as int),
                        seed_content_spec(i as int),
                    ) {
                        lemma_shape_content(
                            mprev.docs,
                            self.model().docs,
                            user,
                            agent,
                            seed_path_spec(i as int),
                            seed_content_spec(i as int),
                        );
                        assert(doc_content_at(self.model(), user, agent, seed_path_spec(i as int))
                            == Some(seed_content_spec(i as int)));
                        assert(created);
                        lemma_seed_others_stable(
                            mprev,
                            self.model(),
                            user,
                            agent,
                            i as int,
                            seed_content_spec(i as int),
                        );
                    } else {
                        assert(self.model() == mprev && mprev.next == u128::MAX);
                        assert(doc_content_at(self.model(), user, agent, seed_path_spec(i as int))
                            is None);
                        assert(!created);
                    }
                    assert forall|t: int| 0 <= t < i implies doc_content_at(
                        self.model(),
                        user,
                        agent,
                        #[trigger] seed_path_spec(t),
                    ) == doc_content_at(mprev, user, agent, seed_path_spec(t)) by {
                        assert(t != i as int);
                    }
                    lemma_seeded_count_stable(m0, mprev, self.model(), user, agent, i as int);
                }
                if created {
                    count = count + 1;
                }
            } else {
                proof {
                    if find_doc(m0.docs, user, agent, seed_path_spec(i as int)) is None {
                        assert(doc_content_at(self.model(), user, agent, seed_path_spec(i as int))
                            is None);
                        assert(false);
                    }
                }
            }
            i = i + 1;
        }
        Ok(count)
    }

    /// What a search returns, given the backend's lexical ranking of the
    /// query and its vector ranking of the query's embedding: exactly their
    /// fusion under the configuration.  Without a provider the vector
    /// ranking is empty; with one, the embedding is some vector of the
    /// provider's dimension.
    pub open spec fn search_post(
        &self,
        query: Seq<char>,
        config: SearchConfig,
        results: Seq<SearchResult>,
    ) -> bool {
        let m = self.model();
        let l = <S as StorageBackend>::lexical_ranking_model(m, self.user(), self.agent(), query);
        &&& ranking_in_scope(m, self.user(), self.agent(), l, false)
        &&& l.len() <= MAX_RANK_POOL
        &&& (!self.has_provider() ==> crate::search::result_views(results)
            == crate::search::rrf_spec(l, Seq::<RankedModel>::empty(), config))
        &&& (self.has_provider() ==> exists|qe: Seq<i32>|
            {
                let v = #[trigger] <S as StorageBackend>::vector_ranking_model(
                    m,
                    self.user(),
                    self.agent(),
                    qe,
                );
                &&& qe.len() == self.provider_dim()
                &&& ranking_in_scope(m, self.user(), self.agent(), v, true)
                &&& v.len() <= MAX_RANK_POOL
                &&& crate::search::result_views(results) == crate::search::rrf_spec(l, v, config)
            })
    }

    /// Hybrid search with a custom configuration: the query is embedded once
    /// when a provider is configured, then the backend fuses its lexical and
    /// vector rankings of this state and query.
    pub fn search_with_config(&self, query: &str, config: SearchConfig) -> (r: Result<
        Vec<SearchResult>,
        WorkspaceError,
    >)
        requires
            self.inv(),
            config.wf(),
        ensures
            match r {
                Ok(results) => self.search_post(query@, config, results@),
                Err(e) => (e is EmbeddingFailed && self.has_provider()) || e is BackendError,
            },
    {
        let emb: Option<Vec<i32>> = match &self.embeddings {
            Some(p) => match p.embed(query) {
                Ok(v) => Some(v),
                Err(reason) => {
                    return Err(WorkspaceError::EmbeddingFailed { reason });
                },
            },
            None => None,
        };
        let user = self.user_id.clone();
        let emb_ref = emb.as_ref();
        match self.storage.hybrid_search(user.as_str(), self.agent_id, query, emb_ref, &config) {
            Ok(results) => {
                proof {
                    if self.has_provider() {
                        let qe = emb->Some_0@;
                        assert(emb_ref->Some_0@ == qe);
                        assert(qe.len() == self.provider_dim());
                    } else {
                        assert(emb_ref is None);
                    }
                }
                Ok(results)
            },
            Err(e) => Err(e),
        }
    }

    /// Hybrid search with the default configuration and the given result
    /// limit.
    pub fn search(&self, query: &str, limit: usize) -> (r: Result<
        Vec<SearchResult>,
        WorkspaceError,
    >)
        requires
            self.inv(),
        ensures
            match r {
                Ok(results) => self.search_post(
                    query@,
                    SearchConfig {
                        limit,
                        rrf_k: 60,
                        lexical_weight: 1,
                        vector_weight: 1,
                        min_score: crate::search::Score { num: 0, den: 1 },
                    },
                    results@,
                ) && results@.len() <= limit,
                Err(e) => (e is EmbeddingFailed && self.has_provider()) || e is BackendError,
            },
    {
        let cfg = SearchConfig::default().with_limit(limit);
        let r = self.search_with_config(query, cfg);
        proof {
            if r is Ok {
                let results = r->Ok_0;
                assert(crate::search::result_views(results@).len() == results@.len());
                let m = self.model();
                let l = <S as StorageBackend>::lexical_ranking_model(
                    m,
                    self.user(),
                    self.agent(),
                    query@,
                );
                if !self.has_provider() {
                    assert(results@.len() <= limit);
                }
            }
        }
        r
    }

    /// Embed chunks that still lack a vector, in bounded batches.
    ///
    /// Chunk identities, owners, positions and contents are untouched;
    /// existing embeddings are never replaced; a chunk without an embedding
    /// either gains one or is skipped.  Returns how many were embedded.
    pub fn backfill_embeddings(&mut self) -> (r: Result<usize, WorkspaceError>)
        requires
            old(self).inv(),
        ensures
            final(self).inv(),
            old(self).same_binding(final(self)),
            final(self).model().docs == old(self).model().docs,
            ({
                let c0 = old(self).model().chunks;
                let c1 = final(self).model().chunks;
                &&& c1.len() == c0.len()
                &&& forall|k: int|
                    0 <= k < c0.len() ==> {
                        let a = #[trigger] c0[k];
                        let b = #[trigger] c1[k];
                        &&& b.id == a.id
                        &&& b.doc == a.doc
                        &&& b.idx == a.idx
                        &&& b.content == a.content
                        &&& (a.embedding matches Some(e) ==> b.embedding == Some(e))
                    }
            }),
            !old(self).has_provider() ==> r == Ok::<usize, WorkspaceError>(0) && final(self).model()
                == old(self).model(),
            match r {
                Ok(count) => count <= 100 && count as int == newly_embedded(
                    old(self).model().chunks,
                    final(self).model().chunks,
                ) && (old(self).has_provider() && old(self).provider_total() ==> count as int
                    == crate::store::clip(
                    crate::types::unembedded_in_scope(
                        old(self).model().docs,
                        old(self).model().chunks,
                        old(self).user(),
                        old(self).agent(),
                    ),
                    100,
                ).len()),
                Err(e) => e is ChunkNotFound || e is DimensionMismatch || e is BackendError,
            },
    {
        let has_provider = self.embeddings.is_some();
        if !has_provider {
            proof {
                lemma_newly_embedded_refl(self.model().chunks, 0);
            }
            return Ok(0);
        }
        let ghost m0 = self.model();
        proof {
            lemma_newly_embedded_refl(m0.chunks, 0);
        }
        let user = self.user_id.clone();
        let batch = match self.storage.get_chunks_without_embeddings(
            user.as_str(),
            self.agent_id,
            100,
        ) {
            Ok(cs) => cs,
            Err(e) => {
                proof {
                    lemma_newly_embedded_refl(self.model().chunks, 0);
                }
                return Err(e);
            },
        };
        let n = batch.len();
        proof {
            let all = crate::types::unembedded_in_scope(
                m0.docs,
                m0.chunks,
                old(self).user(),
                old(self).agent(),
            );
            assert(batch@.map_values(|c: MemoryChunk| c@).len() == batch@.len());
            if all.len() <= 100 {
                assert(crate::store::clip(all, 100) == all);
            } else {
                assert(crate::store::clip(all, 100).len() == 100);
            }
        }
        let mut count: usize = 0;
        let mut k: usize = 0;
        while k < n
            invariant
                k <= n,
                count <= k,
                n <= 100,
                n == batch@.len(),
                batch@.map_values(|c: MemoryChunk| c@) == crate::store::clip(
                    crate::types::unembedded_in_scope(
                        m0.docs,
                        m0.chunks,
                        old(self).user(),
                        old(self).agent(),
                    ),
                    100,
                ),
                self.inv(),
                old(self).same_binding(self),
                self.has_provider(),
                self.model().docs == m0.docs,
                m0 == old(self).model(),
                self.model().chunks.len() == m0.chunks.len(),
                count as int == newly_embedded(m0.chunks, self.model().chunks),
                old(self).has_provider() && old(self).provider_total() ==> count == k,
                forall|w: int|
                    0 <= w < m0.chunks.len() && m0.chunks[w].embedding is None && (
                    #[trigger] self.model().chunks[w]).embedding is Some ==> exists|k2: int|
                        0 <= k2 < k && (#[trigger] batch@[k2])@.id == m0.chunks[w].id,
                forall|w: int|
                    0 <= w < m0.chunks.len() ==> {
                        let a = #[trigger] m0.chunks[w];
                        let b = #[trigger] self.model().chunks[w];
                        &&& b.id == a.id
                        &&& b.doc == a.doc
                        &&& b.idx == a.idx
                        &&& b.content == a.content
                        &&& (a.embedding matches Some(e) ==> b.embedding == Some(e))
                    },
            decreases n - k,
        {
            let emb = match &self.embeddings {
                Some(p) => p.embed(batch[k].content.as_str()),
                None => {
                    proof {
                        assert(false);
                    }
                    Err("unreachable".to_owned())
                },
            };
            match emb {
                Ok(v) => {
                    let ghost mprev = self.model();
                    match self.storage.update_chunk_embedding(batch[k].id, &v) {
                        Ok(()) => {
                            count = count + 1;
                            proof {
                                let i = crate::types::find_chunk_id(
                                    mprev.chunks,
                                    batch@[k as int].id,
                                )->Some_0;
                                crate::types::lemma_find_chunk_id_from(
                                    mprev.chunks,
                                    batch@[k as int].id,
                                    0,
                                );
                                let all = crate::types::unembedded_in_scope(
                                    m0.docs,
                                    m0.chunks,
                                    old(self).user(),
                                    old(self).agent(),
                                );
                                crate::types::lemma_unembedded_members(
                                    m0.docs,
                                    m0.chunks,
                                    old(self).user(),
                                    old(self).agent(),
                                );
                                assert(batch@.map_values(|c: MemoryChunk| c@)[k as int]
                                    == batch@[k as int]@);
                                if all.len() > 100 {
                                    assert(batch@[k as int]@ == all.subrange(0, 100)[k as int]);
                                }
                                assert(batch@[k as int]@ == all[k as int]);
                                let j = choose|j: int|
                                    0 <= j < m0.chunks.len() && (#[trigger] m0.chunks[j])
                                        == all[k as int] && m0.chunks[j].embedding is None;
                                self.storage.ids_unique();
                                assert forall|a: int, b: int|
                                    0 <= a < b < m0.chunks.len() implies (#[trigger] m0.chunks[a]).id
                                        != (#[trigger] m0.chunks[b]).id by {
                                    assert(self.model().chunks[a].id == m0.chunks[a].id);
                                    assert(self.model().chunks[b].id == m0.chunks[b].id);
                                }
                                assert(mprev.chunks[i].id == m0.chunks[i].id);
                                assert(m0.chunks[j].id == batch@[k as int].id);
                                if i != j {
                                    assert(m0.chunks[i].id != m0.chunks[j].id);
                                }
                                assert(i == j);
                                assert(m0.chunks[i].embedding is None);
                                crate::types::lemma_unembedded_distinct(
                                    m0.docs,
                                    m0.chunks,
                                    old(self).user(),
                                    old(self).agent(),
                                );
                                assert forall|a: int, b: int| 0 <= a < b < n implies (
                                #[trigger] batch@[a])@.id != (#[trigger] batch@[b])@.id by {
                                    assert(batch@.map_values(|c: MemoryChunk| c@)[a]
                                        == batch@[a]@);
                                    assert(batch@.map_values(|c: MemoryChunk| c@)[b]
                                        == batch@[b]@);
                                    if all.len() > 100 {
                                        assert(batch@[a]@ == all.subrange(0, 100)[a]);
                                        assert(batch@[b]@ == all.subrange(0, 100)[b]);
                                    }
                                    assert(batch@[a]@ == all[a]);
                                    assert(batch@[b]@ == all[b]);
                                }
                                if mprev.chunks[i].embedding is Some {
                                    let k2 = choose|k2: int|
                                        0 <= k2 < k && (#[trigger] batch@[k2])@.id
                                            == m0.chunks[i].id;
                                    assert(batch@[k2]@.id == batch@[k as int]@.id);
                                    assert(false);
                                }
                                let updated = ChunkModel {
                                    embedding: Some(v@),
                                    ..mprev.chunks[i]
                                };
                                assert(self.model().chunks == mprev.chunks.update(i, updated));
                                lemma_newly_embedded_update(m0.chunks, mprev.chunks, i, updated, 0);
                                assert forall|w: int|
                                    0 <= w < m0.chunks.len() && m0.chunks[w].embedding is None && (
                                    #[trigger] self.model().chunks[w]).embedding is Some implies
                                    exists|k2: int|
                                        0 <= k2 < k + 1 && (#[trigger] batch@[k2])@.id
                                            == m0.chunks[w].id by {
                                    if w == i {
                                        assert(batch@[k as int]@.id == m0.chunks[i].id);
                                    } else {
                                        assert(self.model().chunks[w] == mprev.chunks[w]);
                                    }
                                }
                                assert forall|w: int| 0 <= w < m0.chunks.len() implies {
                                    let a = #[trigger] m0.chunks[w];
                                    let b = #[trigger] self.model().chunks[w];
                                    &&& b.id == a.id
                                    &&& b.doc == a.doc
                                    &&& b.idx == a.idx
                                    &&& b.content == a.content
                                    &&& (a.embedding matches Some(e) ==> b.embedding == Some(e))
                                } by {
                                    if w != i {
                                        assert(self.model().chunks[w] == mprev.chunks[w]);
                                    }
                                }
                            }
                        },
                        Err(e) => {
                            let out = match e {
                                WorkspaceError::DimensionMismatch { expected, actual } => Err(
                                    WorkspaceError::DimensionMismatch { expected, actual },
                                ),
                                _ => Err(WorkspaceError::ChunkNotFound { id: batch[k].id }),
                            };
                            return out;
                        },
                    }
                },
                Err(_) => {
                    proof {
                        if old(self).has_provider() && old(self).provider_total() {
                            assert(false);
                        }
                    }
                },
            }
            k = k + 1;
        }
        Ok(count)
    }

    /// All file paths in scope.
    pub fn list_all(&self) -> (r: Result<Vec<String>, WorkspaceError>)
        requires
            self.inv(),
        ensures
            ({
                match r {
                    Ok(ps) => ps@.map_values(|p: String| p@) == crate::types::paths_in_scope(
                        self.model().docs,
                        self.user(),
                        self.agent(),
                    ),
                    Err(e) => e is BackendError,
                }
            }),
    {
        let user = self.user_id.clone();
        self.storage.list_all_paths(user.as_str(), self.agent_id)
    }
}

} // verus!

//! End-to-end tests of the engine: chunking, fusion, the in-memory backend,
//! and the workspace facade.

use agent_workspace::chunk::{chunk_document, ChunkConfig};
use agent_workspace::date::{ClockReading, Date};
use agent_workspace::embed::{EmbeddingProvider, MockEmbeddings};
use agent_workspace::search::{reciprocal_rank_fusion, RankedResult, Score, SearchConfig};
use agent_workspace::store::{InMemoryStore, StorageBackend};
use agent_workspace::types::WorkspaceError;
use agent_workspace::workspace::Workspace;

fn ws() -> Workspace<InMemoryStore, MockEmbeddings> {
    Workspace::new("user-1".to_string(), InMemoryStore::new())
}

fn ranked(chunk_id: u128, document_id: u128, chunk_index: usize, text: &str) -> RankedResult {
    RankedResult {
        chunk_id,
        document_id,
        chunk_index,
        path: format!("doc-{}.md", document_id),
        content: text.to_string(),
    }
}

// -- chunker --

#[test]
fn chunker_empty_content_yields_no_chunks() {
    let chunks = chunk_document("", ChunkConfig::default());
    assert!(chunks.is_empty());
}

#[test]
fn chunker_short_content_is_one_chunk() {
    let chunks = chunk_document("hello world", ChunkConfig::default());
    assert_eq!(chunks, vec!["hello world".to_string()]);
}

#[test]
fn chunker_splits_at_blank_lines_with_overlap() {
    let cfg = ChunkConfig { max_chunk_chars: 20, overlap_chars: 4, min_chunk_chars: 5 };
    let text = "aaaa bbbb\n\ncccc dddd\n\neeee ffff";
    let chunks = chunk_document(text, cfg);
    assert!(chunks.len() >= 2);
    for c in &chunks {
        assert!(!c.is_empty());
        assert!(c.chars().count() <= 20);
    }
    // deterministic
    assert_eq!(chunks, chunk_document(text, cfg));
}

#[test]
fn chunker_never_splits_multibyte_characters() {
    let cfg = ChunkConfig { max_chunk_chars: 7, overlap_chars: 2, min_chunk_chars: 3 };
    let text = "\u{e9}\u{e9}\u{e9}\u{e9}\u{e9}\u{e9}\u{e9}\u{e9}\u{e9}\u{e9}\u{e9}\u{e9}";
    let chunks = chunk_document(text, cfg);
    assert!(chunks.len() >= 2);
    for c in &chunks {
        assert!(c.chars().count() <= 7);
    }
}

// -- reciprocal rank fusion --

#[test]
fn rrf_fuses_exact_scores() {
    // lexical order [c1, c2, c3], vector order [c3, c1]
    let lex = vec![ranked(1, 10, 0, "one"), ranked(2, 10, 1, "two"), ranked(3, 11, 0, "three")];
    let vec_r = vec![ranked(3, 11, 0, "three"), ranked(1, 10, 0, "one")];
    let cfg = SearchConfig::default();
    let out = reciprocal_rank_fusion(&lex, &vec_r, &cfg);
    assert_eq!(out.len(), 3);
    // c1: 1/61 + 1/62; c3: 1/63 + 1/61; c2: 1/62
    assert_eq!(out[0].chunk_id, 1);
    assert_eq!(out[0].score, Score { num: 123, den: 3782 });
    assert_eq!(out[1].chunk_id, 3);
    assert_eq!(out[1].score, Score { num: 124, den: 3843 });
    assert_eq!(out[2].chunk_id, 2);
    assert_eq!(out[2].score, Score { num: 1, den: 62 });
    assert_eq!(out[0].lexical_rank, Some(1));
    assert_eq!(out[0].vector_rank, Some(2));
    assert_eq!(out[2].vector_rank, None);
}

#[test]
fn rrf_is_deterministic_and_breaks_ties_by_identity() {
    // two chunks with identical single-list ranks across runs
    let lex = vec![ranked(7, 2, 5, "a")];
    let vec_r = vec![ranked(9, 1, 3, "b")];
    let cfg = SearchConfig { vector_weight: 1, ..SearchConfig::default() };
    let once = reciprocal_rank_fusion(&lex, &vec_r, &cfg);
    let twice = reciprocal_rank_fusion(&lex, &vec_r, &cfg);
    assert_eq!(once.len(), twice.len());
    for (a, b) in once.iter().zip(twice.iter()) {
        assert_eq!(a.chunk_id, b.chunk_id);
        assert_eq!(a.score, b.score);
    }
    // equal scores (1/61 each): tie resolves by (document_id, chunk_index)
    assert_eq!(once[0].document_id, 1);
    assert_eq!(once[1].document_id, 2);
}

#[test]
fn rrf_honors_limit_and_min_score() {
    let lex = vec![ranked(1, 1, 0, "a"), ranked(2, 1, 1, "b"), ranked(3, 1, 2, "c")];
    let cfg = SearchConfig::default().with_limit(2);
    let out = reciprocal_rank_fusion(&lex, &vec![], &cfg);
    assert_eq!(out.len(), 2);

    let strict = SearchConfig {
        min_score: Score { num: 1, den: 61 },
        ..SearchConfig::default()
    };
    let out2 = reciprocal_rank_fusion(&lex, &vec![], &strict);
    // only rank 1 scores 1/61 >= 1/61
    assert_eq!(out2.len(), 1);
    assert_eq!(out2[0].chunk_id, 1);
}

// -- the in-memory backend --

#[test]
fn store_cascade_delete_removes_chunks() {
    let mut s = InMemoryStore::new();
    let doc = s.get_or_create_document_by_path("u", None, "x.md").unwrap();
    s.update_document(doc.id, "a b c").unwrap();
    s.insert_chunk(doc.id, 0, "a b c", None).unwrap();
    assert_eq!(s.get_chunks_without_embeddings("u", None, 1000).unwrap().len(), 1);
    s.delete_document_by_path("u", None, "x.md").unwrap();
    let left = s.get_chunks_without_embeddings("u", None, 1000).unwrap();
    assert!(left.iter().all(|c| c.document_id != doc.id));
    assert!(left.is_empty());
}

#[test]
fn store_enforces_embedding_dimension() {
    let mut s = InMemoryStore::new();
    let doc = s.get_or_create_document_by_path("u", None, "x.md").unwrap();
    s.insert_chunk(doc.id, 0, "first", Some(&vec![1, 2, 3])).unwrap();
    let err = s.insert_chunk(doc.id, 1, "second", Some(&vec![1, 2])).unwrap_err();
    assert!(matches!(err, WorkspaceError::DimensionMismatch { expected: 3, actual: 2 }));
}

#[test]
fn store_get_or_create_is_idempotent() {
    let mut s = InMemoryStore::new();
    let a = s.get_or_create_document_by_path("u", Some(7), "a.md").unwrap();
    let b = s.get_or_create_document_by_path("u", Some(7), "a.md").unwrap();
    assert_eq!(a.id, b.id);
    let c = s.get_or_create_document_by_path("u", None, "a.md").unwrap();
    assert_ne!(a.id, c.id); // different scope, different document
}

// -- the workspace facade --

#[test]
fn write_then_read_roundtrip() {
    let mut w = ws();
    w.write("notes/today.md", "remember the milk").unwrap();
    let doc = w.read("notes/today.md").unwrap();
    assert_eq!(doc.content, "remember the milk");
    assert_eq!(doc.path, "notes/today.md");
    // divergent spellings resolve to the same document
    let same = w.read("/notes//today.md/").unwrap();
    assert_eq!(same.id, doc.id);
}

#[test]
fn append_uses_newline_separator() {
    let mut w = ws();
    w.write("log.md", "a").unwrap();
    w.append("log.md", "b").unwrap();
    assert_eq!(w.read("log.md").unwrap().content, "a\nb");
    // appending to an empty document adds no separator
    w.write("empty.md", "").unwrap();
    w.append("empty.md", "b").unwrap();
    assert_eq!(w.read("empty.md").unwrap().content, "b");
}

#[test]
fn append_memory_uses_blank_line_separator() {
    let mut w = ws();
    w.append_memory("fact one").unwrap();
    w.append_memory("fact two").unwrap();
    assert_eq!(w.read("MEMORY.md").unwrap().content, "fact one\n\nfact two");
}

#[test]
fn exists_and_delete() {
    let mut w = ws();
    assert!(!w.file_exists("gone.md").unwrap());
    w.write("gone.md", "x").unwrap();
    assert!(w.file_exists("gone.md").unwrap());
    w.delete("gone.md").unwrap();
    assert!(!w.file_exists("gone.md").unwrap());
    assert!(matches!(
        w.delete("gone.md"),
        Err(WorkspaceError::DocumentNotFound { .. })
    ));
}

#[test]
fn empty_path_is_invalid() {
    let mut w = ws();
    assert!(matches!(w.write("  / ", "x"), Err(WorkspaceError::InvalidPath { .. })));
    assert!(matches!(w.read(""), Err(WorkspaceError::InvalidPath { .. })));
}

#[test]
fn listing_synthesizes_directories() {
    let mut w = ws();
    w.write("notes/a.md", "alpha").unwrap();
    w.write("notes/b.md", "beta").unwrap();
    w.write("top.md", "t").unwrap();
    w.write("notes/sub/deep.md", "d").unwrap();

    let root = w.list("").unwrap();
    let names: Vec<_> = root.iter().map(|e| (e.name.clone(), e.is_directory)).collect();
    assert_eq!(names, vec![("notes".to_string(), true), ("top.md".to_string(), false)]);

    let notes = w.list("notes/").unwrap();
    let names: Vec<_> = notes.iter().map(|e| (e.name.clone(), e.is_directory)).collect();
    assert_eq!(
        names,
        vec![
            ("a.md".to_string(), false),
            ("b.md".to_string(), false),
            ("sub".to_string(), true),
        ],
    );
    assert_eq!(notes[0].path, "notes/a.md");

    let all = w.list_all().unwrap();
    assert_eq!(all.len(), 4);
}

#[test]
fn seed_creates_ten_files_once() {
    let mut w = ws();
    assert_eq!(w.seed_if_empty().unwrap(), 10);
    assert!(w.read("MEMORY.md").unwrap().content.starts_with("# Memory\n"));
    assert!(w.file_exists("README.md").unwrap());
    assert!(w.file_exists("HEARTBEAT.md").unwrap());
    // second call creates nothing and overwrites nothing
    let before = w.read("MEMORY.md").unwrap().content;
    assert_eq!(w.seed_if_empty().unwrap(), 0);
    assert_eq!(w.read("MEMORY.md").unwrap().content, before);
}

#[test]
fn heartbeat_falls_back_to_template() {
    let mut w = ws();
    let fallback = w.heartbeat_checklist().unwrap().unwrap();
    assert!(fallback.contains("# HEARTBEAT.md"));
    // the fallback is never persisted
    assert!(!w.file_exists("HEARTBEAT.md").unwrap());
    w.write("HEARTBEAT.md", "- check the mail").unwrap();
    assert_eq!(w.heartbeat_checklist().unwrap().unwrap(), "- check the mail");
}

#[test]
fn daily_log_lines_are_time_stamped() {
    let mut w = ws();
    let noon = ClockReading { year: 2024, month: 7, day: 1, hour: 12, minute: 34, second: 56 };
    w.append_daily_log_at(noon, "hello").unwrap();
    assert_eq!(w.read("daily/2024-07-01.md").unwrap().content, "[12:34:56] hello");
    let later = ClockReading { year: 2024, month: 7, day: 1, hour: 12, minute: 35, second: 0 };
    w.append_daily_log_at(later, "world").unwrap();
    assert_eq!(
        w.read("daily/2024-07-01.md").unwrap().content,
        "[12:34:56] hello\n[12:35:00] world",
    );
}

#[test]
fn daily_log_is_created_on_read() {
    let mut w = ws();
    let d = Date { year: 2024, month: 3, day: 1 };
    let doc = w.daily_log(d).unwrap();
    assert_eq!(doc.path, "daily/2024-03-01.md");
    assert_eq!(doc.content, "");
    assert!(w.file_exists("daily/2024-03-01.md").unwrap());
}

#[test]
fn system_prompt_composes_sections_in_order() {
    let mut w = ws();
    w.write("AGENTS.md", "be kind").unwrap();
    w.write("SOUL.md", "stay curious").unwrap();
    let today = Date { year: 2024, month: 7, day: 2 };
    let prompt = w.system_prompt_at(today).unwrap();
    assert_eq!(prompt, "## Agent Instructions\n\nbe kind\n\n---\n\n## Core Values\n\nstay curious");

    let noon = ClockReading { year: 2024, month: 7, day: 2, hour: 9, minute: 0, second: 0 };
    w.append_daily_log_at(noon, "stand-up").unwrap();
    let prompt = w.system_prompt_at(today).unwrap();
    assert!(prompt.ends_with("## Today's Notes\n\n[09:00:00] stand-up"));
    // yesterday's log was created empty, so it contributes no section
    assert!(!prompt.contains("Yesterday"));
}

#[test]
fn lexical_search_ranks_by_occurrences() {
    let mut w = ws();
    w.write("notes/a.md", "fox fox and another fox").unwrap();
    w.write("notes/b.md", "Foxes are clever.").unwrap();
    w.write("notes/c.md", "nothing relevant").unwrap();
    let results = w.search("fox", 10).unwrap();
    assert_eq!(results.len(), 2);
    assert_eq!(results[0].path, "notes/a.md");
    assert_eq!(results[1].path, "notes/b.md");
    assert!(results[0].score.num > 0);
    assert_eq!(results[0].lexical_rank, Some(1));
}

#[test]
fn search_respects_scope() {
    let mut w: Workspace<InMemoryStore, MockEmbeddings> =
        Workspace::new("alice".to_string(), InMemoryStore::new());
    w.write("shared.md", "the fox lives here").unwrap();
    // a workspace bound to another agent in the same store sees nothing
    let results = w.search("fox", 10).unwrap();
    assert_eq!(results.len(), 1);
    let mut other: Workspace<InMemoryStore, MockEmbeddings> =
        Workspace::new("bob".to_string(), InMemoryStore::new());
    other.write("decoy.md", "no foxes").unwrap();
    let none = other.search("grapes", 10).unwrap();
    assert!(none.is_empty());
}

#[test]
fn semantic_search_with_mock_embeddings() {
    let mut w: Workspace<InMemoryStore, MockEmbeddings> =
        Workspace::new("u".to_string(), InMemoryStore::new()).with_embeddings(MockEmbeddings::new(8));
    w.write("a.md", "alpha text").unwrap();
    w.write("b.md", "totally different words").unwrap();
    let results = w.search("alpha text", 10).unwrap();
    assert!(!results.is_empty());
    // the identical text matches lexically and semantically
    assert_eq!(results[0].path, "a.md");
    assert!(results[0].vector_rank.is_some());
    // no unembedded chunks remain, so backfill has nothing to do
    assert_eq!(w.backfill_embeddings().unwrap(), 0);
}

#[test]
fn mock_embeddings_are_deterministic_and_fixed_dim() {
    let p = MockEmbeddings::new(5);
    let a = p.embed("same input").unwrap();
    let b = p.embed("same input").unwrap();
    assert_eq!(a.len(), 5);
    assert_eq!(a, b);
}

#[test]
fn clock_based_operations_run() {
    let mut w = ws();
    let doc = w.today_log().unwrap();
    assert!(doc.path.starts_with("daily/"));
    w.append_daily_log("checking in").unwrap();
    let prompt = w.system_prompt().unwrap();
    assert!(prompt.contains("checking in"));
}

#[test]
fn listing_merges_file_and_directory_with_one_name() {
    let mut w = ws();
    w.write("a", "file at a").unwrap();
    w.write("a/x.md", "below a").unwrap();
    let root = w.list("").unwrap();
    // one entry per distinct first segment; a deeper path makes it a directory
    assert_eq!(root.len(), 1);
    assert_eq!(root[0].name, "a");
    assert!(root[0].is_directory);
}

#[test]
fn daily_paths_cross_month_and_leap_boundaries() {
    let mut w = ws();
    let leap = Date { year: 2024, month: 2, day: 29 };
    assert_eq!(w.daily_log(leap).unwrap().path, "daily/2024-02-29.md");
    let padded = Date { year: 987, month: 11, day: 3 };
    assert_eq!(w.daily_log(padded).unwrap().path, "daily/0987-11-03.md");
}

#[test]
fn write_overwrites_and_reindexes() {
    let mut w = ws();
    w.write("doc.md", "old words entirely").unwrap();
    w.write("doc.md", "new text").unwrap();
    assert_eq!(w.read("doc.md").unwrap().content, "new text");
    // the stale chunk set is gone: searching the old words finds nothing
    assert!(w.search("entirely", 10).unwrap().is_empty());
    assert_eq!(w.search("new", 10).unwrap().len(), 1);
}

#[test]
fn mock_embedding_components_stay_in_range() {
    let p = MockEmbeddings::new(16);
    let v = p.embed("any text at all").unwrap();
    assert_eq!(v.len(), 16);
    assert!(v.iter().all(|c| (-1000000..=1000000).contains(c)));
}

#[test]
fn backfill_embeds_chunks_added_without_vectors() {
    // a store pre-filled with an unembedded chunk, then handed to a
    // workspace with a provider
    let mut s = InMemoryStore::new();
    let doc = s.get_or_create_document_by_path("u", None, "x.md").unwrap();
    s.update_document(doc.id, "plain words").unwrap();
    s.insert_chunk(doc.id, 0, "plain words", None).unwrap();
    let mut w: Workspace<InMemoryStore, MockEmbeddings> =
        Workspace::new("u".to_string(), s).with_embeddings(MockEmbeddings::new(4));
    assert_eq!(w.backfill_embeddings().unwrap(), 1);
    // a second pass finds nothing left to embed
    assert_eq!(w.backfill_embeddings().unwrap(), 0);
}

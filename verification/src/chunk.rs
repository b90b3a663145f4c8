//! Splitting document content into bounded, overlap-preserving text chunks.
//!
//! Chunks are the unit of retrieval.  The splitter prefers paragraph
//! boundaries (a blank line), then line boundaries, and only then hard-cuts
//! at the size limit; successive chunks overlap by a configurable number of
//! characters to preserve context.  Working on characters rather than bytes
//! means a cut can never land inside a multi-byte encoding.

use vstd::prelude::*;

use crate::text::{chars_vec, string_from_chars, subvec};

verus! {

/// Chunker configuration, all sizes in characters.
#[derive(Clone, Copy)]
pub struct ChunkConfig {
    /// Hard upper bound on the size of a chunk.
    pub max_chunk_chars: usize,
    /// How many trailing characters of a chunk reappear at the start of the
    /// next one.
    pub overlap_chars: usize,
    /// No break is taken before this many characters of a chunk.
    pub min_chunk_chars: usize,
}

impl ChunkConfig {
    /// A usable configuration: chunks are non-empty, bounded, and the
    /// overlap leaves room for progress.
    pub open spec fn wf(self) -> bool {
        &&& 1 <= self.min_chunk_chars <= self.max_chunk_chars
        &&& self.overlap_chars < self.max_chunk_chars
    }
}

impl Default for ChunkConfig {
    /// Defaults sized so chunks stay comfortably below a typical embedding
    /// input window while remaining semantically coherent.
    fn default() -> (r: Self)
        ensures
            r.max_chunk_chars == 1000,
            r.overlap_chars == 100,
            r.min_chunk_chars == 200,
            r.wf(),
    {
        ChunkConfig { max_chunk_chars: 1000, overlap_chars: 100, min_chunk_chars: 200 }
    }
}

/// The largest position `q` in `[lo, hi]` that follows a blank line, that
/// is, with `s[q-2] == s[q-1] == '\n'`.
pub open spec fn last_blank_cut(s: Seq<char>, lo: int, hi: int) -> Option<int>
    decreases hi - lo + 1,
{
    if hi < lo {
        None
    } else if hi >= 2 && s[hi - 1] == '\n' && s[hi - 2] == '\n' {
        Some(hi)
    } else {
        last_blank_cut(s, lo, hi - 1)
    }
}

/// The largest position `q` in `[lo, hi]` that follows a line break.
pub open spec fn last_line_cut(s: Seq<char>, lo: int, hi: int) -> Option<int>
    decreases hi - lo + 1,
{
    if hi < lo {
        None
    } else if hi >= 1 && s[hi - 1] == '\n' {
        Some(hi)
    } else {
        last_line_cut(s, lo, hi - 1)
    }
}

/// Where the chunk starting at `p` ends, when the rest of `s` does not fit
/// in one chunk: the best paragraph break, else the best line break, else a
/// hard cut at the size limit.
pub open spec fn cut_at(s: Seq<char>, p: int, cfg: ChunkConfig) -> int {
    let lo = p + cfg.min_chunk_chars;
    let hi = p + cfg.max_chunk_chars;
    match last_blank_cut(s, lo, hi) {
        Some(q) => q,
        None => match last_line_cut(s, lo, hi) {
            Some(q) => q,
            None => hi,
        },
    }
}

/// Where the next chunk starts: `overlap` characters before the cut, but
/// always strictly after `p` so that splitting makes progress, and never
/// past the end of `s`.
pub open spec fn next_start(s: Seq<char>, p: int, cut: int, cfg: ChunkConfig) -> int {
    let raw = if cut - cfg.overlap_chars > p {
        cut - cfg.overlap_chars
    } else {
        p + 1
    };
    if raw > s.len() {
        s.len() as int
    } else {
        raw
    }
}

/// The chunks of `s` from position `p` on.
pub open spec fn chunks_from(s: Seq<char>, p: int, cfg: ChunkConfig) -> Seq<Seq<char>>
    decreases s.len() - p,
{
    if p < 0 || p >= s.len() {
        Seq::empty()
    } else if s.len() - p <= cfg.max_chunk_chars {
        seq![s.subrange(p, s.len() as int)]
    } else {
        seq![s.subrange(p, cut_at(s, p, cfg))] + chunks_from(
            s,
            next_start(s, p, cut_at(s, p, cfg), cfg),
            cfg,
        )
    }
}

/// The ordered chunk list for a document's content.  Empty content yields an
/// empty list, and the same input always yields the same output.
pub open spec fn chunk_document_spec(s: Seq<char>, cfg: ChunkConfig) -> Seq<Seq<char>> {
    chunks_from(s, 0, cfg)
}

fn find_blank_cut(cs: &Vec<char>, lo: usize, hi: usize) -> (r: Option<usize>)
    requires
        1 <= lo,
        hi < cs@.len(),
    ensures
        match r {
            Some(q) => last_blank_cut(cs@, lo as int, hi as int) == Some(q as int),
            None => last_blank_cut(cs@, lo as int, hi as int) is None,
        },
{
    let mut q = hi;
    loop
        invariant
            1 <= lo,
            q <= hi < cs@.len(),
            last_blank_cut(cs@, lo as int, hi as int) == last_blank_cut(cs@, lo as int, q as int),
        decreases q,
    {
        if q < lo {
            return None;
        }
        if q >= 2 && cs[q - 1] == '\n' && cs[q - 2] == '\n' {
            return Some(q);
        }
        q = q - 1;
    }
}

fn find_line_cut(cs: &Vec<char>, lo: usize, hi: usize) -> (r: Option<usize>)
    requires
        1 <= lo,
        hi < cs@.len(),
    ensures
        match r {
            Some(q) => last_line_cut(cs@, lo as int, hi as int) == Some(q as int),
            None => last_line_cut(cs@, lo as int, hi as int) is None,
        },
{
    let mut q = hi;
    loop
        invariant
            1 <= lo,
            q <= hi < cs@.len(),
            last_line_cut(cs@, lo as int, hi as int) == last_line_cut(cs@, lo as int, q as int),
        decreases q,
    {
        if q < lo {
            return None;
        }
        if q >= 1 && cs[q - 1] == '\n' {
            return Some(q);
        }
        q = q - 1;
    }
}

/// Split markdown content into an ordered list of chunks.
pub fn chunk_document(content: &str, cfg: ChunkConfig) -> (r: Vec<String>)
    requires
        cfg.wf(),
    ensures
        r.deep_view() == chunk_document_spec(content@, cfg),
{
    let cs = chars_vec(content);
    let n = cs.len();
    let ghost s = cs@;
    let mut out: Vec<String> = Vec::new();
    let mut p: usize = 0;
    while p < n
        invariant
            cfg.wf(),
            cs@ == s,
            s == content@,
            n == s.len(),
            p <= n,
            chunk_document_spec(content@, cfg) == out.deep_view() + chunks_from(s, p as int, cfg),
        decreases n - p,
    {
        let ghost prev = out.deep_view();
        if n - p <= cfg.max_chunk_chars {
            let piece_chars = subvec(&cs, p, n);
            let piece = string_from_chars(&piece_chars);
            out.push(piece);
            proof {
                assert(out.deep_view() =~= prev.push(s.subrange(p as int, n as int)));
                assert(out.deep_view() + chunks_from(s, n as int, cfg) =~= prev + chunks_from(
                    s,
                    p as int,
                    cfg,
                ));
            }
            p = n;
        } else {
            let lo = p + cfg.min_chunk_chars;
            let hi = p + cfg.max_chunk_chars;
            let cut = match find_blank_cut(&cs, lo, hi) {
                Some(q) => q,
                None => match find_line_cut(&cs, lo, hi) {
                    Some(q) => q,
                    None => hi,
                },
            };
            assert(cut as int == cut_at(s, p as int, cfg));
            proof {
                lemma_cut_range(s, p as int, cfg);
            }
            let piece_chars = subvec(&cs, p, cut);
            let piece = string_from_chars(&piece_chars);
            out.push(piece);
            let next = if cut > p + cfg.overlap_chars {
                cut - cfg.overlap_chars
            } else {
                p + 1
            };
            proof {
                assert(next as int == next_start(s, p as int, cut as int, cfg));
                assert(out.deep_view() =~= prev.push(s.subrange(p as int, cut as int)));
                assert(out.deep_view() + chunks_from(s, next as int, cfg) =~= prev + chunks_from(
                    s,
                    p as int,
                    cfg,
                ));
            }
            p = next;
        }
    }
    proof {
        assert(chunks_from(s, p as int, cfg) =~= Seq::<Seq<char>>::empty());
        assert(out.deep_view() =~= chunk_document_spec(content@, cfg));
    }
    out
}

// ---------------------------------------------------------------------------
// Shape of the chunk list
// ---------------------------------------------------------------------------

proof fn lemma_blank_cut_range(s: Seq<char>, lo: int, hi: int)
    ensures
        last_blank_cut(s, lo, hi) matches Some(q) ==> lo <= q <= hi,
    decreases hi - lo + 1,
{
    if hi >= lo && !(hi >= 2 && s[hi - 1] == '\n' && s[hi - 2] == '\n') {
        lemma_blank_cut_range(s, lo, hi - 1);
    }
}

proof fn lemma_line_cut_range(s: Seq<char>, lo: int, hi: int)
    ensures
        last_line_cut(s, lo, hi) matches Some(q) ==> lo <= q <= hi,
    decreases hi - lo + 1,
{
    if hi >= lo && !(hi >= 1 && s[hi - 1] == '\n') {
        lemma_line_cut_range(s, lo, hi - 1);
    }
}

/// The cut for an over-long rest always lands between the minimum and the
/// maximum chunk size.
pub proof fn lemma_cut_range(s: Seq<char>, p: int, cfg: ChunkConfig)
    requires
        cfg.wf(),
    ensures
        p + cfg.min_chunk_chars <= cut_at(s, p, cfg) <= p + cfg.max_chunk_chars,
{
    lemma_blank_cut_range(s, p + cfg.min_chunk_chars, p + cfg.max_chunk_chars);
    lemma_line_cut_range(s, p + cfg.min_chunk_chars, p + cfg.max_chunk_chars);
}

/// Every chunk is non-empty and no longer than the configured maximum.
pub proof fn lemma_chunks_bounded(s: Seq<char>, p: int, cfg: ChunkConfig)
    requires
        cfg.wf(),
    ensures
        forall|i: int|
            0 <= i < chunks_from(s, p, cfg).len() ==> 1 <= (#[trigger] chunks_from(s, p, cfg)[i]).len()
                <= cfg.max_chunk_chars,
    decreases s.len() - p,
{
    if p < 0 || p >= s.len() {
    } else if s.len() - p <= cfg.max_chunk_chars {
    } else {
        lemma_cut_range(s, p, cfg);
        let next = next_start(s, p, cut_at(s, p, cfg), cfg);
        lemma_chunks_bounded(s, next, cfg);
        let rest = chunks_from(s, next, cfg);
        let all = chunks_from(s, p, cfg);
        assert forall|i: int| 0 <= i < all.len() implies 1 <= (#[trigger] all[i]).len()
            <= cfg.max_chunk_chars by {
            if i > 0 {
                assert(all[i] == rest[i - 1]);
            }
        }
    }
}

} // verus!

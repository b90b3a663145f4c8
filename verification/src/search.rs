//! Hybrid search: reciprocal rank fusion of a lexical and a vector ranking.
//!
//! Given an ordered lexical ranking `L` and an ordered vector ranking `V`
//! over a shared corpus of chunks, every chunk appearing in either list gets
//! the score
//!
//! ```text
//! score(c) = lexical_weight / (rrf_k + rank_L(c)) + vector_weight / (rrf_k + rank_V(c))
//! ```
//!
//! with 1-based ranks and a missing rank contributing zero.  Scores are exact
//! rationals ([`Score`]), compared by cross-multiplication, so fusion is
//! fully deterministic: chunks below `min_score` are dropped, the rest are
//! sorted by descending score with ties broken by `(document_id,
//! chunk_index)`, and the top `limit` are returned.

use vstd::prelude::*;

verus! {

/// The largest ranking either ranker may hand to fusion.  Keeping ranks
/// bounded keeps every score comparison inside `u128`.
pub const MAX_RANK_POOL: usize = 1048576;

/// Cap on `rrf_k` and on the two weights, for the same reason.
pub const MAX_WEIGHT: u32 = 1048576;

/// An exact non-negative rational score.
#[derive(Clone, Copy, PartialEq, Eq, Structural, Debug)]
pub struct Score {
    pub num: u128,
    pub den: u128,
}

impl Score {
    /// Bounds under which comparisons cannot overflow: these hold of every
    /// score fusion produces.
    pub open spec fn wf(self) -> bool {
        &&& 1 <= self.den <= 0x40000000000u128
        &&& self.num <= 0x40000000000u128
    }

    /// `self < other` as rationals.
    pub open spec fn spec_lt(self, other: Score) -> bool {
        self.num * other.den < other.num * self.den
    }

    /// `self == other` as rationals.
    pub open spec fn spec_eq_val(self, other: Score) -> bool {
        self.num * other.den == other.num * self.den
    }

    /// The zero score.
    pub fn zero() -> (r: Score)
        ensures
            r == (Score { num: 0, den: 1 }),
            r.wf(),
    {
        Score { num: 0, den: 1 }
    }

    /// Exact comparison by cross-multiplication.
    pub fn lt(&self, other: &Score) -> (r: bool)
        requires
            self.wf(),
            other.wf(),
        ensures
            r == self.spec_lt(*other),
    {
        proof {
            lemma_cross_bound(self.num, other.den);
            lemma_cross_bound(other.num, self.den);
        }
        self.num * other.den < other.num * self.den
    }
}

/// The product of two in-bound score components stays far below `u128`.
proof fn lemma_cross_bound(a: u128, b: u128)
    requires
        a <= 0x40000000000u128,
        b <= 0x40000000000u128,
    ensures
        a * b <= 0x40000000000u128 * 0x40000000000u128,
{
    vstd::arithmetic::mul::lemma_mul_upper_bound(
        a as int,
        0x40000000000int,
        b as int,
        0x40000000000int,
    );
}

/// Search configuration.
#[derive(Clone, Copy)]
pub struct SearchConfig {
    /// Size of the returned result set.
    pub limit: usize,
    /// The shared RRF constant: larger values flatten the contribution of
    /// deep ranks.
    pub rrf_k: u32,
    /// Weight of the lexical ranking.
    pub lexical_weight: u32,
    /// Weight of the vector ranking.
    pub vector_weight: u32,
    /// Results scoring below this are dropped.
    pub min_score: Score,
}

impl SearchConfig {
    /// Bounds under which every fused score stays comparable in `u128`.
    pub open spec fn wf(self) -> bool {
        &&& 1 <= self.rrf_k <= MAX_WEIGHT
        &&& self.lexical_weight <= MAX_WEIGHT
        &&& self.vector_weight <= MAX_WEIGHT
        &&& self.min_score.wf()
    }

    /// The same configuration with another result-set size.
    pub fn with_limit(self, limit: usize) -> (r: Self)
        ensures
            r.limit == limit,
            r.rrf_k == self.rrf_k,
            r.lexical_weight == self.lexical_weight,
            r.vector_weight == self.vector_weight,
            r.min_score == self.min_score,
    {
        SearchConfig { limit, ..self }
    }
}

impl Default for SearchConfig {
    /// Ten results, `rrf_k` of 60, both rankings at weight one, no score
    /// floor.
    fn default() -> (r: Self)
        ensures
            r.limit == 10,
            r.rrf_k == 60,
            r.lexical_weight == 1,
            r.vector_weight == 1,
            r.min_score == (Score { num: 0, den: 1 }),
            r.wf(),
    {
        SearchConfig {
            limit: 10,
            rrf_k: 60,
            lexical_weight: 1,
            vector_weight: 1,
            min_score: Score { num: 0, den: 1 },
        }
    }
}

/// One entry of a ranking handed to fusion.
pub struct RankedResult {
    pub chunk_id: u128,
    pub document_id: u128,
    pub chunk_index: usize,
    pub path: String,
    pub content: String,
}

/// The mathematical view of a [`RankedResult`].
pub struct RankedModel {
    pub chunk_id: u128,
    pub document_id: u128,
    pub chunk_index: usize,
    pub path: Seq<char>,
    pub content: Seq<char>,
}

impl View for RankedResult {
    type V = RankedModel;

    open spec fn view(&self) -> RankedModel {
        RankedModel {
            chunk_id: self.chunk_id,
            document_id: self.document_id,
            chunk_index: self.chunk_index,
            path: self.path@,
            content: self.content@,
        }
    }
}

/// One fused search result: the chunk, its owning document's path, the exact
/// score, and the 1-based component ranks.
pub struct SearchResult {
    pub chunk_id: u128,
    pub document_id: u128,
    pub chunk_index: usize,
    pub path: String,
    pub content: String,
    pub score: Score,
    pub lexical_rank: Option<usize>,
    pub vector_rank: Option<usize>,
}

/// The mathematical view of a [`SearchResult`].
pub struct SearchResultModel {
    pub chunk_id: u128,
    pub document_id: u128,
    pub chunk_index: usize,
    pub path: Seq<char>,
    pub content: Seq<char>,
    pub score: Score,
    pub lexical_rank: Option<usize>,
    pub vector_rank: Option<usize>,
}

impl View for SearchResult {
    type V = SearchResultModel;

    open spec fn view(&self) -> SearchResultModel {
        SearchResultModel {
            chunk_id: self.chunk_id,
            document_id: self.document_id,
            chunk_index: self.chunk_index,
            path: self.path@,
            content: self.content@,
            score: self.score,
            lexical_rank: self.lexical_rank,
            vector_rank: self.vector_rank,
        }
    }
}

/// The views of a ranking list.
pub open spec fn ranked_views(l: Seq<RankedResult>) -> Seq<RankedModel> {
    l.map_values(|e: RankedResult| e@)
}

/// The views of a result list.
pub open spec fn result_views(l: Seq<SearchResult>) -> Seq<SearchResultModel> {
    l.map_values(|e: SearchResult| e@)
}

// ---------------------------------------------------------------------------
// Fusion, specified
// ---------------------------------------------------------------------------

/// The 0-based position of chunk `id` in a ranking, scanning from `i`.
pub open spec fn rank_from(l: Seq<RankedModel>, id: u128, i: int) -> Option<int>
    decreases l.len() + 1 - i,
{
    if i < 0 || i >= l.len() {
        None
    } else if l[i].chunk_id == id {
        Some(i)
    } else {
        rank_from(l, id, i + 1)
    }
}

/// The 0-based rank of chunk `id` in a ranking, if present.
pub open spec fn rank_in(l: Seq<RankedModel>, id: u128) -> Option<int> {
    rank_from(l, id, 0)
}

/// The exact RRF score for a chunk with the given 0-based component ranks.
pub open spec fn score_of(cfg: SearchConfig, lrank: Option<int>, vrank: Option<int>) -> Score {
    match (lrank, vrank) {
        (Some(i), Some(j)) => {
            let a = cfg.rrf_k + i + 1;
            let b = cfg.rrf_k + j + 1;
            Score {
                num: (cfg.lexical_weight * b + cfg.vector_weight * a) as u128,
                den: (a * b) as u128,
            }
        },
        (Some(i), None) => Score {
            num: cfg.lexical_weight as u128,
            den: (cfg.rrf_k + i + 1) as u128,
        },
        (None, Some(j)) => Score {
            num: cfg.vector_weight as u128,
            den: (cfg.rrf_k + j + 1) as u128,
        },
        (None, None) => Score { num: 0, den: 1 },
    }
}

/// The fused entry for the lexical hit at position `i`.
pub open spec fn entry_of_lex(
    l: Seq<RankedModel>,
    v: Seq<RankedModel>,
    cfg: SearchConfig,
    i: int,
) -> SearchResultModel {
    let vr = rank_in(v, l[i].chunk_id);
    SearchResultModel {
        chunk_id: l[i].chunk_id,
        document_id: l[i].document_id,
        chunk_index: l[i].chunk_index,
        path: l[i].path,
        content: l[i].content,
        score: score_of(cfg, Some(i), vr),
        lexical_rank: Some((i + 1) as usize),
        vector_rank: match vr {
            Some(j) => Some((j + 1) as usize),
            None => None,
        },
    }
}

/// The fused entry for the vector hit at position `j`, for chunks absent
/// from the lexical ranking.
pub open spec fn entry_of_vec(
    l: Seq<RankedModel>,
    v: Seq<RankedModel>,
    cfg: SearchConfig,
    j: int,
) -> SearchResultModel {
    SearchResultModel {
        chunk_id: v[j].chunk_id,
        document_id: v[j].document_id,
        chunk_index: v[j].chunk_index,
        path: v[j].path,
        content: v[j].content,
        score: score_of(cfg, None, Some(j)),
        lexical_rank: None,
        vector_rank: Some((j + 1) as usize),
    }
}

/// The fused entries of the vector ranking from position `j` on, skipping
/// chunks the lexical ranking already contributed.
pub open spec fn vec_extras(
    l: Seq<RankedModel>,
    v: Seq<RankedModel>,
    cfg: SearchConfig,
    j: int,
) -> Seq<SearchResultModel>
    decreases v.len() + 1 - j,
{
    if j < 0 || j >= v.len() {
        Seq::empty()
    } else if rank_in(l, v[j].chunk_id) is None {
        seq![entry_of_vec(l, v, cfg, j)] + vec_extras(l, v, cfg, j + 1)
    } else {
        vec_extras(l, v, cfg, j + 1)
    }
}

/// Every chunk appearing in either ranking, scored.
pub open spec fn fuse_entries(l: Seq<RankedModel>, v: Seq<RankedModel>, cfg: SearchConfig) -> Seq<
    SearchResultModel,
> {
    Seq::new(l.len(), |i: int| entry_of_lex(l, v, cfg, i)) + vec_extras(l, v, cfg, 0)
}

/// The entries at or above the score floor, from position `i` on.
pub open spec fn keep_min(s: Seq<SearchResultModel>, min: Score, i: int) -> Seq<SearchResultModel>
    decreases s.len() + 1 - i,
{
    if i < 0 || i >= s.len() {
        Seq::empty()
    } else if s[i].score.spec_lt(min) {
        keep_min(s, min, i + 1)
    } else {
        seq![s[i]] + keep_min(s, min, i + 1)
    }
}

/// `a` comes strictly before `b` in fused order: higher score first, ties by
/// `(document_id, chunk_index)`.
pub open spec fn result_before(a: SearchResultModel, b: SearchResultModel) -> bool {
    ||| b.score.spec_lt(a.score)
    ||| (a.score.spec_eq_val(b.score) && (a.document_id < b.document_id || (a.document_id
        == b.document_id && a.chunk_index < b.chunk_index)))
}

/// Insert `x` into a descending-sorted list, before the first entry it
/// precedes.
pub open spec fn insert_desc(x: SearchResultModel, s: Seq<SearchResultModel>) -> Seq<
    SearchResultModel,
>
    decreases s.len(),
{
    if s.len() == 0 {
        seq![x]
    } else if result_before(x, s.first()) {
        seq![x] + s
    } else {
        seq![s.first()] + insert_desc(x, s.drop_first())
    }
}

/// Insertion sort of the first `j` entries, in arrival order.
pub open spec fn sort_pref(s: Seq<SearchResultModel>, j: int) -> Seq<SearchResultModel>
    decreases j,
{
    if j <= 0 {
        Seq::empty()
    } else {
        insert_desc(s[j - 1], sort_pref(s, j - 1))
    }
}

/// The fused entries, sorted descending with deterministic tie-breaks.
pub open spec fn sort_desc(s: Seq<SearchResultModel>) -> Seq<SearchResultModel> {
    sort_pref(s, s.len() as int)
}

/// The first `k` entries of `s`.
pub open spec fn take_limit(s: Seq<SearchResultModel>, k: int) -> Seq<SearchResultModel> {
    if s.len() <= k {
        s
    } else {
        s.subrange(0, k)
    }
}

/// What reciprocal rank fusion returns: every chunk of either ranking,
/// scored, floored at `min_score`, sorted descending by score with ties
/// broken by `(document_id, chunk_index)`, cut to `limit`.
pub open spec fn rrf_spec(l: Seq<RankedModel>, v: Seq<RankedModel>, cfg: SearchConfig) -> Seq<
    SearchResultModel,
> {
    take_limit(
        sort_desc(keep_min(fuse_entries(l, v, cfg), cfg.min_score, 0)),
        cfg.limit as int,
    )
}

// ---------------------------------------------------------------------------
// Fusion, executed
// ---------------------------------------------------------------------------

/// `Some(i as int)` for `Some(i)`, `None` for `None`.
pub open spec fn opt_int(o: Option<usize>) -> Option<int> {
    match o {
        Some(i) => Some(i as int),
        None => None,
    }
}

/// The 0-based position of chunk `id` in a ranking.
fn find_rank(l: &Vec<RankedResult>, id: u128) -> (r: Option<usize>)
    ensures
        opt_int(r) == rank_in(ranked_views(l@), id),
{
    let ghost lv = ranked_views(l@);
    let n = l.len();
    let mut i: usize = 0;
    while i < n
        invariant
            i <= n,
            n == l@.len(),
            lv == ranked_views(l@),
            lv.len() == n,
            rank_in(lv, id) == rank_from(lv, id, i as int),
        decreases n - i,
    {
        if l[i].chunk_id == id {
            return Some(i);
        }
        i = i + 1;
    }
    None
}

fn score_of_exec(cfg: &SearchConfig, lrank: Option<usize>, vrank: Option<usize>) -> (r: Score)
    requires
        cfg.wf(),
        lrank matches Some(i) ==> i < MAX_RANK_POOL,
        vrank matches Some(j) ==> j < MAX_RANK_POOL,
    ensures
        r == score_of(*cfg, opt_int(lrank), opt_int(vrank)),
        r.wf(),
{
    match (lrank, vrank) {
        (Some(i), Some(j)) => {
            let lw = cfg.lexical_weight as u128;
            let vw = cfg.vector_weight as u128;
            let a: u128 = cfg.rrf_k as u128 + i as u128 + 1;
            let b: u128 = cfg.rrf_k as u128 + j as u128 + 1;
            assert(lw * b <= 0x20000000000u128 && vw * a <= 0x20000000000u128 && 1 <= a * b
                <= 0x40000000000u128) by (nonlinear_arith)
                requires
                    1 <= a <= 2097152,
                    1 <= b <= 2097152,
                    lw <= 1048576,
                    vw <= 1048576,
            ;
            let num = lw * b + vw * a;
            let den = a * b;
            Score { num, den }
        },
        (Some(i), None) => Score {
            num: cfg.lexical_weight as u128,
            den: cfg.rrf_k as u128 + i as u128 + 1,
        },
        (None, Some(j)) => Score {
            num: cfg.vector_weight as u128,
            den: cfg.rrf_k as u128 + j as u128 + 1,
        },
        (None, None) => Score { num: 0, den: 1 },
    }
}

/// Exact rational equality by cross-multiplication.
fn score_eq_exec(a: &Score, b: &Score) -> (r: bool)
    requires
        a.wf(),
        b.wf(),
    ensures
        r == a.spec_eq_val(*b),
{
    proof {
        lemma_cross_bound(a.num, b.den);
        lemma_cross_bound(b.num, a.den);
    }
    a.num * b.den == b.num * a.den
}

fn result_before_exec(a: &SearchResult, b: &SearchResult) -> (r: bool)
    requires
        a.score.wf(),
        b.score.wf(),
    ensures
        r == result_before(a@, b@),
{
    if b.score.lt(&a.score) {
        true
    } else if score_eq_exec(&a.score, &b.score) {
        a.document_id < b.document_id || (a.document_id == b.document_id && a.chunk_index
            < b.chunk_index)
    } else {
        false
    }
}

/// `insert_desc` inserts exactly at the first position whose entry `x`
/// precedes.
proof fn lemma_insert_desc_at(x: SearchResultModel, s: Seq<SearchResultModel>, pos: int)
    requires
        0 <= pos <= s.len(),
        forall|k: int| 0 <= k < pos ==> !result_before(x, #[trigger] s[k]),
        pos < s.len() ==> result_before(x, s[pos]),
    ensures
        insert_desc(x, s) == s.insert(pos, x),
    decreases s.len(),
{
    if s.len() == 0 {
        assert(insert_desc(x, s) =~= s.insert(pos, x));
    } else if pos == 0 {
        assert(result_before(x, s.first()));
        assert(insert_desc(x, s) =~= s.insert(0, x));
    } else {
        assert(!result_before(x, s[0]));
        lemma_insert_desc_at(x, s.drop_first(), pos - 1);
        assert(seq![s.first()] + s.drop_first().insert(pos - 1, x) =~= s.insert(pos, x));
    }
}

/// Fuse a lexical and a vector ranking into the final result list.
///
/// The result is a pure function of the two rankings and the configuration:
/// given fixed rankings, search output is fully determined.
pub fn reciprocal_rank_fusion(
    lexical: &Vec<RankedResult>,
    vector: &Vec<RankedResult>,
    config: &SearchConfig,
) -> (r: Vec<SearchResult>)
    requires
        config.wf(),
        lexical@.len() <= MAX_RANK_POOL,
        vector@.len() <= MAX_RANK_POOL,
    ensures
        result_views(r@) == rrf_spec(ranked_views(lexical@), ranked_views(vector@), *config),
        forall|i: int| 0 <= i < r@.len() ==> (#[trigger] r@[i]).score.wf(),
{
    let ghost lv = ranked_views(lexical@);
    let ghost vv = ranked_views(vector@);
    let ghost cfg = *config;

    // Score every chunk of the lexical ranking.
    let mut entries: Vec<SearchResult> = Vec::new();
    let nl = lexical.len();
    let mut i: usize = 0;
    while i < nl
        invariant
            i <= nl,
            nl == lexical@.len() <= MAX_RANK_POOL,
            vector@.len() <= MAX_RANK_POOL,
            cfg.wf(),
            cfg == *config,
            lv == ranked_views(lexical@),
            vv == ranked_views(vector@),
            result_views(entries@) =~= Seq::new(i as nat, |k: int| entry_of_lex(lv, vv, cfg, k)),
            forall|k: int| 0 <= k < entries@.len() ==> (#[trigger] entries@[k]).score.wf(),
        decreases nl - i,
    {
        let e = &lexical[i];
        let vrank = find_rank(vector, e.chunk_id);
        proof {
            if vrank matches Some(j) {
                lemma_rank_from_bounds(vv, e.chunk_id, 0);
            }
        }
        let score = score_of_exec(config, Some(i), vrank);
        let vector_rank = match vrank {
            Some(j) => Some(j + 1),
            None => None,
        };
        let ghost prev = entries@;
        entries.push(
            SearchResult {
                chunk_id: e.chunk_id,
                document_id: e.document_id,
                chunk_index: e.chunk_index,
                path: e.path.clone(),
                content: e.content.clone(),
                score,
                lexical_rank: Some(i + 1),
                vector_rank,
            },
        );
        proof {
            assert(lv[i as int] == lexical@[i as int]@);
            assert(entries@.last()@ == entry_of_lex(lv, vv, cfg, i as int));
            assert(result_views(entries@) =~= result_views(prev).push(
                entry_of_lex(lv, vv, cfg, i as int),
            ));
            assert(result_views(prev).push(entry_of_lex(lv, vv, cfg, i as int)) =~= Seq::new(
                (i + 1) as nat,
                |k: int| entry_of_lex(lv, vv, cfg, k),
            ));
        }
        i = i + 1;
    }

    // Add vector-only chunks.
    let ghost lexpart = Seq::new(lv.len(), |k: int| entry_of_lex(lv, vv, cfg, k));
    let nv = vector.len();
    let mut j: usize = 0;
    while j < nv
        invariant
            j <= nv,
            nv == vector@.len() <= MAX_RANK_POOL,
            lexical@.len() <= MAX_RANK_POOL,
            cfg.wf(),
            cfg == *config,
            lv == ranked_views(lexical@),
            vv == ranked_views(vector@),
            lexpart == Seq::new(lv.len(), |k: int| entry_of_lex(lv, vv, cfg, k)),
            result_views(entries@) + vec_extras(lv, vv, cfg, j as int) =~= lexpart + vec_extras(
                lv,
                vv,
                cfg,
                0,
            ),
            forall|k: int| 0 <= k < entries@.len() ==> (#[trigger] entries@[k]).score.wf(),
        decreases nv - j,
    {
        let e = &vector[j];
        let lrank = find_rank(lexical, e.chunk_id);
        if lrank.is_none() {
            let score = score_of_exec(config, None, Some(j));
            entries.push(
                SearchResult {
                    chunk_id: e.chunk_id,
                    document_id: e.document_id,
                    chunk_index: e.chunk_index,
                    path: e.path.clone(),
                    content: e.content.clone(),
                    score,
                    lexical_rank: None,
                    vector_rank: Some(j + 1),
                },
            );
            proof {
                assert(vv[j as int] == vector@[j as int]@);
                assert(entries@.last()@ == entry_of_vec(lv, vv, cfg, j as int));
                assert(result_views(entries@) =~= result_views(entries@.drop_last()).push(
                    entry_of_vec(lv, vv, cfg, j as int),
                ));
                assert(result_views(entries@) + vec_extras(lv, vv, cfg, j + 1) =~= lexpart
                    + vec_extras(lv, vv, cfg, 0));
            }
        }
        j = j + 1;
    }
    proof {
        assert(result_views(entries@) =~= fuse_entries(lv, vv, cfg));
    }

    // Drop entries under the score floor.
    let ghost fused = fuse_entries(lv, vv, cfg);
    let mut kept: Vec<SearchResult> = Vec::new();
    let ne = entries.len();
    let mut t: usize = 0;
    while t < ne
        invariant
            t <= ne,
            ne == entries@.len(),
            cfg == *config,
            cfg.wf(),
            fused == result_views(entries@),
            result_views(kept@) + keep_min(fused, cfg.min_score, t as int) =~= keep_min(
                fused,
                cfg.min_score,
                0,
            ),
            forall|k: int| 0 <= k < entries@.len() ==> (#[trigger] entries@[k]).score.wf(),
            forall|k: int| 0 <= k < kept@.len() ==> (#[trigger] kept@[k]).score.wf(),
        decreases ne - t,
    {
        let e = &entries[t];
        if !e.score.lt(&config.min_score) {
            kept.push(
                SearchResult {
                    chunk_id: e.chunk_id,
                    document_id: e.document_id,
                    chunk_index: e.chunk_index,
                    path: e.path.clone(),
                    content: e.content.clone(),
                    score: e.score,
                    lexical_rank: e.lexical_rank,
                    vector_rank: e.vector_rank,
                },
            );
            proof {
                assert(entries@[t as int]@ == fused[t as int]);
                assert(kept@.last()@ == fused[t as int]);
                assert(result_views(kept@) =~= result_views(kept@.drop_last()).push(
                    fused[t as int],
                ));
                assert(result_views(kept@) + keep_min(fused, cfg.min_score, t + 1) =~= keep_min(
                    fused,
                    cfg.min_score,
                    0,
                ));
            }
        }
        t = t + 1;
    }
    proof {
        assert(result_views(kept@) =~= keep_min(fused, cfg.min_score, 0));
    }

    // Insertion sort, descending, deterministic ties.
    let ghost kv = result_views(kept@);
    let mut sorted: Vec<SearchResult> = Vec::new();
    let nk = kept.len();
    let mut u: usize = 0;
    while u < nk
        invariant
            u <= nk,
            nk == kept@.len(),
            kv == result_views(kept@),
            result_views(sorted@) == sort_pref(kv, u as int),
            forall|k: int| 0 <= k < kept@.len() ==> (#[trigger] kept@[k]).score.wf(),
            forall|k: int| 0 <= k < sorted@.len() ==> (#[trigger] sorted@[k]).score.wf(),
        decreases nk - u,
    {
        let x = &kept[u];
        let ghost xm = kept@[u as int]@;
        let slen = sorted.len();
        let mut pos: usize = 0;
        while pos < slen
            invariant
                pos <= slen,
                slen == sorted@.len(),
                xm == kept@[u as int]@,
                u < kept@.len(),
                forall|k: int| 0 <= k < kept@.len() ==> (#[trigger] kept@[k]).score.wf(),
                forall|k: int| 0 <= k < sorted@.len() ==> (#[trigger] sorted@[k]).score.wf(),
                forall|k: int| 0 <= k < pos ==> !result_before(xm, (#[trigger] sorted@[k])@),
                x@ == xm,
            ensures
                pos <= slen,
                slen == sorted@.len(),
                forall|k: int| 0 <= k < pos ==> !result_before(xm, (#[trigger] sorted@[k])@),
                pos < slen ==> result_before(xm, sorted@[pos as int]@),
            decreases slen - pos,
        {
            assert(x@ == xm);
            assert(kept@[u as int].score.wf());
            assert(sorted@[pos as int].score.wf());
            if result_before_exec(x, &sorted[pos]) {
                assert(result_before(xm, sorted@[pos as int]@));
                break ;
            }
            pos = pos + 1;
        }
        let ghost sv = result_views(sorted@);
        proof {
            assert forall|k: int| 0 <= k < pos implies !result_before(xm, #[trigger] sv[k]) by {
                assert(sv[k] == sorted@[k]@);
            }
            if (pos as int) < sv.len() {
                assert(sv[pos as int] == sorted@[pos as int]@);
            }
            lemma_insert_desc_at(xm, sv, pos as int);
        }
        let item = SearchResult {
            chunk_id: x.chunk_id,
            document_id: x.document_id,
            chunk_index: x.chunk_index,
            path: x.path.clone(),
            content: x.content.clone(),
            score: x.score,
            lexical_rank: x.lexical_rank,
            vector_rank: x.vector_rank,
        };
        assert(item@ == xm);
        sorted.insert(pos, item);
        proof {
            assert(result_views(sorted@) =~= sv.insert(pos as int, xm));
            assert(result_views(sorted@) == sort_pref(kv, u + 1));
        }
        u = u + 1;
    }
    proof {
        assert(result_views(sorted@) == sort_desc(kv));
    }

    // Cut to the configured limit.
    let mut out: Vec<SearchResult> = Vec::new();
    let cap = if sorted.len() < config.limit {
        sorted.len()
    } else {
        config.limit
    };
    let mut w: usize = 0;
    while w < cap
        invariant
            w <= cap,
            cap == (if sorted@.len() < cfg.limit {
                sorted@.len() as int
            } else {
                cfg.limit as int
            }),
            cfg == *config,
            result_views(out@) =~= result_views(sorted@).subrange(0, w as int),
            forall|k: int| 0 <= k < sorted@.len() ==> (#[trigger] sorted@[k]).score.wf(),
            forall|k: int| 0 <= k < out@.len() ==> (#[trigger] out@[k]).score.wf(),
        decreases cap - w,
    {
        let x = &sorted[w];
        let ghost prevo = out@;
        out.push(
            SearchResult {
                chunk_id: x.chunk_id,
                document_id: x.document_id,
                chunk_index: x.chunk_index,
                path: x.path.clone(),
                content: x.content.clone(),
                score: x.score,
                lexical_rank: x.lexical_rank,
                vector_rank: x.vector_rank,
            },
        );
        proof {
            assert(out@.last()@ == sorted@[w as int]@);
            assert(result_views(out@) =~= result_views(prevo).push(sorted@[w as int]@));
            assert(result_views(sorted@).subrange(0, w as int).push(
                result_views(sorted@)[w as int],
            ) =~= result_views(sorted@).subrange(0, w as int + 1));
        }
        w = w + 1;
    }
    proof {
        assert(result_views(out@) =~= take_limit(sort_desc(kv), cfg.limit as int));
        assert(result_views(out@) == rrf_spec(lv, vv, cfg));
    }
    out
}

// ---------------------------------------------------------------------------
// Laws of fusion
// ---------------------------------------------------------------------------

/// Descending fused order holds between all adjacent results.
pub open spec fn sorted_desc(s: Seq<SearchResultModel>) -> bool {
    forall|i: int| 0 <= i < s.len() - 1 ==> !result_before(#[trigger] s[i + 1], s[i])
}

proof fn lemma_before_asym(a: SearchResultModel, b: SearchResultModel)
    ensures
        result_before(a, b) ==> !result_before(b, a),
{
}

proof fn lemma_insert_desc_sorted(x: SearchResultModel, s: Seq<SearchResultModel>)
    requires
        sorted_desc(s),
    ensures
        sorted_desc(insert_desc(x, s)),
    decreases s.len(),
{
    let r = insert_desc(x, s);
    if s.len() == 0 {
    } else if result_before(x, s.first()) {
        assert forall|i: int| 0 <= i < r.len() - 1 implies !result_before(#[trigger] r[i + 1], r[i])
            by {
            if i == 0 {
                lemma_before_asym(x, s.first());
                assert(r[0] == x && r[1] == s[0]);
            } else {
                assert(r[i] == s[i - 1] && r[i + 1] == s[i]);
                assert(!result_before(s[(i - 1) + 1], s[i - 1]));
            }
        }
    } else {
        assert forall|i: int|
            0 <= i < s.drop_first().len() - 1 implies !result_before(
            #[trigger] s.drop_first()[i + 1],
            s.drop_first()[i],
        ) by {
            assert(s.drop_first()[i] == s[i + 1] && s.drop_first()[i + 1] == s[i + 2]);
            assert(!result_before(s[(i + 1) + 1], s[i + 1]));
        }
        lemma_insert_desc_sorted(x, s.drop_first());
        let rest = insert_desc(x, s.drop_first());
        assert forall|i: int| 0 <= i < r.len() - 1 implies !result_before(#[trigger] r[i + 1], r[i])
            by {
            if i == 0 {
                assert(r[0] == s.first());
                if s.len() == 1 {
                    assert(r[1] == x);
                } else if result_before(x, s.drop_first().first()) {
                    assert(r[1] == x);
                } else {
                    assert(r[1] == s.drop_first()[0]);
                    assert(!result_before(s[0int + 1], s[0int]));
                    assert(s.drop_first()[0] == s[1]);
                }
            } else {
                assert(r[i] == rest[i - 1] && r[i + 1] == rest[i]);
                assert(!result_before(rest[(i - 1) + 1], rest[i - 1]));
            }
        }
    }
}

proof fn lemma_sort_pref_sorted(s: Seq<SearchResultModel>, j: int)
    requires
        0 <= j <= s.len(),
    ensures
        sorted_desc(sort_pref(s, j)),
    decreases j,
{
    if j > 0 {
        lemma_sort_pref_sorted(s, j - 1);
        lemma_insert_desc_sorted(s[j - 1], sort_pref(s, j - 1));
    }
}

/// What fusion returns is sorted: descending by score, ties by
/// `(document_id, chunk_index)`.  Together with the exact contract of
/// `reciprocal_rank_fusion`, search output is fully determined by the two
/// rankings and the configuration.
pub proof fn lemma_rrf_sorted(l: Seq<RankedModel>, v: Seq<RankedModel>, cfg: SearchConfig)
    ensures
        sorted_desc(rrf_spec(l, v, cfg)),
{
    let kept = keep_min(fuse_entries(l, v, cfg), cfg.min_score, 0);
    lemma_sort_pref_sorted(kept, kept.len() as int);
    let sorted = sort_desc(kept);
    let out = rrf_spec(l, v, cfg);
    assert forall|i: int| 0 <= i < out.len() - 1 implies !result_before(#[trigger] out[i + 1], out[i])
        by {
        assert(out[i] == sorted[i] && out[i + 1] == sorted[i + 1]);
    }
}

proof fn lemma_insert_desc_members(
    x: SearchResultModel,
    s: Seq<SearchResultModel>,
    y: SearchResultModel,
)
    requires
        insert_desc(x, s).contains(y),
    ensures
        y == x || s.contains(y),
    decreases s.len(),
{
    let r = insert_desc(x, s);
    let i = choose|i: int| 0 <= i < r.len() && r[i] == y;
    if s.len() == 0 {
        assert(y == x);
    } else if result_before(x, s.first()) {
        if i > 0 {
            assert(s[i - 1] == y);
        }
    } else {
        if i == 0 {
            assert(s[0] == y);
        } else {
            let rest = insert_desc(x, s.drop_first());
            assert(rest[i - 1] == y);
            assert(rest.contains(y));
            lemma_insert_desc_members(x, s.drop_first(), y);
            if s.drop_first().contains(y) {
                let w = choose|w: int| 0 <= w < s.drop_first().len() && s.drop_first()[w] == y;
                assert(s[w + 1] == y);
            }
        }
    }
}

proof fn lemma_sort_pref_members(s: Seq<SearchResultModel>, j: int, y: SearchResultModel)
    requires
        0 <= j <= s.len(),
        sort_pref(s, j).contains(y),
    ensures
        exists|w: int| 0 <= w < j && #[trigger] s[w] == y,
    decreases j,
{
    lemma_insert_desc_members(s[j - 1], sort_pref(s, j - 1), y);
    if y != s[j - 1] {
        lemma_sort_pref_members(s, j - 1, y);
    }
}

proof fn lemma_keep_min_members(
    s: Seq<SearchResultModel>,
    min: Score,
    i: int,
    y: SearchResultModel,
)
    requires
        keep_min(s, min, i).contains(y),
    ensures
        s.contains(y),
        !y.score.spec_lt(min),
    decreases s.len() + 1 - i,
{
    if i < 0 || i >= s.len() {
    } else if s[i].score.spec_lt(min) {
        lemma_keep_min_members(s, min, i + 1, y);
    } else {
        let r = keep_min(s, min, i);
        let w = choose|w: int| 0 <= w < r.len() && r[w] == y;
        if w == 0 {
            assert(s[i] == y);
        } else {
            assert(keep_min(s, min, i + 1)[w - 1] == y);
            assert(keep_min(s, min, i + 1).contains(y));
            lemma_keep_min_members(s, min, i + 1, y);
        }
    }
}

proof fn lemma_vec_extras_members(
    l: Seq<RankedModel>,
    v: Seq<RankedModel>,
    cfg: SearchConfig,
    j: int,
    y: SearchResultModel,
)
    requires
        vec_extras(l, v, cfg, j).contains(y),
    ensures
        exists|k: int| 0 <= k < v.len() && y == #[trigger] entry_of_vec(l, v, cfg, k),
    decreases v.len() + 1 - j,
{
    if j < 0 || j >= v.len() {
    } else if rank_in(l, v[j].chunk_id) is None {
        let r = vec_extras(l, v, cfg, j);
        let w = choose|w: int| 0 <= w < r.len() && r[w] == y;
        if w == 0 {
            assert(y == entry_of_vec(l, v, cfg, j));
        } else {
            assert(vec_extras(l, v, cfg, j + 1)[w - 1] == y);
            assert(vec_extras(l, v, cfg, j + 1).contains(y));
            lemma_vec_extras_members(l, v, cfg, j + 1, y);
        }
    } else {
        lemma_vec_extras_members(l, v, cfg, j + 1, y);
    }
}

/// Every fused result carries the data of some entry of one of the two
/// rankings, and scores at least the floor: fusion invents nothing.
pub proof fn lemma_rrf_result_sound(
    l: Seq<RankedModel>,
    v: Seq<RankedModel>,
    cfg: SearchConfig,
    y: SearchResultModel,
)
    requires
        rrf_spec(l, v, cfg).contains(y),
    ensures
        !y.score.spec_lt(cfg.min_score),
        (exists|i: int|
            0 <= i < l.len() && {
                let e = #[trigger] l[i];
                y.chunk_id == e.chunk_id && y.document_id == e.document_id && y.chunk_index
                    == e.chunk_index && y.path == e.path && y.content == e.content
            }) || (exists|j: int|
            0 <= j < v.len() && {
                let e = #[trigger] v[j];
                y.chunk_id == e.chunk_id && y.document_id == e.document_id && y.chunk_index
                    == e.chunk_index && y.path == e.path && y.content == e.content
            }),
{
    let fused = fuse_entries(l, v, cfg);
    let kept = keep_min(fused, cfg.min_score, 0);
    let sorted = sort_desc(kept);
    let out = rrf_spec(l, v, cfg);
    let w = choose|w: int| 0 <= w < out.len() && out[w] == y;
    assert(sorted[w] == y);
    assert(sorted.contains(y));
    if kept.len() > 0 {
        lemma_sort_pref_members(kept, kept.len() as int, y);
        let w2 = choose|w2: int| 0 <= w2 < kept.len() && #[trigger] kept[w2] == y;
        assert(kept.contains(y));
    }
    lemma_keep_min_members(fused, cfg.min_score, 0, y);
    let w3 = choose|w3: int| 0 <= w3 < fused.len() && fused[w3] == y;
    let lexpart = Seq::new(l.len(), |i: int| entry_of_lex(l, v, cfg, i));
    if w3 < lexpart.len() {
        assert(y == entry_of_lex(l, v, cfg, w3));
        assert(l[w3].chunk_id == y.chunk_id);
    } else {
        assert(vec_extras(l, v, cfg, 0)[w3 - lexpart.len()] == y);
        assert(vec_extras(l, v, cfg, 0).contains(y));
        lemma_vec_extras_members(l, v, cfg, 0, y);
        let k = choose|k: int| 0 <= k < v.len() && y == #[trigger] entry_of_vec(l, v, cfg, k);
        assert(v[k].chunk_id == y.chunk_id);
    }
}

/// A found rank lies inside the ranking.
proof fn lemma_rank_from_bounds(l: Seq<RankedModel>, id: u128, i: int)
    ensures
        rank_from(l, id, i) matches Some(j) ==> i <= j < l.len() && l[j].chunk_id == id,
    decreases l.len() + 1 - i,
{
    if !(i < 0 || i >= l.len()) && l[i].chunk_id != id {
        lemma_rank_from_bounds(l, id, i + 1);
    }
}

} // verus!

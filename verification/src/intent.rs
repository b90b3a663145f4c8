//! Phrase-level heuristics over model output.
//!
//! `llm_signals_completion` detects an explicit claim that a job or task is
//! complete; `llm_mentions_tool_intent` detects an announced intent to use a
//! named tool without actually calling it.  Both work on the lowercased text
//! and use whole phrases rather than bare words, to avoid false positives
//! such as "not done yet" or "the download completed".

use vstd::prelude::*;

use crate::text::{
    chars_vec, contains_chars, contains_seq, find_first, first_match_from, lemma_first_match_from,
    lower_of, matches_at, subvec, to_lowercase,
};

verus! {

// ---------------------------------------------------------------------------
// Completion signals
// ---------------------------------------------------------------------------

/// One of the phrases that states a job, task or unit of work is done.
pub open spec fn has_positive_phrase(s: Seq<char>) -> bool {
    ||| contains_seq(s, "job is complete"@)
    ||| contains_seq(s, "job is done"@)
    ||| contains_seq(s, "job is finished"@)
    ||| contains_seq(s, "task is complete"@)
    ||| contains_seq(s, "task is done"@)
    ||| contains_seq(s, "task is finished"@)
    ||| contains_seq(s, "work is complete"@)
    ||| contains_seq(s, "work is done"@)
    ||| contains_seq(s, "work is finished"@)
    ||| contains_seq(s, "successfully completed"@)
    ||| contains_seq(s, "have completed the job"@)
    ||| contains_seq(s, "have completed the task"@)
    ||| contains_seq(s, "have finished the job"@)
    ||| contains_seq(s, "have finished the task"@)
    ||| contains_seq(s, "all steps are complete"@)
    ||| contains_seq(s, "all steps are done"@)
    ||| contains_seq(s, "i have completed"@)
    ||| contains_seq(s, "i've completed"@)
    ||| contains_seq(s, "all done"@)
    ||| contains_seq(s, "all tasks complete"@)
}

/// One of the phrases that negates completion.
pub open spec fn has_negative_phrase(s: Seq<char>) -> bool {
    ||| contains_seq(s, "not complete"@)
    ||| contains_seq(s, "not done"@)
    ||| contains_seq(s, "not finished"@)
    ||| contains_seq(s, "incomplete"@)
    ||| contains_seq(s, "unfinished"@)
    ||| contains_seq(s, "isn't done"@)
    ||| contains_seq(s, "isn't complete"@)
    ||| contains_seq(s, "isn't finished"@)
    ||| contains_seq(s, "not yet done"@)
    ||| contains_seq(s, "not yet complete"@)
    ||| contains_seq(s, "not yet finished"@)
}

/// A lowercased response signals completion when it carries a positive phrase
/// and no negating phrase.
pub open spec fn signals_completion_spec(s: Seq<char>) -> bool {
    !has_negative_phrase(s) && has_positive_phrase(s)
}

/// Whether `hay` contains the characters of the literal `lit`.
fn contains_lit(hay: &Vec<char>, lit: &str) -> (r: bool)
    ensures
        r == contains_seq(hay@, lit@),
{
    let nv = chars_vec(lit);
    contains_chars(hay, &nv)
}

/// Check whether a response explicitly signals that a job or task is
/// complete.
///
/// Phrase-level matching avoids false positives from bare words like "done"
/// or "complete" appearing in non-completion contexts.
pub fn llm_signals_completion(response: &str) -> (r: bool)
    ensures
        r == signals_completion_spec(lower_of(response@)),
{
    let low = to_lowercase(response);
    let lowv = chars_vec(low.as_str());

    let negative = contains_lit(&lowv, "not complete") || contains_lit(&lowv, "not done")
        || contains_lit(&lowv, "not finished") || contains_lit(&lowv, "incomplete")
        || contains_lit(&lowv, "unfinished") || contains_lit(&lowv, "isn't done")
        || contains_lit(&lowv, "isn't complete") || contains_lit(&lowv, "isn't finished")
        || contains_lit(&lowv, "not yet done") || contains_lit(&lowv, "not yet complete")
        || contains_lit(&lowv, "not yet finished");
    if negative {
        return false;
    }

    contains_lit(&lowv, "job is complete") || contains_lit(&lowv, "job is done") || contains_lit(
        &lowv,
        "job is finished",
    ) || contains_lit(&lowv, "task is complete") || contains_lit(&lowv, "task is done")
        || contains_lit(&lowv, "task is finished") || contains_lit(&lowv, "work is complete")
        || contains_lit(&lowv, "work is done") || contains_lit(&lowv, "work is finished")
        || contains_lit(&lowv, "successfully completed") || contains_lit(
        &lowv,
        "have completed the job",
    ) || contains_lit(&lowv, "have completed the task") || contains_lit(
        &lowv,
        "have finished the job",
    ) || contains_lit(&lowv, "have finished the task") || contains_lit(
        &lowv,
        "all steps are complete",
    ) || contains_lit(&lowv, "all steps are done") || contains_lit(&lowv, "i have completed")
        || contains_lit(&lowv, "i've completed") || contains_lit(&lowv, "all done")
        || contains_lit(&lowv, "all tasks complete")
}

// ---------------------------------------------------------------------------
// Tool intent
// ---------------------------------------------------------------------------

/// The end of the window searched for a tool name: at most 80 characters
/// after the intent phrase.
pub open spec fn window_end(hay: Seq<char>, ws: int) -> int {
    if ws + 80 <= hay.len() {
        ws + 80
    } else {
        hay.len() as int
    }
}

/// `s` with every underscore replaced by a space, so that "memory_search"
/// also matches the spelling "memory search".
pub open spec fn underscores_to_spaces(s: Seq<char>) -> Seq<char> {
    s.map_values(|c: char| if c == '_' { ' ' } else { c })
}

/// The lowercased tool name (plain or with underscores spelled as spaces)
/// occurs within the short window after the first occurrence of `phrase`.
pub open spec fn tool_near(hay: Seq<char>, phrase: Seq<char>, tool_low: Seq<char>) -> bool {
    match first_match_from(hay, phrase, 0) {
        Some(p) => {
            let ws = p + phrase.len() as int;
            let w = hay.subrange(ws, window_end(hay, ws));
            contains_seq(w, tool_low) || contains_seq(w, underscores_to_spaces(tool_low))
        },
        None => false,
    }
}

/// Some listed tool is named near the first occurrence of `phrase`.
pub open spec fn intent_hit(hay: Seq<char>, phrase: Seq<char>, tools: Seq<Seq<char>>) -> bool {
    exists|t: int| 0 <= t < tools.len() && tool_near(hay, phrase, lower_of(#[trigger] tools[t]))
}

/// A lowercased response mentions tool intent when any intent phrase is
/// followed, within the window, by a known tool name.
pub open spec fn mentions_tool_intent_spec(hay: Seq<char>, tools: Seq<Seq<char>>) -> bool {
    ||| intent_hit(hay, "i'll use"@, tools)
    ||| intent_hit(hay, "i will use"@, tools)
    ||| intent_hit(hay, "i'll call"@, tools)
    ||| intent_hit(hay, "i will call"@, tools)
    ||| intent_hit(hay, "i'll run"@, tools)
    ||| intent_hit(hay, "i will run"@, tools)
    ||| intent_hit(hay, "i'll invoke"@, tools)
    ||| intent_hit(hay, "i will invoke"@, tools)
    ||| intent_hit(hay, "i'll execute"@, tools)
    ||| intent_hit(hay, "i will execute"@, tools)
    ||| intent_hit(hay, "let me use"@, tools)
    ||| intent_hit(hay, "let me call"@, tools)
    ||| intent_hit(hay, "let me run"@, tools)
    ||| intent_hit(hay, "let me invoke"@, tools)
    ||| intent_hit(hay, "let me execute"@, tools)
    ||| intent_hit(hay, "i need to use"@, tools)
    ||| intent_hit(hay, "i need to call"@, tools)
    ||| intent_hit(hay, "i need to run"@, tools)
    ||| intent_hit(hay, "i should use"@, tools)
    ||| intent_hit(hay, "i should call"@, tools)
    ||| intent_hit(hay, "i should run"@, tools)
    ||| intent_hit(hay, "i'm going to use"@, tools)
    ||| intent_hit(hay, "i'm going to call"@, tools)
    ||| intent_hit(hay, "i'm going to run"@, tools)
    ||| intent_hit(hay, "going to use the"@, tools)
    ||| intent_hit(hay, "going to call the"@, tools)
    ||| intent_hit(hay, "going to run the"@, tools)
    ||| intent_hit(hay, "i can use"@, tools)
    ||| intent_hit(hay, "i can call"@, tools)
    ||| intent_hit(hay, "i can run"@, tools)
    ||| intent_hit(hay, "using the"@, tools)
    ||| intent_hit(hay, "by calling"@, tools)
    ||| intent_hit(hay, "by running"@, tools)
    ||| intent_hit(hay, "by using"@, tools)
}

/// The views of a list of tool names.
pub open spec fn tool_views(tools: Seq<&str>) -> Seq<Seq<char>> {
    tools.map_values(|t: &str| t@)
}

/// `v` with underscores replaced by spaces.
fn underscores_to_spaces_exec(v: &Vec<char>) -> (r: Vec<char>)
    ensures
        r@ == underscores_to_spaces(v@),
{
    let n = v.len();
    let mut r: Vec<char> = Vec::new();
    let mut i: usize = 0;
    while i < n
        invariant
            i <= n,
            n == v@.len(),
            r@.len() == i,
            forall|j: int| 0 <= j < i ==> r@[j] == (if v@[j] == '_' {
                ' '
            } else {
                v@[j]
            }),
        decreases n - i,
    {
        if v[i] == '_' {
            r.push(' ');
        } else {
            r.push(v[i]);
        }
        i = i + 1;
    }
    proof {
        assert(r@ =~= underscores_to_spaces(v@));
    }
    r
}

/// Whether some tool in `tool_names` is named within the window after the
/// first occurrence of `phrase` in `lowv`.
fn phrase_hit(lowv: &Vec<char>, phrase: &str, tool_names: &[&str]) -> (r: bool)
    ensures
        r == intent_hit(lowv@, phrase@, tool_views(tool_names@)),
{
    let pv = chars_vec(phrase);
    let found = find_first(lowv, &pv);
    proof {
        lemma_first_match_from(lowv@, pv@, 0);
    }
    match found {
        None => false,
        Some(p) => {
            let hlen = lowv.len();
            assert(matches_at(lowv@, pv@, p as int));
            assert(p + pv@.len() <= hlen);
            let ws = p + pv.len();
            let we = if hlen - ws >= 80 {
                ws + 80
            } else {
                hlen
            };
            assert(we as int == window_end(lowv@, ws as int));
            let w = subvec(lowv, ws, we);
            let n = tool_names.len();
            let mut t: usize = 0;
            let mut hit = false;
            while t < n
                invariant
                    t <= n,
                    n == tool_names@.len(),
                    pv@ == phrase@,
                    first_match_from(lowv@, phrase@, 0) == Some(p as int),
                    ws as int == p + phrase@.len(),
                    w@ == lowv@.subrange(ws as int, window_end(lowv@, ws as int)),
                    hit == exists|k: int|
                        0 <= k < t && tool_near(
                            lowv@,
                            phrase@,
                            lower_of(#[trigger] tool_views(tool_names@)[k]),
                        ),
                decreases n - t,
            {
                let tl = to_lowercase(tool_names[t]);
                let tlv = chars_vec(tl.as_str());
                if contains_chars(&w, &tlv) {
                    hit = true;
                } else {
                    let tsp = underscores_to_spaces_exec(&tlv);
                    if contains_chars(&w, &tsp) {
                        hit = true;
                    }
                }
                proof {
                    assert(tool_views(tool_names@)[t as int] == tool_names@[t as int]@);
                }
                t = t + 1;
            }
            hit
        },
    }
}

/// Check whether a response mentions intent to use a specific known tool
/// without actually calling it (the model is "explaining" instead of
/// "doing").
///
/// Returns `true` when the text contains an intent phrase ("i'll use", "let
/// me call", ...) followed by a known tool name within a short window.
pub fn llm_mentions_tool_intent(response: &str, tool_names: &[&str]) -> (r: bool)
    ensures
        r == (tool_names@.len() > 0 && mentions_tool_intent_spec(
            lower_of(response@),
            tool_views(tool_names@),
        )),
{
    if tool_names.len() == 0 {
        return false;
    }

    let low = to_lowercase(response);
    let lowv = chars_vec(low.as_str());

    phrase_hit(&lowv, "i'll use", tool_names) || phrase_hit(&lowv, "i will use", tool_names)
        || phrase_hit(&lowv, "i'll call", tool_names) || phrase_hit(
        &lowv,
        "i will call",
        tool_names,
    ) || phrase_hit(&lowv, "i'll run", tool_names) || phrase_hit(&lowv, "i will run", tool_names)
        || phrase_hit(&lowv, "i'll invoke", tool_names) || phrase_hit(
        &lowv,
        "i will invoke",
        tool_names,
    ) || phrase_hit(&lowv, "i'll execute", tool_names) || phrase_hit(
        &lowv,
        "i will execute",
        tool_names,
    ) || phrase_hit(&lowv, "let me use", tool_names) || phrase_hit(&lowv, "let me call", tool_names)
        || phrase_hit(&lowv, "let me run", tool_names) || phrase_hit(
        &lowv,
        "let me invoke",
        tool_names,
    ) || phrase_hit(&lowv, "let me execute", tool_names) || phrase_hit(
        &lowv,
        "i need to use",
        tool_names,
    ) || phrase_hit(&lowv, "i need to call", tool_names) || phrase_hit(
        &lowv,
        "i need to run",
        tool_names,
    ) || phrase_hit(&lowv, "i should use", tool_names) || phrase_hit(
        &lowv,
        "i should call",
        tool_names,
    ) || phrase_hit(&lowv, "i should run", tool_names) || phrase_hit(
        &lowv,
        "i'm going to use",
        tool_names,
    ) || phrase_hit(&lowv, "i'm going to call", tool_names) || phrase_hit(
        &lowv,
        "i'm going to run",
        tool_names,
    ) || phrase_hit(&lowv, "going to use the", tool_names) || phrase_hit(
        &lowv,
        "going to call the",
        tool_names,
    ) || phrase_hit(&lowv, "going to run the", tool_names) || phrase_hit(
        &lowv,
        "i can use",
        tool_names,
    ) || phrase_hit(&lowv, "i can call", tool_names) || phrase_hit(&lowv, "i can run", tool_names)
        || phrase_hit(&lowv, "using the", tool_names) || phrase_hit(&lowv, "by calling", tool_names)
        || phrase_hit(&lowv, "by running", tool_names) || phrase_hit(&lowv, "by using", tool_names)
}

} // verus!

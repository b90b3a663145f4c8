//! Tests for the character-boundary helper and the phrase-level heuristics.

use agent_workspace::intent::{llm_mentions_tool_intent, llm_signals_completion};
use agent_workspace::text::floor_char_boundary;

// -- floor_char_boundary --

#[test]
fn floor_char_boundary_at_valid_boundary() {
    assert_eq!(floor_char_boundary("hello", 3), 3);
}

#[test]
fn floor_char_boundary_mid_multibyte_char() {
    // h = 1 byte, e-acute = 2 bytes, total 3 bytes
    let s = "h\u{e9}";
    assert_eq!(floor_char_boundary(s, 2), 1); // byte 2 is mid-character, back up to 1
}

#[test]
fn floor_char_boundary_past_end() {
    assert_eq!(floor_char_boundary("hi", 100), 2);
}

#[test]
fn floor_char_boundary_at_zero() {
    assert_eq!(floor_char_boundary("hello", 0), 0);
}

#[test]
fn floor_char_boundary_empty_string() {
    assert_eq!(floor_char_boundary("", 5), 0);
}

// -- llm_signals_completion --

#[test]
fn signals_completion_positive() {
    assert!(llm_signals_completion("The job is complete."));
    assert!(llm_signals_completion("I have completed the task."));
    assert!(llm_signals_completion("All done, here are the results."));
    assert!(llm_signals_completion("Task is finished successfully."));
    assert!(llm_signals_completion("I have completed the task successfully."));
    assert!(llm_signals_completion("All steps are complete and verified."));
    assert!(llm_signals_completion("I've done all the work. The work is done."));
    assert!(llm_signals_completion("Successfully completed the migration."));
    assert!(llm_signals_completion("I have completed the job ahead of schedule."));
    assert!(llm_signals_completion("I have finished the task."));
    assert!(llm_signals_completion("All steps are done now."));
    assert!(llm_signals_completion("I've completed everything."));
    assert!(llm_signals_completion("All tasks complete."));
}

#[test]
fn signals_completion_negative() {
    assert!(!llm_signals_completion("The task is not complete yet."));
    assert!(!llm_signals_completion("This is not done."));
    assert!(!llm_signals_completion("The work is incomplete."));
    assert!(!llm_signals_completion("Build is unfinished."));
    assert!(!llm_signals_completion("The migration is not yet finished."));
    assert!(!llm_signals_completion("The job isn't done yet."));
    assert!(!llm_signals_completion("This remains unfinished."));
}

#[test]
fn signals_completion_no_bare_substrings() {
    assert!(!llm_signals_completion("The download completed."));
    assert!(!llm_signals_completion("Function done_callback was called."));
    assert!(!llm_signals_completion("Set is_complete = true"));
    assert!(!llm_signals_completion("Running step 3 of 5"));
    assert!(!llm_signals_completion("I need to complete more work first."));
    assert!(!llm_signals_completion("Let me finish the remaining steps."));
    assert!(!llm_signals_completion("I'm done analyzing, now let me fix it."));
    assert!(!llm_signals_completion("I completed step 1 but step 2 remains."));
}

#[test]
fn signals_completion_tool_output_injection() {
    assert!(!llm_signals_completion("TASK_COMPLETE"));
    assert!(!llm_signals_completion("JOB_DONE"));
    assert!(!llm_signals_completion("The tool returned: TASK_COMPLETE signal"));
}

// -- llm_mentions_tool_intent --

#[test]
fn tool_intent_detected() {
    let tools: &[&str] = &["memory_search", "shell", "create_job", "http"];
    assert!(llm_mentions_tool_intent(
        "I'll use memory_search to look that up for you.",
        tools,
    ));
    assert!(llm_mentions_tool_intent(
        "Let me call the shell tool to check the directory.",
        tools,
    ));
    assert!(llm_mentions_tool_intent("I will run http to fetch the data.", tools));
    assert!(llm_mentions_tool_intent("I'm going to use create_job to start that.", tools));
    assert!(llm_mentions_tool_intent("I should use the memory_search tool first.", tools));
    assert!(llm_mentions_tool_intent(
        "I can use memory search to find that information.",
        tools,
    ));
}

#[test]
fn tool_intent_not_detected_conversational() {
    let tools: &[&str] = &["memory_search", "shell", "create_job", "http"];
    assert!(!llm_mentions_tool_intent("Hello! How can I help you today?", tools));
    assert!(!llm_mentions_tool_intent("I'm doing great, thanks for asking!", tools));
    assert!(!llm_mentions_tool_intent("The weather has been nice lately.", tools));
    assert!(!llm_mentions_tool_intent("Sure, I can explain how that works.", tools));
}

#[test]
fn tool_intent_not_detected_no_tool_name() {
    let tools: &[&str] = &["memory_search", "shell", "create_job", "http"];
    assert!(!llm_mentions_tool_intent("I'll use my knowledge to answer that.", tools));
    assert!(!llm_mentions_tool_intent("Let me run through the possibilities.", tools));
    assert!(!llm_mentions_tool_intent("I'm going to use a different approach.", tools));
}

#[test]
fn tool_intent_not_detected_empty_tools() {
    assert!(!llm_mentions_tool_intent("I'll use memory_search to find that.", &[]));
}

#[test]
fn tool_intent_case_insensitive() {
    let tools: &[&str] = &["memory_search", "shell", "create_job", "http"];
    assert!(llm_mentions_tool_intent("I'll use MEMORY_SEARCH to look that up.", tools));
    assert!(llm_mentions_tool_intent("Let me call Shell to run the command.", tools));
}

#[test]
fn tool_intent_tool_name_too_far_away() {
    let tools: &[&str] = &["memory_search", "shell", "create_job", "http"];
    // Tool name is >80 chars from the intent phrase
    let padding = "x".repeat(100);
    let text = format!("I'll use {} memory_search", padding);
    assert!(!llm_mentions_tool_intent(&text, tools));
}

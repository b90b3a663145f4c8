//! Shell execution tool: the verified policy half.
//!
//! This module holds the tool's configuration, the blocked-command check, and
//! output truncation.  Actually spawning a subprocess, capturing its output
//! and enforcing the timeout is I/O and lives with the embedding application,
//! which consults [`ShellTool::is_blocked`] before running anything.

use vstd::prelude::*;

use crate::text::{chars_vec, contains_seq, dec_chars, lower_of, to_lowercase, u64_to_dec};
use vstd::string::{StrSliceExecFns, StringExecFns};

verus! {

/// Maximum output size in characters before truncation.
pub const MAX_OUTPUT_CHARS: usize = 65536;

/// Default command timeout, in milliseconds.
pub const DEFAULT_TIMEOUT_MS: u64 = 120000;

/// One of the command strings that is always refused.
pub open spec fn has_blocked_pattern(s: Seq<char>) -> bool {
    ||| contains_seq(s, "rm -rf /"@)
    ||| contains_seq(s, "rm -rf /*"@)
    ||| contains_seq(s, ":(){ :|:& };:"@)
    ||| contains_seq(s, "dd if=/dev/zero"@)
    ||| contains_seq(s, "mkfs"@)
    ||| contains_seq(s, "chmod -R 777 /"@)
    ||| contains_seq(s, "> /dev/sda"@)
    ||| contains_seq(s, "curl | sh"@)
    ||| contains_seq(s, "wget | sh"@)
    ||| contains_seq(s, "curl | bash"@)
    ||| contains_seq(s, "wget | bash"@)
}

/// A pattern that marks a potentially dangerous command; such commands are
/// refused unless the tool was configured to allow them.
pub open spec fn has_dangerous_pattern(s: Seq<char>) -> bool {
    ||| contains_seq(s, "sudo "@)
    ||| contains_seq(s, "doas "@)
    ||| contains_seq(s, " | sh"@)
    ||| contains_seq(s, " | bash"@)
    ||| contains_seq(s, " | zsh"@)
    ||| contains_seq(s, "eval "@)
    ||| contains_seq(s, "$(curl"@)
    ||| contains_seq(s, "$(wget"@)
    ||| contains_seq(s, "/etc/passwd"@)
    ||| contains_seq(s, "/etc/shadow"@)
    ||| contains_seq(s, "~/.ssh"@)
    ||| contains_seq(s, ".bash_history"@)
    ||| contains_seq(s, "id_rsa"@)
}

/// Shell command execution tool configuration.
pub struct ShellTool {
    /// Working directory for commands; `None` means the caller's current
    /// directory.
    pub working_dir: Option<String>,
    /// Command timeout, in milliseconds.
    pub timeout_ms: u64,
    /// Whether to allow potentially dangerous commands.
    pub allow_dangerous: bool,
}

impl ShellTool {
    /// Create a new shell tool with default settings.
    pub fn new() -> (r: Self)
        ensures
            r.working_dir is None,
            r.timeout_ms == DEFAULT_TIMEOUT_MS,
            !r.allow_dangerous,
    {
        ShellTool { working_dir: None, timeout_ms: DEFAULT_TIMEOUT_MS, allow_dangerous: false }
    }

    /// Set the working directory.
    pub fn with_working_dir(self, dir: String) -> (r: Self)
        ensures
            r.working_dir == Some(dir),
            r.timeout_ms == self.timeout_ms,
            r.allow_dangerous == self.allow_dangerous,
    {
        ShellTool { working_dir: Some(dir), ..self }
    }

    /// Set the command timeout, in milliseconds.
    pub fn with_timeout(self, timeout_ms: u64) -> (r: Self)
        ensures
            r.timeout_ms == timeout_ms,
            r.working_dir == self.working_dir,
            r.allow_dangerous == self.allow_dangerous,
    {
        ShellTool { timeout_ms, ..self }
    }

    /// Check whether a command is refused, and why.
    ///
    /// The check is against the lowercased command text: always for the
    /// blocked commands, and additionally for the dangerous patterns unless
    /// the tool allows them.
    pub fn is_blocked(&self, cmd: &str) -> (r: Option<&'static str>)
        ensures
            ({
                let low = lower_of(cmd@);
                match r {
                    Some(msg) => (has_blocked_pattern(low) && msg@
                        == "Command contains blocked pattern"@) || (!has_blocked_pattern(low)
                        && !self.allow_dangerous && has_dangerous_pattern(low) && msg@
                        == "Command contains potentially dangerous pattern"@),
                    None => !has_blocked_pattern(low) && (self.allow_dangerous
                        || !has_dangerous_pattern(low)),
                }
            }),
    {
        let low = to_lowercase(cmd);
        let lowv = chars_vec(low.as_str());

        let blocked = contains_lit(&lowv, "rm -rf /") || contains_lit(&lowv, "rm -rf /*")
            || contains_lit(&lowv, ":(){ :|:& };:") || contains_lit(&lowv, "dd if=/dev/zero")
            || contains_lit(&lowv, "mkfs") || contains_lit(&lowv, "chmod -R 777 /")
            || contains_lit(&lowv, "> /dev/sda") || contains_lit(&lowv, "curl | sh")
            || contains_lit(&lowv, "wget | sh") || contains_lit(&lowv, "curl | bash")
            || contains_lit(&lowv, "wget | bash");
        if blocked {
            return Some("Command contains blocked pattern");
        }

        if !self.allow_dangerous {
            let dangerous = contains_lit(&lowv, "sudo ") || contains_lit(&lowv, "doas ")
                || contains_lit(&lowv, " | sh") || contains_lit(&lowv, " | bash") || contains_lit(
                &lowv,
                " | zsh",
            ) || contains_lit(&lowv, "eval ") || contains_lit(&lowv, "$(curl") || contains_lit(
                &lowv,
                "$(wget",
            ) || contains_lit(&lowv, "/etc/passwd") || contains_lit(&lowv, "/etc/shadow")
                || contains_lit(&lowv, "~/.ssh") || contains_lit(&lowv, ".bash_history")
                || contains_lit(&lowv, "id_rsa");
            if dangerous {
                return Some("Command contains potentially dangerous pattern");
            }
        }

        None
    }
}

impl Default for ShellTool {
    /// The default tool: no working directory override, default timeout,
    /// dangerous commands refused.
    fn default() -> (r: Self)
        ensures
            r.working_dir is None,
            r.timeout_ms == DEFAULT_TIMEOUT_MS,
            !r.allow_dangerous,
    {
        ShellTool::new()
    }
}

/// Whether `hay` contains the characters of the literal `lit`.
fn contains_lit(hay: &Vec<char>, lit: &str) -> (r: bool)
    ensures
        r == contains_seq(hay@, lit@),
{
    let nv = chars_vec(lit);
    crate::text::contains_chars(hay, &nv)
}

/// What truncation produces: text short enough passes through; longer text
/// keeps its first and last halves around a marker naming the elided amount.
pub open spec fn truncate_output_spec(s: Seq<char>) -> Seq<char> {
    if s.len() <= MAX_OUTPUT_CHARS {
        s
    } else {
        s.subrange(0, MAX_OUTPUT_CHARS as int / 2) + "\n\n... [truncated "@ + dec_chars(
            s.len() - MAX_OUTPUT_CHARS,
        ) + " chars] ...\n\n"@ + s.subrange(s.len() - MAX_OUTPUT_CHARS as int / 2, s.len() as int)
    }
}

/// Truncate captured output to fit within limits.
pub fn truncate_output(s: &str) -> (r: String)
    ensures
        r@ == truncate_output_spec(s@),
{
    let n = s.unicode_len();
    if n <= MAX_OUTPUT_CHARS {
        return s.to_owned();
    }
    let half = MAX_OUTPUT_CHARS / 2;
    let mut out = s.substring_char(0, half).to_owned();
    out.append("\n\n... [truncated ");
    let count = u64_to_dec((n - MAX_OUTPUT_CHARS) as u64);
    out.append(count.as_str());
    out.append(" chars] ...\n\n");
    out.append(s.substring_char(n - half, n));
    out
}

/// What combining the two output streams produces: the non-empty stream
/// alone, or both under a stderr marker.
pub open spec fn merge_outputs_spec(stdout: Seq<char>, stderr: Seq<char>) -> Seq<char> {
    if stderr.len() == 0 {
        stdout
    } else if stdout.len() == 0 {
        stderr
    } else {
        stdout + "\n\n--- stderr ---\n"@ + stderr
    }
}

/// Combine a command's captured stdout and stderr into one transcript.
pub fn merge_outputs(stdout: &str, stderr: &str) -> (r: String)
    ensures
        r@ == merge_outputs_spec(stdout@, stderr@),
{
    if stderr.is_empty() {
        return stdout.to_owned();
    }
    if stdout.is_empty() {
        return stderr.to_owned();
    }
    let mut out = stdout.to_owned();
    out.append("\n\n--- stderr ---\n");
    out.append(stderr);
    out
}

/// What error-message truncation produces: at most 100 characters of the
/// command, with a trailing ellipsis when something was cut.
pub open spec fn truncate_for_error_spec(s: Seq<char>) -> Seq<char> {
    if s.len() <= 100 {
        s
    } else {
        s.subrange(0, 100) + "..."@
    }
}

/// Truncate a command for use inside an error message.
pub fn truncate_for_error(s: &str) -> (r: String)
    ensures
        r@ == truncate_for_error_spec(s@),
{
    let n = s.unicode_len();
    if n <= 100 {
        return s.to_owned();
    }
    let mut out = s.substring_char(0, 100).to_owned();
    out.append("...");
    out
}

} // verus!

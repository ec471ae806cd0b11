//! The command auditor: a risk level for a shell command before it is run.
//!
//! A command is split into words the way a POSIX shell would. The first word
//! is the verb, the rest are its arguments. Arguments that reach into system
//! directories or out of the working directory, a format command and a
//! recursive delete are blocked. Script runners, downloaders, network tools
//! and package managers call for a warning. A short list of read-only verbs is
//! safe. Anything else gets a notice.

use vstd::prelude::*;
use vstd::string::*;

verus! {

/// How dangerous a shell command is judged to be.
#[derive(Debug, PartialEq, Eq, Clone, Copy, Structural)]
pub enum RiskLevel {
    /// Reads only, no side effects.
    Safe,
    /// Ordinary work with small side effects.
    Notice,
    /// Destructive commands, network access, script runners.
    Warn,
    /// Refused outright.
    Block,
}

/// The verdict on one command.
#[derive(Debug)]
pub struct AuditResult {
    pub level: RiskLevel,
    pub reason: String,
    /// The part of the command that the verdict rests on.
    pub highlight: Option<String>,
}

/// A verdict as a mathematical value.
pub struct AuditView {
    pub level: RiskLevel,
    pub reason: Seq<char>,
    pub highlight: Option<Seq<char>>,
}

impl View for AuditResult {
    type V = AuditView;

    open spec fn view(&self) -> AuditView {
        AuditView {
            level: self.level,
            reason: self.reason@,
            highlight: match self.highlight {
                Some(text) => Some(text@),
                None => None,
            },
        }
    }
}

/// What the patterns say of a command's verb and arguments.
#[derive(Debug, Clone, Copy)]
pub struct Findings {
    /// The arguments name a system directory or climb out of the working
    /// directory.
    pub sensitive_path: bool,
    /// The verb deletes, downloads or runs scripts.
    pub dangerous_verb: bool,
    /// The verb is a network tool.
    pub network_verb: bool,
    /// The verb is a package manager.
    pub package_manager: bool,
    /// The verb only reads.
    pub safe_verb: bool,
}

/// Verbs that delete, download or run scripts.
pub const DANGEROUS_VERBS: &'static str =
    "(?i)^(rm|del|format|rmdir|rd|curl|wget|python|node|powershell|cmd|sh|bash)$";

/// Package managers.
pub const PACKAGE_MANAGERS: &'static str = "(?i)^(npm|pip|cargo|yarn|pnpm|gem|go)$";

/// System directories and steps out of the working directory.
pub const SENSITIVE_PATHS: &'static str = "(?i)(windows|system32|/etc/|/var/|/root/|\\.\\./)";

/// Network tools.
pub const NET_VERBS: &'static str = "(?i)^(ping|net|ipconfig|ifconfig|ssh|scp|ftp)$";

/// Verbs that only read.
pub const SAFE_VERBS: &'static str = "(?i)^(ls|dir|echo|cat|type|git|pwd|whoami|date|time)$";

/// The words that `shlex::split` makes of a line, or `None` where it finds
/// the line erroneous (an unclosed quote, a trailing backslash).
pub uninterp spec fn shell_words(line: Seq<char>) -> Option<Seq<Seq<char>>>;

/// Whether the regular expression `pattern` matches somewhere in `text`, as
/// the `regex` crate decides it, or `None` where it does not accept the
/// pattern.
pub uninterp spec fn pattern_matches(pattern: Seq<char>, text: Seq<char>) -> Option<bool>;

/// `shlex::split`: the words of the line, each as an owned string, or `None`.
#[verifier::external_body]
fn split_words(line: &str) -> (words: Option<Vec<String>>)
    ensures
        words is Some <==> shell_words(line@) is Some,
        words is Some ==> words->0@.len() == shell_words(line@)->0.len(),
        words is Some ==> forall|i: int|
            0 <= i < words->0@.len() ==> (#[trigger] words->0@[i])@ == shell_words(line@)->0[i],
{
    shlex::split(line)
}

/// `Regex::new`, then `Regex::is_match` on the compiled expression: whether
/// the pattern matches somewhere in the text, or `None` where the pattern is
/// refused.
#[verifier::external_body]
fn is_match(pattern: &str, text: &str) -> (hit: Option<bool>)
    ensures
        hit == pattern_matches(pattern@, text@),
{
    match regex::Regex::new(pattern) {
        Ok(re) => Some(re.is_match(text)),
        Err(_) => None,
    }
}

/// Whether `c` is white space: a character with the Unicode property
/// `White_Space`.
pub open spec fn is_space(c: char) -> bool {
    let u = c as u32;
    ||| 0x09 <= u <= 0x0D
    ||| u == 0x20
    ||| u == 0x85
    ||| u == 0xA0
    ||| u == 0x1680
    ||| 0x2000 <= u <= 0x200A
    ||| u == 0x2028
    ||| u == 0x2029
    ||| u == 0x202F
    ||| u == 0x205F
    ||| u == 0x3000
}

/// `s` without the white space at its start.
pub open spec fn trim_start(s: Seq<char>) -> Seq<char>
    decreases s.len(),
{
    if s.len() > 0 && is_space(s[0]) {
        trim_start(s.drop_first())
    } else {
        s
    }
}

/// `s` without the white space at its end.
pub open spec fn trim_end(s: Seq<char>) -> Seq<char>
    decreases s.len(),
{
    if s.len() > 0 && is_space(s.last()) {
        trim_end(s.drop_last())
    } else {
        s
    }
}

/// `s` without the white space at its start and at its end.
pub open spec fn trimmed(s: Seq<char>) -> Seq<char> {
    trim_end(trim_start(s))
}

/// Whether `pattern` stands in `text` at position `at`.
pub open spec fn occurs_at(text: Seq<char>, pattern: Seq<char>, at: int) -> bool {
    0 <= at && at + pattern.len() <= text.len() && text.subrange(at, at + pattern.len())
        == pattern
}

/// Whether `pattern` stands somewhere in `text`.
pub open spec fn contains_text(text: Seq<char>, pattern: Seq<char>) -> bool {
    exists|at: int| occurs_at(text, pattern, at)
}

/// The first `upto` words joined by single spaces.
pub open spec fn joined_upto(words: Seq<Seq<char>>, upto: nat) -> Seq<char>
    decreases upto,
{
    if upto == 0 {
        Seq::empty()
    } else if upto == 1 {
        words[0]
    } else {
        joined_upto(words, (upto - 1) as nat) + seq![' '] + words[upto - 1]
    }
}

/// The words joined by single spaces.
pub open spec fn joined(words: Seq<Seq<char>>) -> Seq<char> {
    joined_upto(words, words.len())
}

/// Whether the command is a recursive delete: the verb is `rm` or `del`, the
/// arguments hold a recursive flag and name a path or a wildcard.
pub open spec fn recursive_delete(verb: Seq<char>, full_args: Seq<char>) -> bool {
    &&& (verb == "rm"@ || verb == "del"@)
    &&& (contains_text(full_args, "-rf"@) || contains_text(full_args, "-fr"@) || contains_text(
        full_args,
        "/s"@,
    ))
    &&& (contains_text(full_args, "/"@) || contains_text(full_args, "*"@) || contains_text(
        full_args,
        "."@,
    ))
}

/// The verdict on a command with the given verb and arguments. The first
/// rule that applies decides.
pub open spec fn verdict(
    command: Seq<char>,
    verb: Seq<char>,
    full_args: Seq<char>,
    findings: Findings,
) -> AuditView {
    if findings.sensitive_path {
        AuditView {
            level: RiskLevel::Block,
            reason: "检测到对系统敏感目录或越权路径的访问"@,
            highlight: Some(full_args),
        }
    } else if verb == "format"@ {
        AuditView {
            level: RiskLevel::Block,
            reason: "检测到高危格式化操作，已被拦截"@,
            highlight: Some(command),
        }
    } else if recursive_delete(verb, full_args) {
        AuditView {
            level: RiskLevel::Block,
            reason: "检测到极高风险的递归删除操作"@,
            highlight: Some(command),
        }
    } else if findings.dangerous_verb {
        AuditView {
            level: RiskLevel::Warn,
            reason: "检测到高风险操作命令: "@ + verb,
            highlight: Some(verb),
        }
    } else if findings.network_verb {
        AuditView {
            level: RiskLevel::Warn,
            reason: "检测到网络相关操作: "@ + verb,
            highlight: Some(verb),
        }
    } else if findings.package_manager {
        AuditView {
            level: RiskLevel::Warn,
            reason: "检测到包管理操作: "@ + verb,
            highlight: Some(verb),
        }
    } else if findings.safe_verb {
        AuditView { level: RiskLevel::Safe, reason: "安全的基础指令"@, highlight: None }
    } else {
        AuditView { level: RiskLevel::Notice, reason: "常规操作指令"@, highlight: None }
    }
}

/// What the patterns find in a verb and its arguments.
pub open spec fn findings_of(verb: Seq<char>, full_args: Seq<char>) -> Findings {
    Findings {
        sensitive_path: pattern_matches(SENSITIVE_PATHS@, full_args) == Some(true),
        dangerous_verb: pattern_matches(DANGEROUS_VERBS@, verb) == Some(true),
        network_verb: pattern_matches(NET_VERBS@, verb) == Some(true),
        package_manager: pattern_matches(PACKAGE_MANAGERS@, verb) == Some(true),
        safe_verb: pattern_matches(SAFE_VERBS@, verb) == Some(true),
    }
}

/// The verdict on an empty command.
pub open spec fn empty_verdict() -> AuditView {
    AuditView { level: RiskLevel::Safe, reason: "空指令"@, highlight: None }
}

/// The verdict on a command, given the words that the shell splitter made of
/// its trimmed text.
pub open spec fn verdict_on_words(command: Seq<char>, words: Option<Seq<Seq<char>>>) -> AuditView {
    match words {
        None => AuditView {
            level: RiskLevel::Warn,
            reason: "指令语法解析失败，可能包含复杂的引号或特殊字符"@,
            highlight: Some(trimmed(command)),
        },
        Some(parts) => if parts.len() == 0 {
            empty_verdict()
        } else {
            let verb = parts[0];
            let full_args = joined(parts.skip(1));
            verdict(command, verb, full_args, findings_of(verb, full_args))
        },
    }
}

/// The verdict on a command.
pub open spec fn audited(command: Seq<char>) -> AuditView {
    if trimmed(command).len() == 0 {
        empty_verdict()
    } else {
        verdict_on_words(command, shell_words(trimmed(command)))
    }
}

/// Whether a character is white space.
fn is_space_char(c: char) -> (space: bool)
    ensures
        space == is_space(c),
{
    let u = c as u32;
    (0x09 <= u && u <= 0x0D) || u == 0x20 || u == 0x85 || u == 0xA0 || u == 0x1680 || (0x2000 <= u
        && u <= 0x200A) || u == 0x2028 || u == 0x2029 || u == 0x202F || u == 0x205F || u == 0x3000
}

/// A text without the white space at its start and at its end.
pub fn trim(text: &str) -> (inner: String)
    ensures
        inner@ == trimmed(text@),
{
    let n = text.unicode_len();
    let mut start: usize = 0;
    proof {
        assert(text@.subrange(0, n as int) =~= text@);
    }
    while start < n && is_space_char(text.get_char(start))
        invariant
            n == text@.len(),
            start <= n,
            trim_start(text@) == trim_start(text@.subrange(start as int, n as int)),
        decreases n - start,
    {
        proof {
            let rest = text@.subrange(start as int, n as int);
            assert(rest[0] == text@[start as int]);
            assert(rest.drop_first() =~= text@.subrange(start + 1, n as int));
        }
        start = start + 1;
    }
    proof {
        let rest = text@.subrange(start as int, n as int);
        if start < n {
            assert(rest[0] == text@[start as int]);
        }
        assert(trim_start(text@) == rest);
        assert(rest.subrange(0, rest.len() as int) =~= rest);
    }
    let mut end: usize = n;
    while end > start && is_space_char(text.get_char(end - 1))
        invariant
            n == text@.len(),
            start <= end <= n,
            trim_end(text@.subrange(start as int, n as int)) == trim_end(
                text@.subrange(start as int, end as int),
            ),
        decreases end - start,
    {
        proof {
            let part = text@.subrange(start as int, end as int);
            assert(part.last() == text@[end - 1]);
            assert(part.drop_last() =~= text@.subrange(start as int, end - 1));
        }
        end = end - 1;
    }
    proof {
        let part = text@.subrange(start as int, end as int);
        if end > start {
            assert(part.last() == text@[end - 1]);
        }
        assert(trim_end(part) == part);
    }
    String::from_str(text.substring_char(start, end))
}

/// Whether `pattern` stands in `text` at position `at`.
fn stands_at(text: &str, pattern: &str, at: usize, text_len: usize, pattern_len: usize) -> (found:
    bool)
    requires
        text_len == text@.len(),
        pattern_len == pattern@.len(),
        at + pattern_len <= text_len,
    ensures
        found == occurs_at(text@, pattern@, at as int),
{
    let mut k: usize = 0;
    while k < pattern_len
        invariant
            text_len == text@.len(),
            pattern_len == pattern@.len(),
            at + pattern_len <= text_len,
            k <= pattern_len,
            forall|j: int| 0 <= j < k ==> text@[at + j] == pattern@[j],
        decreases pattern_len - k,
    {
        if text.get_char(at + k) != pattern.get_char(k) {
            proof {
                let part = text@.subrange(at as int, at + pattern_len);
                assert(part[k as int] == text@[at + k]);
            }
            return false;
        }
        k = k + 1;
    }
    proof {
        assert(text@.subrange(at as int, at + pattern_len) =~= pattern@);
    }
    true
}

/// Whether `pattern` stands somewhere in `text`.
pub fn contains(text: &str, pattern: &str) -> (found: bool)
    ensures
        found == contains_text(text@, pattern@),
{
    let n = text.unicode_len();
    let m = pattern.unicode_len();
    if m > n {
        return false;
    }
    let last = n - m;
    let mut at: usize = 0;
    while at < last
        invariant
            n == text@.len(),
            m == pattern@.len(),
            last == n - m,
            at <= last,
            forall|j: int| 0 <= j < at ==> !occurs_at(text@, pattern@, j),
        decreases last - at,
    {
        if stands_at(text, pattern, at, n, m) {
            return true;
        }
        at = at + 1;
    }
    stands_at(text, pattern, last, n, m)
}

/// Whether two texts are the same.
pub fn same_text(a: &str, b: &str) -> (same: bool)
    ensures
        same == (a@ == b@),
{
    let n = a.unicode_len();
    if n != b.unicode_len() {
        return false;
    }
    let same = stands_at(a, b, 0, n, n);
    proof {
        assert(a@.subrange(0, n as int) =~= a@);
    }
    same
}

/// The words from position `from` on, joined by single spaces.
pub fn join_from(words: &Vec<String>, from: usize) -> (line: String)
    requires
        from <= words@.len(),
    ensures
        line@ == joined(Seq::new((words@.len() - from) as nat, |i: int| words@[from + i]@)),
{
    let ghost rest = Seq::new((words@.len() - from) as nat, |i: int| words@[from + i]@);
    let mut line = String::new();
    let mut i: usize = from;
    while i < words.len()
        invariant
            from <= i <= words@.len(),
            rest == Seq::new((words@.len() - from) as nat, |i: int| words@[from + i]@),
            line@ == joined_upto(rest, (i - from) as nat),
        decreases words@.len() - i,
    {
        if i > from {
            line.append(" ");
            proof {
                reveal_strlit(" ");
                assert(" "@ =~= seq![' ']);
            }
        }
        line.append(words[i].as_str());
        proof {
            assert(rest[i - from] == words@[i as int]@);
            if i == from {
                assert(line@ =~= rest[0]);
            }
        }
        i = i + 1;
    }
    line
}

/// Judges a command whose verb, arguments and pattern findings are given.
pub fn classify(command: &str, verb: &str, full_args: &str, findings: &Findings) -> (result:
    AuditResult)
    ensures
        result@ == verdict(command@, verb@, full_args@, *findings),
{
    if findings.sensitive_path {
        return AuditResult {
            level: RiskLevel::Block,
            reason: String::from_str("检测到对系统敏感目录或越权路径的访问"),
            highlight: Some(String::from_str(full_args)),
        };
    }
    if same_text(verb, "format") {
        return AuditResult {
            level: RiskLevel::Block,
            reason: String::from_str("检测到高危格式化操作，已被拦截"),
            highlight: Some(String::from_str(command)),
        };
    }
    if (same_text(verb, "rm") || same_text(verb, "del")) && (contains(full_args, "-rf") || contains(
        full_args,
        "-fr",
    ) || contains(full_args, "/s")) && (contains(full_args, "/") || contains(full_args, "*")
        || contains(full_args, ".")) {
        return AuditResult {
            level: RiskLevel::Block,
            reason: String::from_str("检测到极高风险的递归删除操作"),
            highlight: Some(String::from_str(command)),
        };
    }
    if findings.dangerous_verb {
        return AuditResult {
            level: RiskLevel::Warn,
            reason: String::from_str("检测到高风险操作命令: ").concat(verb),
            highlight: Some(String::from_str(verb)),
        };
    }
    if findings.network_verb {
        return AuditResult {
            level: RiskLevel::Warn,
            reason: String::from_str("检测到网络相关操作: ").concat(verb),
            highlight: Some(String::from_str(verb)),
        };
    }
    if findings.package_manager {
        return AuditResult {
            level: RiskLevel::Warn,
            reason: String::from_str("检测到包管理操作: ").concat(verb),
            highlight: Some(String::from_str(verb)),
        };
    }
    if findings.safe_verb {
        return AuditResult {
            level: RiskLevel::Safe,
            reason: String::from_str("安全的基础指令"),
            highlight: None,
        };
    }
    AuditResult {
        level: RiskLevel::Notice,
        reason: String::from_str("常规操作指令"),
        highlight: None,
    }
}

/// Whether `pattern` is accepted and matches somewhere in `text`.
fn finds(pattern: &str, text: &str) -> (hit: bool)
    ensures
        hit == (pattern_matches(pattern@, text@) == Some(true)),
{
    match is_match(pattern, text) {
        Some(hit) => hit,
        None => false,
    }
}

/// Judges a command whose trimmed text has been split into words, or could
/// not be split.
pub fn audit_words(command: &str, words: Option<Vec<String>>) -> (result: AuditResult)
    ensures
        result@ == verdict_on_words(
            command@,
            match words {
                Some(parts) => Some(Seq::new(parts@.len(), |i: int| parts@[i]@)),
                None => None,
            },
        ),
{
    match words {
        None => AuditResult {
            level: RiskLevel::Warn,
            reason: String::from_str("指令语法解析失败，可能包含复杂的引号或特殊字符"),
            highlight: Some(trim(command)),
        },
        Some(parts) => {
            if parts.len() == 0 {
                return AuditResult {
                    level: RiskLevel::Safe,
                    reason: String::from_str("空指令"),
                    highlight: None,
                };
            }
            let ghost texts = Seq::new(parts@.len(), |i: int| parts@[i]@);
            let verb = parts[0].as_str();
            let full_args = join_from(&parts, 1);
            proof {
                assert(texts.skip(1) =~= Seq::new(
                    (parts@.len() - 1) as nat,
                    |i: int| parts@[1 + i]@,
                ));
            }
            let findings = Findings {
                sensitive_path: finds(SENSITIVE_PATHS, full_args.as_str()),
                dangerous_verb: finds(DANGEROUS_VERBS, verb),
                network_verb: finds(NET_VERBS, verb),
                package_manager: finds(PACKAGE_MANAGERS, verb),
                safe_verb: finds(SAFE_VERBS, verb),
            };
            classify(command, verb, full_args.as_str(), &findings)
        },
    }
}

/// Judges a command.
pub fn internal_audit(command: &str) -> (result: AuditResult)
    ensures
        result@ == audited(command@),
{
    let inner = trim(command);
    if inner.as_str().unicode_len() == 0 {
        return AuditResult {
            level: RiskLevel::Safe,
            reason: String::from_str("空指令"),
            highlight: None,
        };
    }
    let words = split_words(inner.as_str());
    proof {
        if words is Some {
            let parts = words->0;
            assert(Seq::new(parts@.len(), |i: int| parts@[i]@) =~= shell_words(inner@)->0);
        }
    }
    audit_words(command, words)
}

} // verus!

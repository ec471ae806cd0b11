use pero_core::audit::{audit_words, classify, contains, internal_audit, trim, Findings, RiskLevel};

fn no_findings() -> Findings {
    Findings {
        sensitive_path: false,
        dangerous_verb: false,
        network_verb: false,
        package_manager: false,
        safe_verb: false,
    }
}

#[test]
fn test_safe_commands() {
    let res = internal_audit("ls -la");
    assert_eq!(res.level, RiskLevel::Safe);

    let res = internal_audit("echo 'hello world'");
    assert_eq!(res.level, RiskLevel::Safe);
}

#[test]
fn test_warn_commands() {
    let res = internal_audit("python script.py");
    assert_eq!(res.level, RiskLevel::Warn);
    assert_eq!(res.reason, "检测到高风险操作命令: python");

    let res = internal_audit("rm temp.txt");
    assert_eq!(res.level, RiskLevel::Warn);
}

#[test]
fn test_block_commands() {
    let res = internal_audit("cat /etc/passwd");
    assert_eq!(res.level, RiskLevel::Block);

    let res = internal_audit("rm -rf /");
    assert_eq!(res.level, RiskLevel::Block);
}

#[test]
fn test_path_traversal() {
    let res = internal_audit("cat ../../secret.txt");
    assert_eq!(res.level, RiskLevel::Block);
}

#[test]
fn empty_and_blank_commands_are_safe() {
    for command in ["", "   ", "\t\n", "\u{3000}"] {
        let res = internal_audit(command);
        assert_eq!(res.level, RiskLevel::Safe);
        assert_eq!(res.reason, "空指令");
        assert_eq!(res.highlight, None);
    }
}

#[test]
fn unbalanced_quote_is_a_warning_on_the_trimmed_text() {
    let res = internal_audit("  echo 'open  ");
    assert_eq!(res.level, RiskLevel::Warn);
    assert_eq!(res.reason, "指令语法解析失败，可能包含复杂的引号或特殊字符");
    assert_eq!(res.highlight, Some("echo 'open".to_string()));
}

#[test]
fn sensitive_path_highlights_the_joined_arguments() {
    let res = internal_audit("type   C:\\Windows\\win.ini   now");
    assert_eq!(res.level, RiskLevel::Block);
    assert_eq!(res.reason, "检测到对系统敏感目录或越权路径的访问");
    assert_eq!(res.highlight, Some("C:Windowswin.ini now".to_string()));
}

#[test]
fn format_is_blocked_with_the_whole_command() {
    let res = internal_audit(" format D: ");
    assert_eq!(res.level, RiskLevel::Block);
    assert_eq!(res.reason, "检测到高危格式化操作，已被拦截");
    assert_eq!(res.highlight, Some(" format D: ".to_string()));
}

#[test]
fn recursive_delete_is_blocked() {
    let res = internal_audit("rm -rf ./build");
    assert_eq!(res.level, RiskLevel::Block);
    assert_eq!(res.reason, "检测到极高风险的递归删除操作");
    assert_eq!(res.highlight, Some("rm -rf ./build".to_string()));
    let res = internal_audit("del /s *");
    assert_eq!(res.level, RiskLevel::Block);
    // A recursive flag without a path, a wildcard or a dot is only a warning.
    let res = internal_audit("rm -rf build");
    assert_eq!(res.level, RiskLevel::Warn);
}

#[test]
fn network_and_package_verbs_warn() {
    let res = internal_audit("ssh host");
    assert_eq!(res.level, RiskLevel::Warn);
    assert_eq!(res.reason, "检测到网络相关操作: ssh");
    assert_eq!(res.highlight, Some("ssh".to_string()));
    let res = internal_audit("CARGO build");
    assert_eq!(res.level, RiskLevel::Warn);
    assert_eq!(res.reason, "检测到包管理操作: CARGO");
}

#[test]
fn unknown_verbs_get_a_notice() {
    let res = internal_audit("make all");
    assert_eq!(res.level, RiskLevel::Notice);
    assert_eq!(res.reason, "常规操作指令");
    assert_eq!(res.highlight, None);
    // A verb is matched as a whole word.
    let res = internal_audit("lsof");
    assert_eq!(res.level, RiskLevel::Notice);
}

#[test]
fn classify_applies_the_first_rule_that_fits() {
    let mut findings = no_findings();
    findings.safe_verb = true;
    findings.dangerous_verb = true;
    let res = classify("x y", "x", "y", &findings);
    assert_eq!(res.level, RiskLevel::Warn);
    assert_eq!(res.reason, "检测到高风险操作命令: x");
    findings.sensitive_path = true;
    let res = classify("x y", "x", "y", &findings);
    assert_eq!(res.level, RiskLevel::Block);
    assert_eq!(res.highlight, Some("y".to_string()));
    let res = classify("format c:", "format", "c:", &no_findings());
    assert_eq!(res.level, RiskLevel::Block);
    let res = classify("tool", "tool", "", &no_findings());
    assert_eq!(res.level, RiskLevel::Notice);
}

#[test]
fn audit_words_handles_the_splitter_outcomes() {
    let res = audit_words(" bad ' ", None);
    assert_eq!(res.level, RiskLevel::Warn);
    assert_eq!(res.highlight, Some("bad '".to_string()));
    let res = audit_words("", Some(Vec::new()));
    assert_eq!(res.level, RiskLevel::Safe);
    let res = audit_words("git status", Some(vec!["git".to_string(), "status".to_string()]));
    assert_eq!(res.level, RiskLevel::Safe);
    assert_eq!(res.reason, "安全的基础指令");
}

#[test]
fn trim_agrees_with_the_standard_library() {
    for text in ["", " a ", "\t\r\n x y \u{a0}\u{2003}", "none", "\u{1680}\u{2028}q\u{205f}", " \u{200b} "] {
        assert_eq!(trim(text), text.trim());
    }
}

#[test]
fn contains_agrees_with_the_standard_library() {
    let cases = [("", ""), ("abc", ""), ("abc", "c"), ("abc", "abcd"), ("a-rf", "-rf"), ("a-r-f", "-rf"), ("指令 a", "令 ")];
    for (text, pattern) in cases {
        assert_eq!(contains(text, pattern), text.contains(pattern));
    }
}

use dlc_srs::parser::{directive_of, line_trimer, Directive};

#[test]
fn line_with_everything() {
    assert_eq!(
        line_trimer("  keyword: ads @cn  # a note"),
        (Some("keyword"), "ads", Some("cn"))
    );
}

#[test]
fn plain_domain_line() {
    assert_eq!(line_trimer("example.com"), (None, "example.com", None));
}

#[test]
fn comment_only_line() {
    assert_eq!(line_trimer("# only a comment"), (None, "", None));
    assert_eq!(line_trimer(""), (None, "", None));
}

#[test]
fn attribute_without_directive() {
    assert_eq!(line_trimer("a.com @ads"), (None, "a.com", Some("ads")));
}

#[test]
fn unicode_white_space_is_trimmed() {
    assert_eq!(
        line_trimer("\u{3000}full :\tb\u{e9}.com\u{a0}@ x "),
        (Some("full"), "b\u{e9}.com", Some("x"))
    );
}

#[test]
fn only_first_colon_splits() {
    assert_eq!(line_trimer("regexp: ^a:b$"), (Some("regexp"), "^a:b$", None));
}

#[test]
fn directives() {
    assert_eq!(directive_of(None), Directive::Suffix);
    assert_eq!(directive_of(Some("include")), Directive::Include);
    assert_eq!(directive_of(Some("domain")), Directive::Suffix);
    assert_eq!(directive_of(Some("keyword")), Directive::Keyword);
    assert_eq!(directive_of(Some("regexp")), Directive::Regex);
    assert_eq!(directive_of(Some("full")), Directive::Full);
    assert_eq!(directive_of(Some("ful")), Directive::Unknown);
    assert_eq!(directive_of(Some("")), Directive::Unknown);
}

use dlc_srs::model::{Rule, RuleKind};
use dlc_srs::parser::{classify_line, LineAction};

#[test]
fn classify_rule_lines() {
    match classify_line("keyword: ads @cn # note") {
        LineAction::Add(k, c, a) => {
            assert_eq!(k, RuleKind::Keyword);
            assert_eq!(c, "ads");
            assert_eq!(a, Some("cn".to_string()));
        }
        _ => panic!("expected a rule"),
    }
    match classify_line("example.com") {
        LineAction::Add(k, c, a) => {
            assert_eq!(k, RuleKind::Suffix);
            assert_eq!(c, "example.com");
            assert_eq!(a, None);
        }
        _ => panic!("expected a rule"),
    }
    match classify_line("full:a.b") {
        LineAction::Add(k, _, _) => assert_eq!(k, RuleKind::Full),
        _ => panic!("expected a rule"),
    }
    match classify_line("regexp: ^x$") {
        LineAction::Add(k, c, _) => {
            assert_eq!(k, RuleKind::Regex);
            assert_eq!(c, "^x$");
        }
        _ => panic!("expected a rule"),
    }
}

#[test]
fn classify_other_lines() {
    assert!(matches!(classify_line("   # comment"), LineAction::Skip));
    assert!(matches!(classify_line("keyword:   @cn"), LineAction::Skip));
    match classify_line("include: other") {
        LineAction::Include(p) => assert_eq!(p, "other"),
        _ => panic!("expected an include"),
    }
    match classify_line("weird: x") {
        LineAction::Unknown(d) => assert_eq!(d, "weird"),
        _ => panic!("expected an unknown directive"),
    }
}

#[test]
fn rule_add_routes_by_kind() {
    let mut r = Rule::new();
    r.add(RuleKind::Full, "a.com".to_string());
    r.add(RuleKind::Suffix, "b.com".to_string());
    r.add(RuleKind::Keyword, "k".to_string());
    r.add(RuleKind::Regex, "^r$".to_string());
    r.add(RuleKind::Keyword, "k".to_string());
    assert_eq!(r.domain, vec!["a.com".to_string()]);
    assert_eq!(r.domain_suffix, vec!["b.com".to_string()]);
    assert_eq!(r.domain_keyword, vec!["k".to_string()]);
    assert_eq!(r.domain_regex, vec!["^r$".to_string()]);
}

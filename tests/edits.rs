use piranha_core::edit::{Edit, InstantiatedRule};
use piranha_core::matches::{Match, Range};
use piranha_core::source_code_unit::{Candidates, NextRules, SourceCodeUnit};

fn unit(code: &str) -> SourceCodeUnit {
    SourceCodeUnit::new(code.to_string())
}

fn pairs(kv: &[(&str, &str)]) -> Vec<(String, String)> {
    kv.iter().map(|(k, v)| (k.to_string(), v.to_string())).collect()
}

fn mk_match(text: &str, start: usize, end: usize) -> Match {
    Match {
        matched_string: text.to_string(),
        range: Range { start_byte: start, end_byte: end },
        matches: Vec::new(),
        indentations: Vec::new(),
        associated_ranges: Vec::new(),
    }
}

fn rule(name: &str, replace: &str) -> InstantiatedRule {
    InstantiatedRule { name: name.to_string(), replace: replace.to_string() }
}

#[test]
fn instantiate_without_markers_is_identity() {
    let u = unit("");
    let t = "return x + y;\n  // done";
    let r = u.instantiate(t.to_string(), &pairs(&[("a", "1"), ("b", "2")]), &pairs(&[("a", "  ")]));
    assert_eq!(r, t);
}

#[test]
fn instantiate_plain_replaces_both_spellings_everywhere() {
    let u = unit("");
    let r = u.instantiate("@x + :[x] * @x".to_string(), &pairs(&[("x", "foo()")]), &Vec::new());
    assert_eq!(r, "foo() + foo() * foo()");
}

#[test]
fn instantiate_plain_does_not_reindent() {
    let u = unit("");
    let r = u.instantiate("  @x".to_string(), &pairs(&[("x", "a\n  b")]), &Vec::new());
    assert_eq!(r, "  a\n  b");
}

#[test]
fn instantiate_unknown_tag_left_as_is() {
    let u = unit("");
    let r = u.instantiate("@y and :[y]".to_string(), &pairs(&[("x", "1")]), &Vec::new());
    assert_eq!(r, "@y and :[y]");
}

#[test]
fn instantiate_multiline_reindents_to_destination_column() {
    let u = unit("");
    let template = "fn f() {\n    @body\n}";
    let sub = "if x {\n        y();\n    }";
    let r = u.instantiate(template.to_string(), &pairs(&[("body", sub)]), &pairs(&[("body", "    ")]));
    assert_eq!(r, "fn f() {\n    if x {\n        y();\n    }\n}");
}

#[test]
fn instantiate_strip_prefix_only_where_it_prefixes() {
    let u = unit("");
    let template = "  :[b]";
    let sub = "a\n    b\n  c";
    let r = u.instantiate(template.to_string(), &pairs(&[("b", sub)]), &pairs(&[("b", "    ")]));
    assert_eq!(r, "  a\n  b\n    c");
}

#[test]
fn instantiate_indented_tag_every_occurrence() {
    let u = unit("");
    let template = "@s\n\t@s";
    let r = u.instantiate(template.to_string(), &pairs(&[("s", "p\nq")]), &pairs(&[("s", "")]));
    assert_eq!(r, "p\nq\n\tp\n\tq");
}

#[test]
fn instantiate_lines_drop_carriage_return_and_final_newline() {
    let u = unit("");
    let r = u.instantiate("@s".to_string(), &pairs(&[("s", "a\r\nb\n")]), &pairs(&[("s", "")]));
    assert_eq!(r, "a\nb");
}

#[test]
fn select_rightmost_and_under_bound() {
    let code = "0123456789012345678901234567890123456789";
    let u = unit(code);
    let ms = vec![mk_match("b", 20, 21), mk_match("c", 35, 36), mk_match("a", 10, 11)];
    let r = rule("r", "z");
    let e = u.get_edit(&r, ms.clone(), None).unwrap();
    assert_eq!(e.p_match().range.start_byte, 35);
    let e = u.get_edit(&r, ms.clone(), Some(30)).unwrap();
    assert_eq!(e.p_match().range.start_byte, 20);
    assert!(u.get_edit(&r, ms, Some(5)).is_none());
}

#[test]
fn select_none_without_matches() {
    let u = unit("abc");
    assert!(u.get_edit(&rule("r", "z"), Vec::new(), None).is_none());
}

#[test]
fn get_edit_instantiates_with_captures() {
    let code = "let a = foo(b);";
    let u = unit(code);
    let mut m = mk_match("foo(b)", 8, 14);
    m.matches = pairs(&[("arg", "b")]);
    let e = u.get_edit(&rule("unwrap", "@arg"), vec![m], None).unwrap();
    assert_eq!(e.replacement_string(), "b");
    assert_eq!(e.matched_rule(), "unwrap");
    assert_eq!(e.p_match().range, Range { start_byte: 8, end_byte: 14 });
}

fn edit_with(replacement: &str) -> Edit {
    Edit::new(mk_match("x", 0, 1), replacement.to_string(), "r".to_string(), "x")
}

#[test]
fn is_delete_on_blank_replacements() {
    assert!(edit_with("").is_delete());
    assert!(edit_with("   ").is_delete());
    assert!(edit_with("\t\n\u{3000}").is_delete());
    assert!(!edit_with("x").is_delete());
    assert!(!edit_with("  x  ").is_delete());
}

#[test]
fn deletion_grows_over_associated_range() {
    let code = "f(a, b, c)";
    let mut m = mk_match("b", 5, 6);
    m.associated_ranges = vec![Range { start_byte: 6, end_byte: 7 }, Range { start_byte: 2, end_byte: 3 }];
    let e = Edit::new(m, String::new(), "drop".to_string(), code);
    assert_eq!(e.p_match().range, Range { start_byte: 5, end_byte: 7 });
    assert_eq!(e.p_match().matched_string, "b,");
}

#[test]
fn update_keeps_range() {
    let code = "f(a, b, c)";
    let mut m = mk_match("b", 5, 6);
    m.associated_ranges = vec![Range { start_byte: 6, end_byte: 7 }];
    let e = Edit::new(m, "q".to_string(), "upd".to_string(), code);
    assert_eq!(e.p_match().range, Range { start_byte: 5, end_byte: 6 });
    assert_eq!(e.p_match().matched_string, "b");
}

#[test]
fn delete_range_reads_code() {
    let e = Edit::delete_range("héllo world", Range { start_byte: 0, end_byte: 6 });
    assert_eq!(e.p_match().matched_string, "héllo");
    assert_eq!(e.matched_rule(), "Delete Range");
    assert!(e.is_delete());
}

fn cands(name: &str, per: Vec<Vec<Match>>) -> Candidates {
    Candidates { rule: rule(name, name), per_ancestor: per }
}

fn shape() -> Vec<Candidates> {
    let at_a = mk_match("a", 10, 20);
    let at_b = mk_match("b", 0, 30);
    vec![cands("R1", vec![vec![], vec![at_b]]), cands("R2", vec![vec![at_a], vec![]])]
}

#[test]
fn escalation_rule_priority() {
    let u = unit("0123456789012345678901234567890123456789");
    let nr = NextRules { parent: shape(), parent_iterative: Vec::new() };
    let e = u.get_edit_for_ancestors(2, nr).unwrap();
    assert_eq!(e.matched_rule(), "R1");
    assert_eq!(e.p_match().range, Range { start_byte: 0, end_byte: 30 });
}

#[test]
fn escalation_distance_priority() {
    let u = unit("0123456789012345678901234567890123456789");
    let nr = NextRules { parent: Vec::new(), parent_iterative: shape() };
    let e = u.get_edit_for_ancestors(2, nr).unwrap();
    assert_eq!(e.matched_rule(), "R2");
    assert_eq!(e.p_match().range, Range { start_byte: 10, end_byte: 20 });
}

#[test]
fn escalation_parent_bucket_first() {
    let u = unit("0123456789012345678901234567890123456789");
    let nr = NextRules { parent: shape(), parent_iterative: shape() };
    let e = u.get_edit_for_ancestors(2, nr).unwrap();
    assert_eq!(e.matched_rule(), "R1");
}

#[test]
fn escalation_nothing_matches() {
    let u = unit("0123456789");
    let nr = NextRules {
        parent: vec![cands("R1", vec![vec![], vec![]])],
        parent_iterative: vec![cands("R2", vec![vec![]])],
    };
    assert!(u.get_edit_for_ancestors(4, nr).is_none());
}

#[test]
fn escalation_depth_truncates_context() {
    let u = unit("0123456789012345678901234567890123456789");
    let nr = NextRules { parent: vec![shape().remove(0)], parent_iterative: Vec::new() };
    assert!(u.get_edit_for_ancestors(1, nr).is_none());
    let nr = NextRules { parent: shape(), parent_iterative: Vec::new() };
    let e = u.get_edit_for_ancestors(1, nr).unwrap();
    assert_eq!(e.matched_rule(), "R2");
}

#[test]
fn repr_shows_fields() {
    let e = edit_with("y");
    let r = e.__repr__();
    assert!(r.contains("replacement_string: \"y\""));
    assert_eq!(e.__str__(), r);
}

#[test]
fn kind_label_follows_replacement() {
    assert_eq!(edit_with("").kind_label(), "Delete code");
    assert!(!edit_with("").is_update());
    assert_eq!(edit_with(" ").kind_label(), "Update code");
    assert!(edit_with("x").is_update());
}

#[test]
fn instantiate_indented_scan_does_not_rescan_insertion() {
    let u = unit("");
    let r = u.instantiate("@@xx".to_string(), &pairs(&[("x", "")]), &pairs(&[("x", "")]));
    assert_eq!(r, "@x");
}

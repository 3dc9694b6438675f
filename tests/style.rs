use stylist::ast::{scopes_eq, Scope, ScopeContent, Scopes};
use stylist::parser::{parse, ParseError, ParseErrorKind};
use stylist::registry::RegistryError;
use stylist::render::to_css;
use stylist::style::{create_action, CreateAction, Style, StyleError, StyleRegistry};

fn no_bindings() -> Vec<(String, String)> {
    Vec::new()
}

fn decl(property: &str, value: &str) -> ScopeContent {
    ScopeContent::Declaration { property: property.to_string(), value: value.to_string() }
}

fn sample_scopes() -> Scopes {
    Scopes {
        scopes: vec![
            Scope { selector: String::new(), contents: vec![decl("color", "red"), decl("padding", "0")] },
            Scope { selector: ":hover".to_string(), contents: vec![decl("color", "blue")] },
        ],
    }
}

fn compile(reg: &mut StyleRegistry, css: &str, suffix: &str) -> (Style, bool) {
    Style::create(reg, "btn", css, &no_bindings(), suffix).expect("compile")
}

#[test]
fn test_simple() {
    let mut reg = StyleRegistry::new();
    Style::try_from_scopes(&mut reg, sample_scopes(), "abc123").expect("Failed to create Style.");
}

#[test]
fn try_from_scopes_uses_default_prefix() {
    let mut reg = StyleRegistry::new();
    let (s, fresh) = Style::try_from_scopes(&mut reg, sample_scopes(), "abc123").unwrap();
    assert!(fresh);
    assert_eq!(s.get_class_name(), "stylist-abc123");
    assert_eq!(s.get_style_str(), ".stylist-abc123 { color: red; padding: 0; }\n.stylist-abc123:hover { color: blue; }");
}

#[test]
fn root_declaration_renders_under_class() {
    let mut reg = StyleRegistry::new();
    let (s, fresh) = compile(&mut reg, "color: red;", "abc123");
    assert!(fresh);
    assert_eq!(s.get_class_name(), "btn-abc123");
    assert_eq!(s.get_style_str(), ".btn-abc123 { color: red; }");
}

#[test]
fn self_selector_attaches_pseudo_class() {
    let mut reg = StyleRegistry::new();
    let (s, _) = compile(&mut reg, "&:hover { color: blue; }", "abc123");
    assert_eq!(s.get_style_str(), ".btn-abc123:hover { color: blue; }");
}

#[test]
fn interpolated_values_are_part_of_the_key() {
    let mut reg = StyleRegistry::new();
    let green = vec![("c".to_string(), "green".to_string())];
    let blue = vec![("c".to_string(), "blue".to_string())];
    let (g, fresh_g) = Style::create(&mut reg, "btn", "color: ${c};", &green, "abc123").unwrap();
    assert!(fresh_g);
    assert_eq!(g.get_style_str(), ".btn-abc123 { color: green; }");
    let (b, fresh_b) = Style::create(&mut reg, "btn", "color: ${c};", &blue, "def456").unwrap();
    assert!(fresh_b);
    assert_ne!(g.get_class_name(), b.get_class_name());
    assert_eq!(b.get_style_str(), ".btn-def456 { color: blue; }");
    assert_eq!(reg.len(), 2);
}

#[test]
fn missing_colon_is_reported() {
    let mut reg = StyleRegistry::new();
    let r = Style::create(&mut reg, "btn", "color red;", &no_bindings(), "abc123");
    match r {
        Err(StyleError::Parse(e)) => assert_eq!(e, ParseError { kind: ParseErrorKind::MissingColon, position: 0 }),
        _ => panic!("expected a parse error"),
    }
    assert_eq!(reg.len(), 0);
}

#[test]
fn equal_trees_share_one_artifact() {
    let mut reg = StyleRegistry::new();
    let (a, fresh_a) = compile(&mut reg, "color: red;", "abc123");
    let (b, fresh_b) = compile(&mut reg, "  color:red ;\n", "zzz999");
    assert!(fresh_a);
    assert!(!fresh_b);
    assert_eq!(a.get_class_name(), b.get_class_name());
    assert_eq!(reg.len(), 1);
}

#[test]
fn distinct_trees_get_distinct_classes() {
    let mut reg = StyleRegistry::new();
    let (a, _) = compile(&mut reg, "color: red;", "abc123");
    let (b, _) = compile(&mut reg, "color: blue;", "def456");
    assert_ne!(a.get_class_name(), b.get_class_name());
}

#[test]
fn taken_class_name_is_refused() {
    let mut reg = StyleRegistry::new();
    let _ = compile(&mut reg, "color: red;", "abc123");
    let r = Style::create(&mut reg, "btn", "color: blue;", &no_bindings(), "abc123");
    assert!(matches!(r, Err(StyleError::Registry(RegistryError::ClassNameTaken))));
    assert_eq!(reg.len(), 1);
}

#[test]
fn rendered_text_is_stable() {
    let mut reg = StyleRegistry::new();
    let (a, _) = compile(&mut reg, "color: red; a { margin: 0; }", "abc123");
    let first = a.get_style_str().to_string();
    let second = a.get_style_str().to_string();
    assert_eq!(first, second);
    let (b, _) = compile(&mut reg, "color: red; a { margin: 0; }", "other");
    assert_eq!(b.get_style_str(), first);
}

#[test]
fn last_release_unmounts_once() {
    let mut reg = StyleRegistry::new();
    let mut handles = Vec::new();
    for _ in 0..3 {
        handles.push(compile(&mut reg, "color: red;", "abc123").0);
    }
    let last = handles.pop().unwrap();
    for h in handles {
        assert!(!reg.release(h));
    }
    assert_eq!(reg.len(), 1);
    assert!(reg.release(last));
    assert_eq!(reg.len(), 0);
}

#[test]
fn repeated_requests_mount_once() {
    let mut reg = StyleRegistry::new();
    let mut mounts = 0;
    let mut names = Vec::new();
    for k in 0..4 {
        let (s, fresh) = compile(&mut reg, "color: red;", &format!("s{}", k));
        if fresh {
            mounts += 1;
        }
        names.push(s.get_class_name().to_string());
    }
    assert_eq!(mounts, 1);
    assert!(names.iter().all(|n| n == "btn-s0"));
    assert_eq!(reg.len(), 1);
}

#[test]
fn unregister_detaches_but_keeps_handles() {
    let mut reg = StyleRegistry::new();
    let (a, _) = compile(&mut reg, "color: red;", "abc123");
    a.unregister(&mut reg);
    let (b, fresh) = compile(&mut reg, "color: red;", "def456");
    assert!(fresh);
    assert_eq!(b.get_class_name(), "btn-def456");
    assert_eq!(a.get_style_str(), ".btn-abc123 { color: red; }");
    assert_eq!(reg.len(), 2);
    assert!(reg.release(a));
    assert_eq!(reg.len(), 1);
}

#[test]
fn nested_blocks_combine_selectors() {
    let mut reg = StyleRegistry::new();
    let (s, _) = compile(&mut reg, "a { b { color: red; } &.on { x: y } }", "abc123");
    assert_eq!(s.get_style_str(), ".btn-abc123 a b { color: red; }\n.btn-abc123 a.on { x: y; }");
}

#[test]
fn several_top_level_rules() {
    let mut reg = StyleRegistry::new();
    let (s, _) = compile(&mut reg, "color: red; .x { margin: 0; } :focus { color: blue }", "abc123");
    assert_eq!(s.get_style_str(), ".btn-abc123 { color: red; }\n.btn-abc123 .x { margin: 0; }\n.btn-abc123:focus { color: blue; }");
}

#[test]
fn empty_declarations_and_trailing_semicolons() {
    let src = ";; color: red;; ;";
    let a = parse(src, &no_bindings()).unwrap();
    let b = parse("color: red", &no_bindings()).unwrap();
    assert!(scopes_eq(&a, &b));
    assert_eq!(to_css(&a, &"k".to_string()), ".k { color: red; }");
}

#[test]
fn empty_source_renders_nothing() {
    let a = parse("", &no_bindings()).unwrap();
    assert_eq!(a.scopes.len(), 0);
    assert_eq!(to_css(&a, &"k".to_string()), "");
}

#[test]
fn quoted_strings_may_hold_separators() {
    let a = parse("content: \"a;b}\";", &no_bindings()).unwrap();
    assert_eq!(to_css(&a, &"k".to_string()), ".k { content: \"a;b}\"; }");
}

#[test]
fn parse_errors_have_kinds_and_positions() {
    let b = no_bindings();
    let e = |s: &str| parse(s, &b).err().unwrap();
    assert_eq!(e("a { color: red;"), ParseError { kind: ParseErrorKind::UnbalancedBraces, position: 2 });
    assert_eq!(e("color: red; }"), ParseError { kind: ParseErrorKind::UnbalancedBraces, position: 12 });
    assert_eq!(e("content: \"abc;"), ParseError { kind: ParseErrorKind::UnterminatedString, position: 9 });
    assert_eq!(e("color: ${x};"), ParseError { kind: ParseErrorKind::UnknownInterpolation, position: 7 });
    assert_eq!(e("color: ${c;"), ParseError { kind: ParseErrorKind::UnterminatedInterpolation, position: 7 });
}

#[test]
fn first_binding_of_a_name_wins() {
    let b = vec![("c".to_string(), "red".to_string()), ("c".to_string(), "blue".to_string())];
    let a = parse("border: 1px solid ${c};", &b).unwrap();
    assert_eq!(to_css(&a, &"k".to_string()), ".k { border: 1px solid red; }");
}

#[test]
fn structural_equality_ignores_sharing() {
    let a = sample_scopes();
    let b = sample_scopes();
    assert!(scopes_eq(&a, &b));
    let c = Scopes { scopes: vec![Scope { selector: String::new(), contents: vec![decl("color", "red")] }] };
    assert!(!scopes_eq(&a, &c));
    assert!(a == b);
    assert!(a != c);
}

#[test]
fn new_uses_default_prefix() {
    let mut reg = StyleRegistry::new();
    let (s, fresh) = Style::new(&mut reg, "margin: 0 auto;", &no_bindings(), "q1").unwrap();
    assert!(fresh);
    assert_eq!(s.get_class_name(), "stylist-q1");
    assert_eq!(s.get_style_str(), ".stylist-q1 { margin: 0 auto; }");
}

#[test]
fn create_from_scopes_with_prefix() {
    let mut reg = StyleRegistry::new();
    let (a, fresh_a) = Style::create_from_scopes(&mut reg, "card", sample_scopes(), "x").unwrap();
    let (b, fresh_b) = Style::create(&mut reg, "card", "color: red; padding: 0; :hover { color: blue; }", &no_bindings(), "y").unwrap();
    assert!(fresh_a);
    assert!(!fresh_b);
    assert_eq!(a.get_class_name(), b.get_class_name());
    assert_eq!(reg.len(), 1);
    let (c, fresh_c) = Style::create_from_scopes(&mut reg, "card", sample_scopes(), "z").unwrap();
    assert!(!fresh_c);
    assert_eq!(c.get_class_name(), "card-x");
}

#[test]
fn top_level_blocks_are_separate_scopes() {
    let a = parse("a{x:y}b{x:y}", &no_bindings()).unwrap();
    assert_eq!(a.scopes.len(), 2);
    assert_eq!(a.scopes[0].selector, "a");
    assert_eq!(a.scopes[1].selector, "b");
    assert_eq!(a.scopes[0].contents.len(), 1);
    assert!(matches!(&a.scopes[0].contents[0], ScopeContent::Declaration { property, value } if property == "x" && value == "y"));
}

#[test]
fn declaration_runs_form_root_scopes() {
    let a = parse("color: red; padding: 0; a { b { x: y; } } margin: 0", &no_bindings()).unwrap();
    assert_eq!(a.scopes.len(), 3);
    assert_eq!(a.scopes[0].selector, "");
    assert_eq!(a.scopes[0].contents.len(), 2);
    assert_eq!(a.scopes[1].selector, "a");
    assert!(matches!(&a.scopes[1].contents[0], ScopeContent::Nested(inner) if inner.selector == "b"));
    assert_eq!(a.scopes[2].selector, "");
    assert_eq!(a.scopes[2].contents.len(), 1);
    assert_eq!(to_css(&a, &"k".to_string()), ".k { color: red; padding: 0; }\n.k a b { x: y; }\n.k { margin: 0; }");
}

#[test]
fn built_and_parsed_trees_share_one_artifact() {
    let mut reg = StyleRegistry::new();
    let built = Scopes {
        scopes: vec![
            Scope { selector: "a".to_string(), contents: vec![decl("x", "y")] },
            Scope { selector: "b".to_string(), contents: vec![decl("x", "y")] },
        ],
    };
    let (a, _) = Style::create_from_scopes(&mut reg, "btn", built, "one").unwrap();
    let (b, fresh) = compile(&mut reg, "a { x: y; }\nb { x: y; }", "two");
    assert!(!fresh);
    assert_eq!(a.get_class_name(), b.get_class_name());
}

#[test]
fn to_string_gives_class_name() {
    let mut reg = StyleRegistry::new();
    let (a, _) = compile(&mut reg, "color: red;", "abc123");
    assert_eq!(a.to_string(), "btn-abc123");
}

#[test]
fn actions_follow_outcomes() {
    let mut reg = StyleRegistry::new();
    let first = Style::create(&mut reg, "btn", "color: red;", &no_bindings(), "abc123");
    assert_eq!(create_action(&first), CreateAction::Mount);
    let again = Style::create(&mut reg, "btn", "color: red;", &no_bindings(), "zz");
    assert_eq!(create_action(&again), CreateAction::Done);
    let taken = Style::create(&mut reg, "btn", "color: blue;", &no_bindings(), "abc123");
    assert_eq!(create_action(&taken), CreateAction::Retry);
    let bad = Style::create(&mut reg, "btn", "color blue;", &no_bindings(), "q");
    assert_eq!(create_action(&bad), CreateAction::Fail);
}

#[test]
fn failed_mount_rolls_back() {
    let mut reg = StyleRegistry::new();
    let (a, fresh) = compile(&mut reg, "color: red;", "abc123");
    assert!(fresh);
    assert!(reg.settle_mount(a, false).is_none());
    assert_eq!(reg.len(), 0);
    let (b, fresh_b) = compile(&mut reg, "color: red;", "abc123");
    assert!(fresh_b);
    let kept = reg.settle_mount(b, true).unwrap();
    assert_eq!(kept.get_class_name(), "btn-abc123");
    assert_eq!(reg.len(), 1);
}

#[test]
fn clone_handle_adds_a_handle() {
    let mut reg = StyleRegistry::new();
    let (a, _) = compile(&mut reg, "color: red;", "abc123");
    let b = reg.clone_handle(&a).unwrap();
    assert_eq!(b.get_class_name(), "btn-abc123");
    assert_eq!(b.get_style_str(), a.get_style_str());
    assert!(!reg.release(a));
    assert_eq!(reg.len(), 1);
    assert!(reg.release(b));
    assert_eq!(reg.len(), 0);
    let mut other = StyleRegistry::new();
    let (c, _) = compile(&mut other, "color: red;", "abc123");
    let mut empty = StyleRegistry::new();
    assert!(empty.clone_handle(&c).is_none());
}

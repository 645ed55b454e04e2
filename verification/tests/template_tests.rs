use stz::registry::SharedRegistry;
use stz::template::{drain_input, extract_variables, learned_template, stored_template_of};

#[test]
fn extract_between_literals() {
    let vars = extract_variables(
        "Error in module Beta code 200",
        "Error in module <*> code <*>",
    );
    assert_eq!(vars, vec!["Beta".to_string(), "200".to_string()]);
}

#[test]
fn extract_embedded_variable() {
    let vars = extract_variables("login user=alice ok", "login user=<*> ok");
    assert_eq!(vars, vec!["alice".to_string()]);
}

#[test]
fn extract_stops_at_missing_literal() {
    let vars = extract_variables("a x b", "a <*> c <*>");
    assert_eq!(vars, Vec::<String>::new());
}

#[test]
fn extract_no_placeholder() {
    let vars = extract_variables("same text", "same text");
    assert!(vars.is_empty());
}

#[test]
fn learned_template_with_cluster() {
    let (hash, tmpl, vars) = learned_template(
        "sent block report 0xBBB containing 2 storage",
        Some("sent block report <*> containing <*> storage".to_string()),
    );
    assert_eq!(tmpl, "sent block report <VAR> containing <VAR> storage");
    assert!(!tmpl.contains("<*>"));
    assert_eq!(vars, vec!["0xBBB".to_string(), "2".to_string()]);
    assert_eq!(vars.len(), tmpl.matches("<VAR>").count());
    let (hash2, _, _) = learned_template(
        "sent block report 0xCCC containing 9 storage",
        Some("sent block report <*> containing <*> storage".to_string()),
    );
    assert_eq!(hash, hash2);
}

#[test]
fn learned_template_without_cluster() {
    let (_, tmpl, vars) = learned_template("no cluster here", None);
    assert_eq!(tmpl, "no cluster here");
    assert!(vars.is_empty());
}

#[test]
fn tabs_are_escaped_for_learning() {
    assert_eq!(drain_input("a\tb\t"), "a__TAB__b__TAB__");
}

#[test]
fn registry_gives_sequential_ids() {
    let mut r = SharedRegistry::new();
    let (id1, t1, v1) = r.get_or_learn("Error in module Alpha code 100", Some("Error in module <*> code <*>".to_string()));
    let (id2, t2, v2) = r.get_or_learn("Error in module Beta code 200", Some("Error in module <*> code <*>".to_string()));
    let (id3, t3, _) = r.get_or_learn("Disk full", None);
    assert_eq!(id1, 0);
    assert_eq!(id2, 0);
    assert_eq!(id3, 1);
    assert_eq!(t1, t2);
    assert_eq!(t3, "Disk full");
    assert_eq!(v1, vec!["Alpha".to_string(), "100".to_string()]);
    assert_eq!(v2, vec!["Beta".to_string(), "200".to_string()]);
    assert_eq!(r.len(), 2);
    let d = r.dump();
    assert_eq!(d.len(), 2);
    assert_eq!(d[0].0, 0);
    assert_eq!(d[0].2, "Error in module <VAR> code <VAR>");
    assert_eq!(d[1].0, 1);
    assert_eq!(d[1].2, "Disk full");
    assert_eq!(r.templates_from(1), vec!["Disk full".to_string()]);
}

#[test]
fn registry_placeholder_consistency() {
    let mut r = SharedRegistry::new();
    r.get_or_learn("Error in module Alpha code 100", None);
    let (_, tmpl, vars) = r.get_or_learn(
        "Error in module Beta code 200",
        Some("Error in module <*> code <*>".to_string()),
    );
    assert!(!tmpl.contains("<*>"));
    if tmpl.contains("<VAR>") {
        assert_eq!(vars.len(), tmpl.matches("<VAR>").count());
    }
}

#[test]
fn stored_template_has_no_wildcard() {
    let (_, t) = stored_template_of("a <*> <<*>*> b <*");
    assert_eq!(t, "a <VAR> <<VAR>*> b <*");
    assert!(!t.contains("<*>"));
    let (h1, _) = stored_template_of("x <*>");
    let (h2, t2) = stored_template_of("x <VAR>");
    assert_eq!(t2, "x <VAR>");
    assert_eq!(h1, h2);
}

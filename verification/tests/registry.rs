use vagabond::error::VagabondError;
use vagabond::registry::Registry;
use vagabond::script::split_statements;

fn b(s: &str) -> Vec<u8> {
    s.as_bytes().to_vec()
}

#[test]
fn parse_initial_manifest() {
    let text = b("//list of migration names in order, current migration is stored in db.");
    let reg = Registry::parse(&text).unwrap();
    assert_eq!(reg.names.len(), 0);
    assert_eq!(reg.render(), text);
}

#[test]
fn new_appends_in_order() {
    let mut reg = Registry::parse(&b("//banner")).unwrap();
    reg.append(&b("alpha")).unwrap();
    reg.append(&b("beta")).unwrap();
    reg.append(&b("gamma")).unwrap();
    let text = reg.render();
    assert_eq!(text, b("//banner\nalpha\nbeta\ngamma"));
    let reloaded = Registry::parse(&text).unwrap();
    assert_eq!(reloaded.names, vec![b("alpha"), b("beta"), b("gamma")]);
}

#[test]
fn duplicate_append_rejected_without_mutation() {
    let mut reg = Registry::parse(&b("//banner\nalpha")).unwrap();
    let before = reg.render();
    let err = reg.append(&b("alpha")).unwrap_err();
    assert!(matches!(err, VagabondError::DuplicateName(n) if n == b("alpha")));
    assert_eq!(reg.render(), before);
}

#[test]
fn parse_duplicate_is_fatal() {
    let err = Registry::parse(&b("//banner\nalpha\nalpha")).unwrap_err();
    assert!(matches!(err, VagabondError::DuplicateName(n) if n == b("alpha")));
}

#[test]
fn comment_lines_are_ignored() {
    let reg = Registry::parse(&b("//one\nalpha\n//two\nbeta")).unwrap();
    assert_eq!(reg.names, vec![b("alpha"), b("beta")]);
}

#[test]
fn remove_trailing_preserves_comments_and_order() {
    let mut reg = Registry::parse(&b("//banner\nalpha\nbeta\ngamma")).unwrap();
    reg.remove_trailing(1);
    assert_eq!(reg.names, vec![b("alpha")]);
    assert_eq!(reg.render(), b("//banner\nalpha"));
}

#[test]
fn remove_trailing_everything_leaves_comments() {
    let mut reg = Registry::parse(&b("//banner\nalpha\nbeta")).unwrap();
    reg.remove_trailing(0);
    assert_eq!(reg.names.len(), 0);
    assert_eq!(reg.render(), b("//banner"));
}

#[test]
fn statements_split_on_semicolon() {
    let stmts = split_statements(&b("CREATE TABLE t (x int);DROP TABLE u;"));
    assert_eq!(stmts, vec![b("CREATE TABLE t (x int)"), b("DROP TABLE u")]);
}

#[test]
fn statements_of_empty_script() {
    assert_eq!(split_statements(&b("")).len(), 0);
    assert_eq!(split_statements(&b(";")).len(), 0);
    assert_eq!(split_statements(&b(";;")).len(), 0);
}

#[test]
fn statements_skip_empty_fragments() {
    let stmts = split_statements(&b("a;;b"));
    assert_eq!(stmts, vec![b("a"), b("b")]);
}

#[test]
fn statement_without_trailing_delimiter() {
    let stmts = split_statements(&b("only one"));
    assert_eq!(stmts, vec![b("only one")]);
}

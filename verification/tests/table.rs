use ranker::table::{format_table, parse_table, reconcile_table};

fn entry(name: &str, path: &str) -> (String, String) {
    (name.to_string(), path.to_string())
}

#[test]
fn a_table_is_read_line_by_line() {
    let text = "cats: /home/me/cats\r\ndogs: /srv/dogs: old\nbirds: \n";
    let entries = parse_table(text).unwrap();
    assert_eq!(
        entries,
        vec![entry("cats", "/home/me/cats"), entry("dogs", "/srv/dogs"), entry("birds", "")]
    );
}

#[test]
fn an_empty_table_has_no_entries() {
    assert_eq!(parse_table("").unwrap(), Vec::<(String, String)>::new());
    assert_eq!(parse_table("a: b").unwrap(), vec![entry("a", "b")]);
}

#[test]
fn a_line_without_separator_is_refused() {
    assert!(parse_table("cats: /a\nno separator here\n").is_none());
    assert!(parse_table("a: b\n\n").is_none());
}

#[test]
fn a_written_table_reads_back() {
    let entries = vec![entry("one", "/p/1"), entry("two:", "C:\\pics"), entry("три", "/фото")];
    let text = format_table(&entries);
    assert_eq!(text, "one: /p/1\ntwo:: C:\\pics\nтри: /фото\n");
    assert_eq!(parse_table(&text).unwrap(), entries);
    assert_eq!(format_table(&Vec::new()), "");
}

#[test]
fn reconciling_keeps_the_last_entry_of_each_project() {
    let entries = vec![
        entry("a", "/1"),
        entry("gone", "/2"),
        entry("b", "/3"),
        entry("a", "/4"),
    ];
    let projects = vec!["a".to_string(), "b".to_string(), "c".to_string()];
    let (kept, missing) = reconcile_table(&entries, &projects);
    assert_eq!(kept, vec![entry("a", "/4"), entry("b", "/3")]);
    assert_eq!(missing, vec!["c".to_string()]);
}

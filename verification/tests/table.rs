use biblatex::syntax::parse_file;
use biblatex::table::RawTable;

#[test]
fn new_table_is_empty() {
    let t = RawTable::new();
    assert!(t.is_empty());
    assert_eq!(t.len(), 0);
    assert_eq!(t.get("a"), None);
    assert!(!t.contains_key("a"));
    assert_eq!(t.entry(0), None);
}

#[test]
fn insert_then_get() {
    let mut t = RawTable::new();
    t.insert("title", "{A}");
    t.insert("year", "2002");
    assert!(!t.is_empty());
    assert_eq!(t.len(), 2);
    assert_eq!(t.get("title"), Some(&"{A}"));
    assert_eq!(t.get("year"), Some(&"2002"));
    assert_eq!(t.get("Title"), None);
    assert!(t.contains_key("year"));
    assert!(!t.contains_key("yea"));
}

#[test]
fn insert_replaces_the_text_and_keeps_the_place() {
    let mut t = RawTable::new();
    t.insert("a", "1");
    t.insert("b", "2");
    t.insert("a", "3");
    assert_eq!(t.len(), 2);
    assert_eq!(t.get("a"), Some(&"3"));
    assert_eq!(t.entry(0), Some(("a", "3")));
    assert_eq!(t.entry(1), Some(("b", "2")));
    assert_eq!(t.entry(2), None);
}

#[test]
fn empty_name_is_a_name() {
    let mut t = RawTable::new();
    t.insert("", "x");
    assert_eq!(t.len(), 1);
    assert_eq!(t.get(""), Some(&"x"));
}

#[test]
fn clone_holds_the_same_pairs() {
    let mut t = RawTable::new();
    t.insert("a", "1");
    let u = t.clone();
    t.insert("a", "2");
    assert_eq!(u.get("a"), Some(&"1"));
    assert_eq!(t.get("a"), Some(&"2"));
}

#[test]
fn fields_can_be_walked_in_order() {
    let bt = parse_file("@a{k, z = 1, y = {2}, z = 3, x = \"4\"}", true);
    let fields = &bt.entries[0].fields;
    let mut seen = Vec::new();
    let mut i = 0;
    while let Some((name, text)) = fields.entry(i) {
        seen.push((name, text));
        i += 1;
    }
    assert_eq!(seen, vec![("z", "3"), ("y", "{2}"), ("x", "\"4\"")]);
}

#[test]
fn parsed_file_can_be_cloned_and_printed() {
    let bt = parse_file("@a{k, z = 1}", true);
    let copy = bt.clone();
    assert_eq!(copy.entries[0].fields.get("z"), Some(&"1"));
    assert!(format!("{:?}", copy).contains("cite_key"));
}

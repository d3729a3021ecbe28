use socksfinder::{build, query, stats, IndexBuilder, IndexError, Order, XmlEvent};

fn open(name: &str) -> XmlEvent {
    XmlEvent::Start(name.as_bytes().to_vec())
}

fn text(t: &str) -> XmlEvent {
    XmlEvent::Text(t.as_bytes().to_vec())
}

/// The events of one `<page>` with its title and one revision per editor.
fn page(title: &str, editors: &[&str]) -> Vec<XmlEvent> {
    let mut evs = vec![open("page"), open("title"), text(title), XmlEvent::End];
    for editor in editors {
        evs.push(open("revision"));
        evs.push(open("contributor"));
        evs.push(open("username"));
        evs.push(text(editor));
        evs.push(XmlEvent::End);
        evs.push(XmlEvent::End);
        evs.push(XmlEvent::End);
    }
    evs.push(XmlEvent::End);
    evs
}

fn index_of(pages: &[(&str, &[&str])]) -> Vec<u8> {
    let mut evs = vec![open("mediawiki")];
    for (title, editors) in pages {
        evs.extend(page(title, editors));
    }
    evs.push(XmlEvent::End);
    build(&evs).unwrap()
}

fn users(names: &[&str]) -> Vec<String> {
    names.iter().map(|n| n.to_string()).collect()
}

fn run(index: &[u8], names: &[&str], threshold: usize, order: Order) -> (String, bool) {
    let out = query(index, &users(names), threshold, order, false).unwrap();
    (String::from_utf8(out.text).unwrap(), out.unknown_users)
}

/// The rows of a rendered table, each as its trimmed cells.
fn table_rows(text: &str) -> Vec<Vec<String>> {
    text.lines()
        .filter(|l| l.starts_with('|'))
        .map(|l| {
            let inner = &l[1..l.len() - 1];
            inner.split('|').map(|c| c.trim().to_string()).collect()
        })
        .collect()
}

fn footer(index: &[u8]) -> u32 {
    let n = index.len();
    u32::from_le_bytes([index[n - 4], index[n - 3], index[n - 2], index[n - 1]])
}

#[test]
fn single_page_two_editors() {
    let index = index_of(&[("Hello", &["Alice", "Bob"])]);
    assert_eq!(run(&index, &["Alice", "Bob"], 2, Order::none), ("Hello: 2 (Alice, Bob)\n".to_string(), false));
}

#[test]
fn consecutive_edits_recorded_once() {
    let index = index_of(&[("P", &["Alice", "Alice", "Alice"])]);
    // header, "P\n", then Alice's list: one offset (4), then the dictionary
    assert_eq!(&index[0..6], &[0x53, 0x46, 0, 0, b'P', b'\n']);
    assert_eq!(&index[6..10], &[4, 0, 0, 0]);
    assert_eq!(footer(&index), 10);
    assert_eq!(run(&index, &["Alice"], 1, Order::none), ("P: 1 (Alice)\n".to_string(), false));
}

#[test]
fn no_overlap_is_empty() {
    let index = index_of(&[("A", &["Alice"]), ("B", &["Bob"])]);
    assert_eq!(run(&index, &["Alice", "Bob"], 2, Order::none), (String::new(), false));
}

#[test]
fn threshold_below_user_count() {
    let index = index_of(&[("X", &["Alice", "Bob"]), ("Y", &["Bob", "Carol"]), ("Z", &["Alice"])]);
    assert_eq!(
        run(&index, &["Alice", "Bob", "Carol"], 2, Order::none),
        ("X: 2 (Alice, Bob)\nY: 2 (Bob, Carol)\n".to_string(), false)
    );
}

#[test]
fn unknown_user_partial_success() {
    let index = index_of(&[("Hello", &["Alice", "Bob"])]);
    assert_eq!(
        run(&index, &["Alice", "Ghost"], 1, Order::none),
        (
            "Error: User 'Ghost' does not exist or has no edits\nHello: 1 (Alice)\n".to_string(),
            true
        )
    );
}

#[test]
fn cooccurrence_table() {
    let index = index_of(&[("X", &["Alice", "Bob"]), ("Y", &["Bob", "Carol"]), ("Z", &["Alice"])]);
    let out = query(&index, &users(&["Alice", "Bob", "Carol"]), 0, Order::none, true).unwrap();
    assert!(!out.unknown_users);
    let text = String::from_utf8(out.text).unwrap();
    let rows = table_rows(&text);
    assert_eq!(rows.len(), 4);
    assert_eq!(rows[0], vec!["", "Alice", "Bob", "Carol"]);
    assert_eq!(rows[1], vec!["Alice", "", "1", "0"]);
    assert_eq!(rows[2], vec!["Bob", "1", "", "1"]);
    assert_eq!(rows[3], vec!["Carol", "0", "1", ""]);
}

#[test]
fn cooccurrence_table_ordered_by_total() {
    let index = index_of(&[("X", &["Alice", "Bob"]), ("Y", &["Bob", "Carol"]), ("Z", &["Alice"])]);
    let out = query(&index, &users(&["Alice", "Bob", "Carol"]), 0, Order::count_decreasing, true).unwrap();
    let rows = table_rows(&String::from_utf8(out.text).unwrap());
    assert_eq!(rows[0], vec!["", "Bob", "Alice", "Carol"]);
    assert_eq!(rows[1], vec!["Bob", "", "1", "1"]);
}

#[test]
fn page_orders() {
    let index = index_of(&[
        ("Zeta", &["Alice", "Bob", "Carol"]),
        ("Alpha", &["Alice"]),
        ("Mid", &["Alice", "Bob"]),
    ]);
    let names = ["Alice", "Bob", "Carol"];
    assert_eq!(
        run(&index, &names, 1, Order::alphabetical).0,
        "Alpha: 1 (Alice)\nMid: 2 (Alice, Bob)\nZeta: 3 (Alice, Bob, Carol)\n"
    );
    assert_eq!(
        run(&index, &names, 1, Order::count_increasing).0,
        "Alpha: 1 (Alice)\nMid: 2 (Alice, Bob)\nZeta: 3 (Alice, Bob, Carol)\n"
    );
    assert_eq!(
        run(&index, &names, 1, Order::count_decreasing).0,
        "Zeta: 3 (Alice, Bob, Carol)\nMid: 2 (Alice, Bob)\nAlpha: 1 (Alice)\n"
    );
    assert_eq!(
        run(&index, &names, 1, Order::none).0,
        "Zeta: 3 (Alice, Bob, Carol)\nAlpha: 1 (Alice)\nMid: 2 (Alice, Bob)\n"
    );
}

#[test]
fn users_are_trimmed_and_deduplicated() {
    let index = index_of(&[("Hello", &["Alice", "Bob"])]);
    assert_eq!(
        run(&index, &[" Alice ", "Bob", "Alice"], 0, Order::none),
        ("Hello: 2 (Alice, Bob)\n".to_string(), false)
    );
}

#[test]
fn ip_editors_and_escaped_titles() {
    let mut evs = vec![open("title"), text("Tom &amp; Jerry"), XmlEvent::End];
    evs.extend(vec![open("ip"), text("10.0.0.1"), XmlEvent::End]);
    evs.extend(vec![open("title"), text("Bad &nope; title"), XmlEvent::End]);
    evs.extend(vec![open("username"), text("Alice"), XmlEvent::End]);
    let index = build(&evs).unwrap();
    // the malformed title is skipped, so Alice's edit falls on the first page
    assert_eq!(
        run(&index, &["10.0.0.1", "Alice"], 2, Order::none),
        ("Tom & Jerry: 2 (10.0.0.1, Alice)\n".to_string(), false)
    );
}

#[test]
fn bad_magic_is_bad_format() {
    let mut index = index_of(&[("Hello", &["Alice"])]);
    index[0] = b'X';
    assert!(matches!(query(&index, &users(&["Alice"]), 1, Order::none, false), Err(IndexError::BadFormat)));
    assert!(matches!(stats(&index), Err(IndexError::BadFormat)));
}

#[test]
fn wrong_version_is_bad_format() {
    let mut index = index_of(&[("Hello", &["Alice"])]);
    index[2] = 1;
    assert!(matches!(query(&index, &users(&["Alice"]), 1, Order::none, false), Err(IndexError::BadFormat)));
}

#[test]
fn truncated_index_is_corrupt() {
    let index = index_of(&[("Hello", &["Alice"])]);
    let cut = &index[..index.len() - 1];
    assert!(matches!(query(cut, &users(&["Alice"]), 1, Order::none, false), Err(IndexError::CorruptIndex)));
    assert!(matches!(query(&index[..6], &users(&["Alice"]), 1, Order::none, false), Err(IndexError::CorruptIndex)));
}

#[test]
fn damaged_postings_are_corrupt() {
    let mut index = index_of(&[("A", &["Alice"]), ("B", &["Alice"])]);
    // Alice's list is [4, 6]; make it [6, 6]
    assert_eq!(&index[8..16], &[4, 0, 0, 0, 6, 0, 0, 0]);
    index[8] = 6;
    assert!(matches!(query(&index, &users(&["Alice"]), 1, Order::none, false), Err(IndexError::CorruptIndex)));
}

#[test]
fn stats_of_built_index() {
    let index = index_of(&[("X", &["Alice", "Bob"]), ("Y", &["Bob", "Carol"]), ("Z", &["Alice"])]);
    let s = stats(&index).unwrap();
    assert_eq!(s.format_version, 0);
    // "X\nY\nZ\n" takes bytes 4..10; lists: Alice 2, Bob 2, Carol 1
    assert_eq!(s.user_contribs_offset, 10);
    assert_eq!(s.fst_start_offset, 10 + 4 * 5);
    assert_eq!(s.fst_end_offset, index.len() as u64 - 4);
    assert_eq!(s.edit_count_bins, vec![1, 2, 0, 0, 0, 0, 0, 0, 0, 0]);
}

#[test]
fn empty_dump_builds() {
    let index = build(&Vec::new()).unwrap();
    let s = stats(&index).unwrap();
    assert_eq!(s.user_contribs_offset, 4);
    assert_eq!(s.fst_start_offset, 4);
    assert_eq!(run(&index, &["Alice"], 1, Order::none), ("Error: User 'Alice' does not exist or has no edits\n".to_string(), true));
}

#[test]
fn streaming_builder_writes_names_as_it_goes() {
    assert_eq!(IndexBuilder::header(), vec![0x53, 0x46, 0, 0]);
    let mut b = IndexBuilder::new();
    let evs = vec![
        open("title"),
        text("A&lt;B"),
        XmlEvent::End,
        open("username"),
        text("Zed"),
        XmlEvent::End,
    ];
    let mut written = IndexBuilder::header();
    let mut outputs = Vec::new();
    for ev in &evs {
        let bytes = b.feed(ev).unwrap();
        outputs.push(bytes.clone());
        written.extend(bytes);
    }
    assert_eq!(outputs[1], b"A<B\n".to_vec());
    assert!(outputs.iter().enumerate().all(|(i, o)| i == 1 || o.is_empty()));
    let tail = b.finish().unwrap();
    // Zed's list holds the first page (offset 4); the dictionary starts at 12
    assert_eq!(&tail[0..4], &[4, 0, 0, 0]);
    written.extend(tail);
    assert_eq!(footer(&written), 12);
    assert_eq!(written, build(&evs).unwrap());
}

#[test]
fn unknown_user_in_cooccurrence_table() {
    let index = index_of(&[("X", &["Alice", "Bob"])]);
    let out = query(&index, &users(&["Alice", "Ghost", "Bob"]), 0, Order::alphabetical, true).unwrap();
    assert!(out.unknown_users);
    let text = String::from_utf8(out.text).unwrap();
    assert!(text.starts_with("Error: User 'Ghost' does not exist or has no edits\n"));
    let rows = table_rows(&text);
    assert_eq!(rows[0], vec!["", "Alice", "Bob", "Ghost"]);
    assert_eq!(rows[1], vec!["Alice", "", "1", "0"]);
    assert_eq!(rows[3], vec!["Ghost", "0", "0", ""]);
}

#[test]
fn threshold_above_user_count_is_empty() {
    let index = index_of(&[("Hello", &["Alice", "Bob"])]);
    assert_eq!(run(&index, &["Alice", "Bob"], 3, Order::none), (String::new(), false));
}

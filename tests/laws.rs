use socksfinder::merge::cooccurrence_matrix;
use socksfinder::merge::merge_postings;
use socksfinder::{build, query, Order, XmlEvent};

fn title_and_users(title: &str, editors: &[&str]) -> Vec<XmlEvent> {
    let mut evs = vec![
        XmlEvent::Start(b"title".to_vec()),
        XmlEvent::Text(title.as_bytes().to_vec()),
        XmlEvent::End,
    ];
    for e in editors {
        evs.push(XmlEvent::Start(b"username".to_vec()));
        evs.push(XmlEvent::Text(e.as_bytes().to_vec()));
        evs.push(XmlEvent::End);
    }
    evs
}

fn sample_index() -> Vec<u8> {
    let mut evs = Vec::new();
    evs.extend(title_and_users("One", &["a", "b", "c"]));
    evs.extend(title_and_users("Two", &["a", "b"]));
    evs.extend(title_and_users("Three", &["c"]));
    evs.extend(title_and_users("Four", &["b", "c"]));
    build(&evs).unwrap()
}

fn lines(index: &[u8], names: &[&str], k: usize) -> Vec<String> {
    let us: Vec<String> = names.iter().map(|n| n.to_string()).collect();
    let out = query(index, &us, k, Order::none, false).unwrap();
    String::from_utf8(out.text).unwrap().lines().map(|l| l.to_string()).collect()
}

#[test]
fn round_trip_single_user() {
    let index = sample_index();
    assert_eq!(lines(&index, &["c"], 1), vec!["One: 1 (c)", "Three: 1 (c)", "Four: 1 (c)"]);
    assert_eq!(lines(&index, &["a"], 1), vec!["One: 1 (a)", "Two: 1 (a)"]);
}

#[test]
fn lower_threshold_keeps_pages() {
    let index = sample_index();
    let names = ["a", "b", "c"];
    let three = lines(&index, &names, 3);
    let two = lines(&index, &names, 2);
    let one = lines(&index, &names, 1);
    assert_eq!(three, vec!["One: 3 (a, b, c)"]);
    assert_eq!(two.len(), 3);
    for l in &three {
        assert!(two.contains(l));
    }
    for l in &two {
        assert!(one.contains(l));
    }
    assert_eq!(one.len(), 4);
}

#[test]
fn threshold_zero_is_full_intersection() {
    let index = sample_index();
    assert_eq!(lines(&index, &["a", "b"], 0), lines(&index, &["a", "b"], 2));
    assert_eq!(lines(&index, &["a", "b"], 0), vec!["One: 2 (a, b)", "Two: 2 (a, b)"]);
}

#[test]
fn matrix_is_symmetric() {
    let lists = vec![vec![4u32, 8, 12], vec![4, 12, 20], vec![8, 12], vec![]];
    let m = cooccurrence_matrix(&lists);
    for a in 0..4 {
        for b in 0..4 {
            assert_eq!(m[a][b], m[b][a]);
        }
    }
    assert_eq!(m[0][1], 2);
    assert_eq!(m[0][2], 2);
    assert_eq!(m[1][2], 1);
    assert_eq!(m[0][0], 3);
    assert_eq!(m[3][0], 0);
}

#[test]
fn merge_reports_pages_in_order() {
    let lists = vec![vec![1u32, 5, 9], vec![5, 7, 9, u32::MAX], vec![9]];
    let all = merge_postings(&lists, 1);
    let pages: Vec<u32> = all.iter().map(|m| m.page).collect();
    assert_eq!(pages, vec![1, 5, 7, 9, u32::MAX]);
    assert_eq!(all[3].editors, vec![0, 1, 2]);
    let two: Vec<u32> = merge_postings(&lists, 2).iter().map(|m| m.page).collect();
    assert_eq!(two, vec![5, 9]);
    assert!(merge_postings(&lists, 4).is_empty());
}

#[test]
fn repeated_edits_interleaved_with_others() {
    let mut evs = title_and_users("P", &["a", "b", "a", "a"]);
    evs.extend(title_and_users("Q", &["a"]));
    let index = build(&evs).unwrap();
    assert_eq!(lines(&index, &["a"], 1), vec!["P: 1 (a)", "Q: 1 (a)"]);
    assert_eq!(lines(&index, &["a", "b"], 2), vec!["P: 2 (a, b)"]);
}

use split_test::distribute::{assigned_files, distribute, Node, SplitError};
use split_test::file_set::resolve;
use split_test::record::DurationRecord;

fn s(x: &str) -> String {
    String::from(x)
}

fn list(xs: &[&str]) -> Vec<String> {
    xs.iter().map(|x| s(x)).collect()
}

fn record(entries: &[(&str, u64)]) -> DurationRecord {
    let mut r = DurationRecord::new();
    for (p, t) in entries {
        r.add(s(p), *t);
    }
    r
}

fn all_sorted(nodes: &[Node]) -> Vec<String> {
    let mut all: Vec<String> = nodes.iter().flat_map(|n| n.files.iter().cloned()).collect();
    all.sort();
    all
}

#[test]
fn greedy_scenario_with_three_timed_files() {
    let c = list(&["/a", "/b", "/c"]);
    let r = record(&[("/a", 3_000_000), ("/b", 2_000_000), ("/c", 1_000_000)]);
    let nodes = distribute(&c, &r, 2);
    assert_eq!(nodes.len(), 2);
    assert_eq!(nodes[0].files, list(&["/a"]));
    assert_eq!(nodes[0].total, 3_000_000);
    assert_eq!(nodes[1].files, list(&["/b", "/c"]));
    assert_eq!(nodes[1].total, 3_000_000);
}

#[test]
fn untimed_files_are_dealt_in_turn() {
    let c = list(&["/a", "/b", "/c"]);
    let nodes = distribute(&c, &DurationRecord::new(), 2);
    assert_eq!(nodes[0].files, list(&["/a", "/c"]));
    assert_eq!(nodes[1].files, list(&["/b"]));
    assert_eq!(nodes[0].total, 0);
    assert_eq!(nodes[1].total, 0);
}

#[test]
fn timed_files_come_before_untimed_ones() {
    let c = list(&["/a", "/b", "/c", "/d"]);
    let r = record(&[("/b", 5), ("/d", 9)]);
    let nodes = distribute(&c, &r, 2);
    assert_eq!(nodes[0].files, list(&["/d", "/a"]));
    assert_eq!(nodes[1].files, list(&["/b", "/c"]));
    assert_eq!(nodes[0].total, 9);
    assert_eq!(nodes[1].total, 5);
}

#[test]
fn equal_durations_go_in_path_order() {
    let c = list(&["/b", "/a"]);
    let r = record(&[("/a", 4), ("/b", 4)]);
    let nodes = distribute(&c, &r, 2);
    assert_eq!(nodes[0].files, list(&["/a"]));
    assert_eq!(nodes[1].files, list(&["/b"]));
}

#[test]
fn ties_in_load_go_to_the_lowest_node() {
    let c = list(&["/a", "/b", "/c"]);
    let r = record(&[("/a", 2), ("/b", 1), ("/c", 1)]);
    let nodes = distribute(&c, &r, 3);
    assert_eq!(nodes[0].files, list(&["/a"]));
    assert_eq!(nodes[1].files, list(&["/b"]));
    assert_eq!(nodes[2].files, list(&["/c"]));
}

#[test]
fn every_candidate_is_assigned_exactly_once() {
    let c = resolve(&list(&["/f/5", "/f/1", "/f/3", "/f/2", "/f/4", "/f/6", "/f/7"]), &Vec::new()).unwrap();
    let r = record(&[("/f/1", 10), ("/f/3", 30), ("/f/4", 30), ("/f/7", 1), ("/elsewhere", 99)]);
    let nodes = distribute(&c, &r, 3);
    assert_eq!(nodes.len(), 3);
    assert_eq!(all_sorted(&nodes), c);
}

#[test]
fn more_nodes_than_files_leaves_some_empty() {
    let c = list(&["/a", "/b"]);
    let r = record(&[("/a", 1)]);
    let nodes = distribute(&c, &r, 4);
    assert_eq!(nodes.len(), 4);
    assert_eq!(nodes[0].files, list(&["/a", "/b"]));
    assert_eq!(nodes[1].files, Vec::<String>::new());
    assert_eq!(nodes[2].files, Vec::<String>::new());
    assert_eq!(nodes[3].files, Vec::<String>::new());
    assert_eq!(all_sorted(&nodes), c);
}

#[test]
fn untimed_file_goes_by_its_place_among_untimed_only() {
    let c = list(&["/a", "/b", "/c"]);
    let r = record(&[("/a", 8)]);
    let nodes = distribute(&c, &r, 2);
    assert_eq!(nodes[0].files, list(&["/a", "/b"]));
    assert_eq!(nodes[1].files, list(&["/c"]));
}

#[test]
fn equal_durations_keep_totals_within_one_file() {
    let names: Vec<String> = (0..11).map(|i| format!("/t/{:02}", i)).collect();
    let mut r = DurationRecord::new();
    for n in &names {
        r.add(n.clone(), 5);
    }
    let nodes = distribute(&names, &r, 4);
    let max = nodes.iter().map(|n| n.total).max().unwrap();
    let min = nodes.iter().map(|n| n.total).min().unwrap();
    assert!(max - min <= 5);
    assert_eq!(nodes.iter().map(|n| n.total).sum::<u128>(), 55);
}

#[test]
fn single_node_gets_everything() {
    let c = list(&["/a", "/b", "/c"]);
    let r = record(&[("/b", 2), ("/c", 3)]);
    let nodes = distribute(&c, &r, 1);
    assert_eq!(nodes[0].files, list(&["/c", "/b", "/a"]));
    assert_eq!(nodes[0].total, 5);
}

#[test]
fn same_inputs_give_the_same_partition() {
    let r1 = record(&[("/a", 3), ("/b", 2), ("/c", 2)]);
    let r2 = record(&[("/c", 1), ("/b", 2), ("/a", 3), ("/c", 1)]);
    let c1 = resolve(&list(&["/c", "/b", "/a", "/d"]), &Vec::new()).unwrap();
    let c2 = resolve(&list(&["/d", "/a", "/c", "/b"]), &Vec::new()).unwrap();
    let n1 = distribute(&c1, &r1, 2);
    let n2 = distribute(&c2, &r2, 2);
    for i in 0..2 {
        assert_eq!(n1[i].files, n2[i].files);
        assert_eq!(n1[i].total, n2[i].total);
    }
}

#[test]
fn assigned_files_picks_one_node() {
    let c = list(&["/a", "/b", "/c"]);
    let r = record(&[("/a", 3_000_000), ("/b", 2_000_000), ("/c", 1_000_000)]);
    assert_eq!(assigned_files(&c, &r, 0, 2), Ok(list(&["/a"])));
    assert_eq!(assigned_files(&c, &r, 1, 2), Ok(list(&["/b", "/c"])));
}

#[test]
fn assigned_files_rejects_an_index_out_of_range() {
    let c = list(&["/a"]);
    let r = DurationRecord::new();
    assert_eq!(assigned_files(&c, &r, 2, 2), Err(SplitError::InvalidNodeIndex));
    assert_eq!(assigned_files(&c, &r, 0, 0), Err(SplitError::InvalidNodeIndex));
}

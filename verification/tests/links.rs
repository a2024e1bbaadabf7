use quark_sim::links::{append_link, partner, rewire, shares_link};

#[test]
fn partner_is_first_other_link() {
    assert_eq!(partner(&vec![3, 3, 5, 7], 3), Some(5));
    assert_eq!(partner(&vec![8, 3], 3), Some(8));
}

#[test]
fn partner_of_self_links_only_is_none() {
    assert_eq!(partner(&vec![3, 3], 3), None);
    assert_eq!(partner(&vec![], 3), None);
}

#[test]
fn shared_link_found() {
    assert!(shares_link(&vec![1, 4], &vec![2, 4]));
    assert!(shares_link(&vec![9], &vec![9]));
}

#[test]
fn no_shared_link() {
    assert!(!shares_link(&vec![1, 4], &vec![2, 5]));
    assert!(!shares_link(&vec![], &vec![2]));
    assert!(!shares_link(&vec![2], &vec![]));
}

#[test]
fn rewire_replaces_first_occurrence_only() {
    assert_eq!(rewire(Some(vec![1, 4, 4]), 4, 9, 0), Some(vec![1, 9, 4]));
}

#[test]
fn rewire_appends_when_absent() {
    assert_eq!(rewire(Some(vec![1, 2]), 4, 9, 0), Some(vec![1, 2, 9]));
}

#[test]
fn rewire_makes_fresh_string() {
    assert_eq!(rewire(None, 4, 9, 6), Some(vec![6]));
}

#[test]
fn append_link_pushes_or_creates() {
    assert_eq!(append_link(Some(vec![1]), 2), Some(vec![1, 2]));
    assert_eq!(append_link(None, 2), Some(vec![2]));
}

//! Tests for the address collection: adding, merging and reporting.

use mailscan::collect::{AddrCollection, AddressRecord};

fn rec(addr: &str, name: Option<&str>) -> AddressRecord {
    AddressRecord { addr: String::from(addr), display_name: name.map(String::from) }
}

fn sorted_report(c: &AddrCollection) -> Vec<(String, String, u64)> {
    let mut lines = c.report();
    lines.sort();
    lines
}

#[test]
fn add_counts_occurrences_and_name_variants() {
    let mut c = AddrCollection::new();
    c.add(rec("a@x.com", Some("Alice")));
    c.add(rec("a@x.com", None));
    c.add(rec("a@x.com", Some("Alice")));
    c.add(rec("b@y.com", None));
    let lines = sorted_report(&c);
    assert_eq!(lines.len(), 2);
    assert_eq!(lines[0], (String::from("a@x.com"), String::from("Alice"), 3));
    assert_eq!(lines[1], (String::from("b@y.com"), String::new(), 1));
}

#[test]
fn most_frequent_name_variant_wins() {
    let mut c = AddrCollection::new();
    c.add(rec("a@x.com", Some("Al")));
    c.add(rec("a@x.com", Some("Alice")));
    c.add(rec("a@x.com", Some("Alice")));
    let lines = c.report();
    assert_eq!(lines.len(), 1);
    assert_eq!(lines[0].1, "Alice");
    assert_eq!(lines[0].2, 3);
}

#[test]
fn report_sorts_by_descending_occurrences() {
    let mut c = AddrCollection::new();
    c.add(rec("one@x.com", None));
    c.add(rec("three@x.com", None));
    c.add(rec("three@x.com", None));
    c.add(rec("three@x.com", None));
    c.add(rec("two@x.com", None));
    c.add(rec("two@x.com", None));
    let lines = c.report();
    assert_eq!(lines.len(), 3);
    assert_eq!(lines[0].0, "three@x.com");
    assert_eq!(lines[0].2, 3);
    assert_eq!(lines[1].0, "two@x.com");
    assert_eq!(lines[1].2, 2);
    assert_eq!(lines[2].0, "one@x.com");
    assert_eq!(lines[2].2, 1);
}

#[test]
fn merge_with_empty_collection_changes_nothing() {
    let mut c = AddrCollection::new();
    c.add(rec("a@x.com", Some("Alice")));
    c.add(rec("b@y.com", None));
    let before = sorted_report(&c);
    c.merge(AddrCollection::new());
    assert_eq!(sorted_report(&c), before);

    let mut empty = AddrCollection::new();
    let mut d = AddrCollection::new();
    d.add(rec("a@x.com", Some("Alice")));
    d.add(rec("b@y.com", None));
    empty.merge(d);
    assert_eq!(sorted_report(&empty), before);
}

#[test]
fn merge_is_commutative() {
    let build_ab = || {
        let mut c = AddrCollection::new();
        c.add(rec("a@x.com", Some("Alice")));
        c.add(rec("b@y.com", None));
        c
    };
    let build_ac = || {
        let mut c = AddrCollection::new();
        c.add(rec("a@x.com", None));
        c.add(rec("c@z.org", Some("Carol")));
        c
    };
    let mut left = build_ab();
    left.merge(build_ac());
    let mut right = build_ac();
    right.merge(build_ab());
    assert_eq!(sorted_report(&left), sorted_report(&right));
    // a@x.com was seen by both sides
    let lines = sorted_report(&left);
    assert_eq!(lines[0], (String::from("a@x.com"), String::from("Alice"), 2));
}

#[test]
fn merge_is_associative() {
    let one = |addr: &str, name: Option<&str>| {
        let mut c = AddrCollection::new();
        c.add(rec(addr, name));
        c
    };
    let mut left = one("a@x.com", Some("Alice"));
    let mut bc = one("b@y.com", None);
    bc.merge(one("a@x.com", None));
    left.merge(bc);

    let mut ab = one("a@x.com", Some("Alice"));
    ab.merge(one("b@y.com", None));
    let mut right = ab;
    right.merge(one("a@x.com", None));

    assert_eq!(sorted_report(&left), sorted_report(&right));
}

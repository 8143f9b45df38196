use std::cell::Cell;

use cfw_build::probe::{binary, degraded_by, ChainSetup, Prober};
use cfw_build::sets::Family;

fn words(list: &[&str]) -> Vec<String> {
    list.iter().map(|s| s.to_string()).collect()
}

#[test]
fn each_family_has_its_binary() {
    assert_eq!(binary(Family::V4), "iptables");
    assert_eq!(binary(Family::V6), "ip6tables");
}

#[test]
fn a_degraded_prober_offers_both_families_without_probing() {
    let calls = Cell::new(0);
    let accepts = |_: Family, _: &[String]| {
        calls.set(calls.get() + 1);
        false
    };
    let mut p = Prober::new(true);
    assert_eq!(p.families_for(&words(&["-p", "icmpv6"]), &accepts), vec![Family::V4, Family::V6]);
    assert_eq!(calls.get(), 0);
}

#[test]
fn a_tail_is_probed_once_and_remembered() {
    let calls = Cell::new(0);
    let accepts = |f: Family, tail: &[String]| {
        calls.set(calls.get() + 1);
        !(f == Family::V6 && tail.iter().any(|a| a == "--icmp-type"))
    };
    let mut p = Prober::new(false);
    let v4_only = words(&["-p", "icmp", "--icmp-type", "echo-request", "-j", "DROP"]);
    assert_eq!(p.families_for(&v4_only, &accepts), vec![Family::V4]);
    assert_eq!(calls.get(), 2);
    assert_eq!(p.families_for(&v4_only, &accepts), vec![Family::V4]);
    assert_eq!(calls.get(), 2);
    let both = words(&["-p", "tcp", "-j", "ACCEPT"]);
    assert_eq!(p.families_for(&both, &accepts), vec![Family::V4, Family::V6]);
    assert_eq!(calls.get(), 4);
}

#[test]
fn a_tail_no_family_accepts_gets_none() {
    let mut p = Prober::new(false);
    assert!(p.families_for(&words(&["--bogus"]), &|_: Family, _: &[String]| false).is_empty());
}

#[test]
fn remember_keeps_the_first_answer_for_a_tail() {
    let mut p = Prober::new(false);
    let tail = words(&["-p", "icmpv6", "-j", "DROP"]);
    assert_eq!(p.remember(&tail, false, true), vec![Family::V6]);
    assert_eq!(p.remember(&tail, true, true), vec![Family::V6]);
    assert_eq!(p.remember(&words(&["-j", "ACCEPT"]), true, false), vec![Family::V4]);
}

#[test]
fn probing_degrades_when_some_family_cannot_be_set_up() {
    assert!(!degraded_by(&[ChainSetup::Created, ChainSetup::Existing { flushed: true }]));
    assert!(degraded_by(&[ChainSetup::Created, ChainSetup::Existing { flushed: false }]));
    assert!(degraded_by(&[ChainSetup::NotRun, ChainSetup::Created]));
    assert!(!degraded_by(&[]));
}

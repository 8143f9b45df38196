use cfw_build::decl::{parse, Origin};
use cfw_build::map::StrMap;
use cfw_build::resolve::{classify, names_to_resolve, settle, Addr, Host, Usage};
use cfw_build::sets::Family;

fn resolve_record(fields: &[&str]) -> String {
    format!("{}\n", fields.join("\0"))
}

#[test]
fn classifies_hosts_like_the_shell_does() {
    assert_eq!(classify("any"), Host::Any);
    assert_eq!(classify("ANY"), Host::Any);
    assert_eq!(classify("10.10.4.0/24"), Host::Literal("10.10.4.0/24".into()));
    assert_eq!(classify("24.226.190.130"), Host::Literal("24.226.190.130".into()));
    assert_eq!(classify("fd51:2050:2220:4::/64"), Host::Literal("fd51:2050:2220:4::/64".into()));
    assert_eq!(classify("casrvdns1.ad.cauca.ca"), Host::Name("casrvdns1.ad.cauca.ca".into()));
}

#[test]
fn hostnames_starting_with_a_digit_are_names() {
    // 0.ntp.ad.cauca.ca appears in the production config.
    assert_eq!(classify("0.ntp.ad.cauca.ca"), Host::Name("0.ntp.ad.cauca.ca".into()));
}

#[test]
fn collects_names_from_aliases_and_rule_endpoints() {
    let input = resolve_record(&["alias", "a.sh", "1", "svc", "host.example.test", "53", "udp"])
        + &resolve_record(&["alias", "a.sh", "2", "net", "10.0.0.0/8"])
        + &resolve_record(&["rule", "a.sh", "3", "filter", "forward", "other.example.test", "any", "-j", "ACCEPT"]);
    let names = names_to_resolve(&parse(&input).unwrap());
    assert_eq!(names.len(), 2);
    assert!(names.contains_key("host.example.test"));
    assert!(names.contains_key("other.example.test"));
}

#[test]
fn an_alias_used_as_an_endpoint_is_not_resolved() {
    let input = resolve_record(&["alias", "a.sh", "1", "cc_dev", "10.0.0.0/8"])
        + &resolve_record(&["rule", "10_x.sh", "2", "filter", "forward", "cc_dev", "any", "-j", "ACCEPT"]);
    let names = names_to_resolve(&parse(&input).unwrap());
    assert!(names.is_empty(), "{names:?}");
}

#[test]
fn an_alias_defined_only_by_dns_still_resolves_its_host() {
    let input = resolve_record(&["alias", "a.sh", "1", "cadevk8s", "node1.example.test"])
        + &resolve_record(&["rule", "10_x.sh", "2", "filter", "forward", "cadevk8s", "any", "-j", "ACCEPT"]);
    let names = names_to_resolve(&parse(&input).unwrap());
    assert_eq!(names.len(), 1);
    assert!(names.contains_key("node1.example.test"));
}

#[test]
fn a_hostname_endpoint_that_is_not_an_alias_still_resolves() {
    let input = resolve_record(&["alias", "a.sh", "1", "cc_dev", "10.0.0.0/8"])
        + &resolve_record(&["rule", "10_x.sh", "2", "filter", "forward", "host.example.test", "cc_dev", "-j", "ACCEPT"]);
    let names = names_to_resolve(&parse(&input).unwrap());
    assert_eq!(names.len(), 1);
    assert!(names.contains_key("host.example.test"));
}

#[test]
fn one_name_used_twice_is_resolved_once() {
    let input = resolve_record(&["alias", "a.sh", "1", "one", "shared.example.test"])
        + &resolve_record(&["alias", "a.sh", "2", "two", "shared.example.test"]);
    let names = names_to_resolve(&parse(&input).unwrap());
    assert_eq!(names.len(), 1);
    assert_eq!(names.get("shared.example.test").unwrap().len(), 2);
}

fn usage(context: &str, file: &str, line: u32) -> Usage {
    Usage { context: context.to_string(), origin: Origin { file: file.to_string(), line } }
}

fn addr(text: &str) -> Addr {
    Addr { family: if text.contains(':') { Family::V6 } else { Family::V4 }, text: text.to_string() }
}

#[test]
fn every_resolved_name_keeps_its_addresses() {
    let mut names = StrMap::new();
    names.insert("a.example.test".to_string(), vec![usage("alias a", "10_a.sh", 1)]);
    names.insert("b.example.test".to_string(), vec![usage("rule source", "10_a.sh", 2)]);
    let results = vec![
        ("a.example.test".to_string(), Ok(vec![addr("192.0.2.1"), addr("2001:db8::1")])),
        ("b.example.test".to_string(), Ok(vec![addr("2001:db8::2")])),
    ];
    let Ok(r) = settle(&names, &results) else {
        panic!("expected every name to resolve")
    };
    assert_eq!(r.get("a.example.test").len(), 2);
    assert_eq!(r.get("b.example.test")[0].text, "2001:db8::2");
    assert!(r.get("c.example.test").is_empty());
}

#[test]
fn failures_are_reported_once_in_file_and_line_order() {
    let mut names = StrMap::new();
    names.insert(
        "dead.example.test".to_string(),
        vec![usage("alias z", "20_b.sh", 7), usage("alias a", "10_a.sh", 30), usage("alias a", "10_a.sh", 30)],
    );
    names.insert("gone.example.test".to_string(), vec![usage("rule destination", "10_a.sh", 4)]);
    names.insert("ok.example.test".to_string(), vec![usage("alias ok", "10_a.sh", 1)]);
    let results = vec![
        ("dead.example.test".to_string(), Ok(vec![])),
        ("gone.example.test".to_string(), Err("request timed out".to_string())),
        ("ok.example.test".to_string(), Ok(vec![addr("192.0.2.9")])),
    ];
    let Err(report) = settle(&names, &results) else {
        panic!("expected a report")
    };
    assert_eq!(
        report,
        vec![
            "10_a.sh:4: gone.example.test (rule destination): request timed out".to_string(),
            "10_a.sh:30: dead.example.test (alias a): no address".to_string(),
            "20_b.sh:7: dead.example.test (alias z): no address".to_string(),
        ]
    );
}

#[test]
fn one_family_is_enough_to_resolve() {
    let mut names = StrMap::new();
    names.insert("v6.example.test".to_string(), vec![usage("alias v6", "a.sh", 1)]);
    let results = vec![("v6.example.test".to_string(), Ok(vec![addr("2001:db8::5")]))];
    assert!(settle(&names, &results).is_ok());
}

#[test]
fn names_are_kept_in_key_order() {
    let input = resolve_record(&["alias", "a.sh", "1", "z", "zeta.example.test"])
        + &resolve_record(&["alias", "a.sh", "2", "a", "alpha.example.test"])
        + &resolve_record(&["rule", "10_x.sh", "3", "filter", "forward", "any", "mid.example.test", "-j", "ACCEPT"]);
    let names = names_to_resolve(&parse(&input).unwrap());
    assert_eq!(names.len(), 3);
    assert_eq!(names.key_at(0), "alpha.example.test");
    assert_eq!(names.key_at(1), "mid.example.test");
    assert_eq!(names.key_at(2), "zeta.example.test");
    assert_eq!(names.get("mid.example.test").unwrap()[0].context, "rule destination");
    assert_eq!(names.get("zeta.example.test").unwrap()[0].context, "alias z");
}

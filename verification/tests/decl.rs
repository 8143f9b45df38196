use cfw_build::decl::{parse, Decl};

fn decl_record(fields: &[&str]) -> String {
    format!("{}\n", fields.join("\0"))
}

#[test]
fn alias_with_port_and_proto() {
    let input = decl_record(&[
        "alias",
        "15_cauca.sh",
        "5",
        "cc_services",
        "casrvdns1.ad.cauca.ca",
        "53",
        "UDP",
    ]);
    let decls = parse(&input).unwrap();
    let Decl::Alias(a) = &decls[0] else {
        panic!("expected alias")
    };
    assert_eq!(a.name, "cc_services");
    assert_eq!(a.host, "casrvdns1.ad.cauca.ca");
    assert_eq!(a.port.as_deref(), Some("53"));
    assert_eq!(a.proto.as_deref(), Some("udp"));
    assert_eq!(a.origin.to_string(), "15_cauca.sh:5");
}

#[test]
fn alias_without_port() {
    let input = decl_record(&["alias", "15_cauca.sh", "51", "cc_ping", "casrvvrrpa.ad.cauca.ca"]);
    let decls = parse(&input).unwrap();
    let Decl::Alias(a) = &decls[0] else {
        panic!("expected alias")
    };
    assert_eq!(a.port, None);
    assert_eq!(a.proto, None);
}

#[test]
fn alias_takes_v4_and_v6_under_one_name() {
    let input = decl_record(&["alias", "15_cauca.sh", "56", "cc_omd", "10.10.255.32/28"])
        + &decl_record(&["alias", "15_cauca.sh", "57", "cc_omd", "fd51:2050:2220:502::/64"]);
    let decls = parse(&input).unwrap();
    assert_eq!(decls.len(), 2);
}

#[test]
fn alias_name_with_dot_is_rejected() {
    let input = decl_record(&["alias", "f.sh", "1", "bad.name", "10.0.0.1"]);
    assert!(parse(&input).unwrap_err().message.contains("contains"));
}

#[test]
fn rule_tail_keeps_spaces_and_quotes() {
    let input = decl_record(&[
        "rule",
        "12_drops.sh",
        "10",
        "filter",
        "+log_drop",
        "any",
        "any",
        "-m",
        "limit",
        "--limit",
        "1/sec",
        "-j",
        "LOG",
        "--log-prefix",
        "LD: ",
    ]);
    let decls = parse(&input).unwrap();
    let Decl::Rule(r) = &decls[0] else {
        panic!("expected rule")
    };
    assert_eq!(r.chain, "+log_drop");
    assert_eq!(r.tail.last().unwrap(), "LD: ");
}

#[test]
fn rule_tail_keeps_hash_and_service_names() {
    let input = decl_record(&[
        "rule",
        "30_cadev.sh",
        "116",
        "filter",
        "forward",
        "cc_dev_srv",
        "any",
        "-p",
        "tcp",
        "--syn",
        "--dport",
        "whois",
        "-m",
        "comment",
        "--comment",
        "a # b",
    ]);
    let decls = parse(&input).unwrap();
    let Decl::Rule(r) = &decls[0] else {
        panic!("expected rule")
    };
    assert_eq!(r.tail[4], "whois");
    assert_eq!(r.tail.last().unwrap(), "a # b");
}

#[test]
fn chain_is_lowercased_but_plus_kept() {
    let input = decl_record(&["rule", "f.sh", "1", "filter", "FORWARD", "any", "any", "-j", "ACCEPT"]);
    let decls = parse(&input).unwrap();
    let Decl::Rule(r) = &decls[0] else {
        panic!("expected rule")
    };
    assert_eq!(r.chain, "forward");
}

#[test]
fn rule_with_empty_tail_parses() {
    let input = decl_record(&["rule", "f.sh", "1", "filter", "forward", "any", "any"]);
    let decls = parse(&input).unwrap();
    let Decl::Rule(r) = &decls[0] else {
        panic!("expected rule")
    };
    assert!(r.tail.is_empty());
}

#[test]
fn missing_fields_report_the_record() {
    let input = decl_record(&["rule", "f.sh", "1", "filter"]);
    let e = parse(&input).unwrap_err();
    assert_eq!(e.record, 1);
    assert!(e.message.contains("TABLE CHAIN"));
}

#[test]
fn unknown_kind_is_rejected() {
    let input = decl_record(&["frobnicate", "f.sh", "1"]);
    assert!(parse(&input).unwrap_err().message.contains("unknown"));
}

#[test]
fn records_are_numbered_from_one_skipping_empty_lines() {
    let input = String::from("\n") + &decl_record(&["alias", "f.sh", "1", "ok", "10.0.0.1"]) + "\n"
        + &decl_record(&["rule", "f.sh", "2", "filter"]);
    let e = parse(&input).unwrap_err();
    assert_eq!(e.record, 2);
    assert_eq!(e.to_string(), "record 2: rule needs TABLE CHAIN SOURCE DESTINATION");
}

#[test]
fn too_few_fields_are_counted() {
    let e = parse("alias\0f.sh\n").unwrap_err();
    assert_eq!(e.message, "expected at least 3 fields, got 2");
}

#[test]
fn a_line_number_must_be_a_number() {
    let e = parse(&decl_record(&["alias", "f.sh", "x1", "n", "h"])).unwrap_err();
    assert_eq!(e.message, "line number is not a number: \"x1\"");
}

#[test]
fn empty_alias_and_rule_fields_are_refused() {
    let e = parse(&decl_record(&["alias", "f.sh", "1", "", "h"])).unwrap_err();
    assert_eq!(e.message, "alias name is empty");
    let e = parse(&decl_record(&["alias", "f.sh", "1", "n", ""])).unwrap_err();
    assert_eq!(e.message, "alias n: host is empty");
    let e = parse(&decl_record(&["alias", "f.sh", "1", "n"])).unwrap_err();
    assert_eq!(e.message, "alias needs NAME and HOST");
    let e = parse(&decl_record(&["rule", "f.sh", "1", "filter", "", "any", "any"])).unwrap_err();
    assert_eq!(e.message, "rule chain is empty");
    let e = parse(&decl_record(&["rule", "f.sh", "1", "filter", "forward", "any", ""])).unwrap_err();
    assert_eq!(e.message, "rule destination is empty");
}

#[test]
fn empty_optional_alias_fields_are_skipped() {
    let decls = parse(&decl_record(&["alias", "f.sh", "3", "svc", "10.0.0.1", "", "53", "TCP"])).unwrap();
    let Decl::Alias(a) = &decls[0] else {
        panic!("expected alias")
    };
    assert_eq!(a.port.as_deref(), Some("53"));
    assert_eq!(a.proto.as_deref(), Some("tcp"));
    assert_eq!(a.origin.line, 3);
}

#[test]
fn unknown_kind_is_quoted_in_the_message() {
    let e = parse(&decl_record(&["frobnicate", "f.sh", "1"])).unwrap_err();
    assert_eq!(e.message, "unknown declaration kind \"frobnicate\"");
}

use cfw_build::decl::{parse, Origin, Rule};
use cfw_build::map::StrMap;
use cfw_build::resolve::{Addr, Resolved};
use cfw_build::rules::{build, emit_rule, probe_tail, render, Rulesets};
use cfw_build::sets::{self, Family};

fn rules_record(fields: &[&str]) -> String {
    format!("{}\n", fields.join("\0"))
}

fn rules_resolved(pairs: &[(&str, &[&str])]) -> Resolved {
    let mut addrs = StrMap::new();
    for (name, list) in pairs {
        let v: Vec<Addr> = list
            .iter()
            .map(|a| Addr {
                family: if a.contains(':') { Family::V6 } else { Family::V4 },
                text: a.to_string(),
            })
            .collect();
        addrs.insert(name.to_string(), v);
    }
    Resolved { addrs }
}

/// Both families accept everything, as when probing is unavailable.
fn both(_: &[String]) -> Vec<Family> {
    vec![Family::V4, Family::V6]
}

fn build_all(input: &str, r: &Resolved) -> Rulesets {
    let decls = parse(input).unwrap();
    let s = sets::build(&decls, r, "CFWTMP_").unwrap();
    build(&decls, &s, r, "CFWTMP_", "CFWTMP_", &both).unwrap()
}

fn chain_rules<'a>(out: &'a Rulesets, family: Family, table: &str, chain: &str) -> &'a Vec<String> {
    out.get(&family).unwrap().tables.get(table).unwrap().chains.get(chain).unwrap()
}

#[test]
fn global_chain_keeps_its_plus() {
    let input = rules_record(&["rule", "12_drops.sh", "5", "filter", "+reject", "any", "any", "-j", "REJECT"]);
    let out = build_all(&input, &rules_resolved(&[]));
    assert!(out.get(&Family::V4).unwrap().tables.get("filter").unwrap().chains.contains_key("+reject"));
}

#[test]
fn local_chain_is_qualified_by_its_file() {
    let input = rules_record(&["rule", "30_cadev.sh", "1", "filter", "forward", "any", "any", "-j", "ACCEPT"]);
    let out = build_all(&input, &rules_resolved(&[]));
    assert!(out.get(&Family::V4).unwrap().tables.get("filter").unwrap().chains.contains_key("30_cadev+forward"));
}

#[test]
fn a_chain_fed_by_two_files_is_emitted_once() {
    let input = rules_record(&["rule", "12_drops.sh", "5", "filter", "+reject", "any", "any", "-j", "REJECT"])
        + &rules_record(&["rule", "50_log.sh", "2", "filter", "+reject", "any", "any", "-j", "DROP"]);
    let out = build_all(&input, &rules_resolved(&[]));
    let text = render(out.get(&Family::V4).unwrap(), "CFWTMP_");
    assert_eq!(text.matches(":CFWTMP_+reject").count(), 1);
    assert_eq!(text.matches("-A CFWTMP_+reject").count(), 2);
}

#[test]
fn jump_to_a_global_chain_is_prefixed() {
    let input = rules_record(&["rule", "12_drops.sh", "15", "filter", "+log_reject", "any", "any", "-j", "+reject"]);
    let out = build_all(&input, &rules_resolved(&[]));
    let text = render(out.get(&Family::V4).unwrap(), "CFWTMP_");
    assert!(text.contains("-j CFWTMP_+reject"), "{text}");
}

#[test]
fn alias_endpoint_emits_matching_direction_count() {
    let input = rules_record(&["alias", "a.sh", "1", "plain", "10.0.0.0/8"])
        + &rules_record(&["alias", "a.sh", "2", "ported", "10.0.0.0/8", "53", "udp"])
        + &rules_record(&["rule", "10_x.sh", "3", "filter", "forward", "plain", "ported", "-j", "ACCEPT"]);
    let out = build_all(&input, &rules_resolved(&[]));
    let text = render(out.get(&Family::V4).unwrap(), "CFWTMP_");
    assert!(text.contains("--match-set CFWTMP_plain src "), "{text}");
    assert!(text.contains("--match-set CFWTMP_ported dst,dst "), "{text}");
}

#[test]
fn a_rule_is_skipped_where_its_alias_has_no_set() {
    let input = rules_record(&["alias", "a.sh", "1", "v4only", "10.0.0.0/8"])
        + &rules_record(&["rule", "10_x.sh", "2", "filter", "forward", "v4only", "any", "-j", "ACCEPT"]);
    let out = build_all(&input, &rules_resolved(&[]));
    assert!(out.contains_key(&Family::V4));
    assert!(!out.contains_key(&Family::V6));
}

#[test]
fn literal_endpoint_goes_to_its_own_family_only() {
    let input = rules_record(&["rule", "10_x.sh", "1", "filter", "forward", "10.0.0.1", "any", "-j", "ACCEPT"]);
    let out = build_all(&input, &rules_resolved(&[]));
    assert!(chain_rules(&out, Family::V4, "filter", "10_x+forward")[0].starts_with("-s 10.0.0.1"));
    assert!(!out.contains_key(&Family::V6));
}

#[test]
fn hostname_endpoint_expands_to_one_rule_per_address() {
    let input = rules_record(&["rule", "10_x.sh", "1", "filter", "forward", "pool.example.test", "any", "-j", "ACCEPT"]);
    let r = rules_resolved(&[("pool.example.test", &["192.0.2.1", "192.0.2.2", "2001:db8::1"])]);
    let out = build_all(&input, &r);
    assert_eq!(chain_rules(&out, Family::V4, "filter", "10_x+forward").len(), 2);
    assert_eq!(chain_rules(&out, Family::V6, "filter", "10_x+forward").len(), 1);
}

#[test]
fn any_endpoint_emits_no_match() {
    let input = rules_record(&["rule", "10_x.sh", "1", "filter", "forward", "any", "any", "-j", "ACCEPT"]);
    let out = build_all(&input, &rules_resolved(&[]));
    assert_eq!(chain_rules(&out, Family::V4, "filter", "10_x+forward")[0], "-j ACCEPT");
}

#[test]
fn tail_arguments_with_spaces_are_quoted() {
    let input = rules_record(&[
        "rule", "12_drops.sh", "10", "filter", "+log_drop", "any", "any", "-j", "LOG", "--log-prefix", "LD: ",
    ]);
    let out = build_all(&input, &rules_resolved(&[]));
    let text = render(out.get(&Family::V4).unwrap(), "CFWTMP_");
    assert!(text.contains(r#"--log-prefix "LD: ""#), "{text}");
}

#[test]
fn each_table_gets_its_own_commit() {
    let input = rules_record(&["rule", "10_x.sh", "1", "filter", "forward", "any", "any", "-j", "ACCEPT"])
        + &rules_record(&["rule", "10_x.sh", "2", "nat", "prerouting", "any", "any", "-j", "REDIRECT"]);
    let out = build_all(&input, &rules_resolved(&[]));
    let text = render(out.get(&Family::V4).unwrap(), "CFWTMP_");
    assert_eq!(text.matches("COMMIT").count(), 2);
    assert!(text.contains("*filter"));
    assert!(text.contains("*nat"));
}

#[test]
fn rule_order_within_a_chain_is_preserved() {
    let input = rules_record(&["rule", "12_drops.sh", "5", "filter", "+reject", "any", "any", "-p", "tcp", "-j", "REJECT"])
        + &rules_record(&["rule", "12_drops.sh", "6", "filter", "+reject", "any", "any", "-j", "REJECT"])
        + &rules_record(&["rule", "12_drops.sh", "7", "filter", "+reject", "any", "any", "-j", "DROP"]);
    let out = build_all(&input, &rules_resolved(&[]));
    let rules = chain_rules(&out, Family::V4, "filter", "+reject");
    assert_eq!(rules[0], "-p tcp -j REJECT");
    assert_eq!(rules[2], "-j DROP");
}

#[test]
fn a_tail_only_one_family_accepts_is_emitted_once() {
    let input = rules_record(&[
        "rule", "50_log.sh", "9", "filter", "forward", "any", "any", "-p", "icmpv6", "--icmpv6-type", "echo-request",
        "-j", "DROP",
    ]);
    let decls = parse(&input).unwrap();
    let s = sets::build(&decls, &rules_resolved(&[]), "CFWTMP_").unwrap();
    let out = build(&decls, &s, &rules_resolved(&[]), "CFWTMP_", "CFWTMP_", &|_: &[String]| vec![Family::V6]).unwrap();
    assert!(!out.contains_key(&Family::V4));
    assert_eq!(chain_rules(&out, Family::V6, "filter", "50_log+forward").len(), 1);
}

#[test]
fn probe_sees_a_concrete_target_not_a_generated_chain() {
    let tail: Vec<String> = ["-j", "+reject"].iter().map(|s| s.to_string()).collect();
    assert_eq!(probe_tail(&tail), vec!["-j".to_string(), "ACCEPT".to_string()]);
}

#[test]
fn badly_named_config_file_is_rejected() {
    let input = rules_record(&["rule", "notnumbered.sh", "1", "filter", "forward", "any", "any", "-j", "ACCEPT"]);
    let decls = parse(&input).unwrap();
    let s = sets::build(&decls, &rules_resolved(&[]), "CFWTMP_").unwrap();
    let e = build(&decls, &s, &rules_resolved(&[]), "CFWTMP_", "CFWTMP_", &both).unwrap_err();
    assert!(e.message.contains("NN_name.sh"), "{}", e.message);
}

#[test]
fn render_declares_every_chain_before_its_rules() {
    let input = rules_record(&["rule", "10_x.sh", "1", "filter", "forward", "any", "any", "-j", "ACCEPT"])
        + &rules_record(&["rule", "12_drops.sh", "2", "filter", "+reject", "any", "any", "-j", "REJECT"]);
    let out = build_all(&input, &rules_resolved(&[]));
    let text = render(out.get(&Family::V4).unwrap(), "CFWTMP_");
    assert_eq!(
        text,
        "*filter\n\
         :CFWTMP_+reject - [0:0]\n\
         :CFWTMP_10_x+forward - [0:0]\n\
         -A CFWTMP_+reject -j REJECT\n\
         -A CFWTMP_10_x+forward -j ACCEPT\n\
         COMMIT\n"
    );
}

#[test]
fn quotes_and_backslashes_are_escaped_inside_quotes() {
    let input = rules_record(&[
        "rule", "10_x.sh", "1", "filter", "forward", "any", "any", "-m", "comment", "--comment", "say \"hi\\\"", "",
    ]);
    let out = build_all(&input, &rules_resolved(&[]));
    assert_eq!(
        chain_rules(&out, Family::V4, "filter", "10_x+forward")[0],
        "-m comment --comment \"say \\\"hi\\\\\\\"\" \"\""
    );
}

#[test]
fn trailing_whitespace_of_the_last_argument_is_trimmed() {
    let input = rules_record(&["rule", "10_x.sh", "1", "filter", "forward", "any", "any", "-j", "ACCEPT\u{3000}"]);
    let out = build_all(&input, &rules_resolved(&[]));
    assert_eq!(chain_rules(&out, Family::V4, "filter", "10_x+forward")[0], "-j ACCEPT");
}

#[test]
fn the_same_local_chain_in_two_files_is_two_chains() {
    let input = rules_record(&["rule", "10_x.sh", "1", "filter", "forward", "any", "any", "-j", "ACCEPT"])
        + &rules_record(&["rule", "20_y.sh", "1", "filter", "forward", "any", "any", "-j", "DROP"]);
    let out = build_all(&input, &rules_resolved(&[]));
    assert_eq!(chain_rules(&out, Family::V4, "filter", "10_x+forward"), &vec!["-j ACCEPT".to_string()]);
    assert_eq!(chain_rules(&out, Family::V4, "filter", "20_y+forward"), &vec!["-j DROP".to_string()]);
}

#[test]
fn a_bad_file_name_is_reported_with_its_origin() {
    let input = rules_record(&["rule", "_x.sh", "4", "filter", "forward", "any", "any", "-j", "ACCEPT"]);
    let decls = parse(&input).unwrap();
    let s = sets::build(&decls, &rules_resolved(&[]), "CFWTMP_").unwrap();
    let e = build(&decls, &s, &rules_resolved(&[]), "CFWTMP_", "CFWTMP_", &both).unwrap_err();
    assert_eq!(
        e.message,
        "rule at _x.sh:4: config file must be named NN_name.sh to qualify chain \"forward\""
    );
}

#[test]
fn the_probe_is_not_asked_past_a_bad_chain_name() {
    let input = rules_record(&["rule", "10_x.sh", "1", "filter", "forward", "any", "any", "-j", "ACCEPT"])
        + &rules_record(&["rule", "x.sh", "2", "filter", "forward", "any", "any", "-j", "DROP"])
        + &rules_record(&["rule", "11_y.sh", "3", "filter", "forward", "any", "any", "-j", "DROP"]);
    let decls = parse(&input).unwrap();
    let s = sets::build(&decls, &rules_resolved(&[]), "CFWTMP_").unwrap();
    let asked = std::cell::Cell::new(0);
    let counting = |_: &[String]| {
        asked.set(asked.get() + 1);
        vec![Family::V4]
    };
    assert!(build(&decls, &s, &rules_resolved(&[]), "CFWTMP_", "CFWTMP_", &counting).is_err());
    assert_eq!(asked.get(), 1);
}

#[test]
fn a_name_with_addresses_of_one_family_makes_rules_only_there() {
    let input = rules_record(&["rule", "10_x.sh", "1", "filter", "forward", "any", "v6.example.test", "-j", "ACCEPT"]);
    let r = rules_resolved(&[("v6.example.test", &["2001:db8::7"])]);
    let out = build_all(&input, &r);
    assert!(!out.contains_key(&Family::V4));
    assert_eq!(chain_rules(&out, Family::V6, "filter", "10_x+forward")[0], "-d 2001:db8::7 -j ACCEPT");
    assert_eq!(out.families(), vec![Family::V6]);
}

#[test]
fn an_unknown_name_that_is_no_alias_makes_no_rule() {
    let input = rules_record(&["rule", "10_x.sh", "1", "filter", "forward", "nowhere", "any", "-j", "ACCEPT"]);
    let out = build_all(&input, &rules_resolved(&[]));
    assert!(out.families().is_empty());
}

#[test]
fn sources_vary_slowest_across_expanded_endpoints() {
    let input = rules_record(&["rule", "10_x.sh", "1", "filter", "forward", "s.example.test", "d.example.test", "-j", "ACCEPT"]);
    let r = rules_resolved(&[("s.example.test", &["192.0.2.1", "192.0.2.2"]), ("d.example.test", &["198.51.100.1", "198.51.100.2"])]);
    let out = build_all(&input, &r);
    assert_eq!(
        chain_rules(&out, Family::V4, "filter", "10_x+forward"),
        &vec![
            "-s 192.0.2.1 -d 198.51.100.1 -j ACCEPT".to_string(),
            "-s 192.0.2.1 -d 198.51.100.2 -j ACCEPT".to_string(),
            "-s 192.0.2.2 -d 198.51.100.1 -j ACCEPT".to_string(),
            "-s 192.0.2.2 -d 198.51.100.2 -j ACCEPT".to_string(),
        ]
    );
}

#[test]
fn the_probe_tail_keeps_everything_but_generated_targets() {
    let tail: Vec<String> = ["-m", "comment", "--comment", "+x", "-j", "+reject", "+y"].iter().map(|s| s.to_string()).collect();
    assert_eq!(probe_tail(&tail), vec!["-m", "comment", "--comment", "+x", "-j", "ACCEPT", "+y"]);
}

/// Reads an argument back as iptables-restore does: a double-quoted one
/// loses its quotes, and a backslash inside takes the next character.
fn read_back(q: &str) -> String {
    let c: Vec<char> = q.chars().collect();
    if c.len() >= 2 && c[0] == '"' && c[c.len() - 1] == '"' {
        let inner = &c[1..c.len() - 1];
        let mut out = String::new();
        let mut i = 0;
        while i < inner.len() {
            if inner[i] == '\\' && i + 1 < inner.len() {
                out.push(inner[i + 1]);
                i += 2;
            } else {
                out.push(inner[i]);
                i += 1;
            }
        }
        out
    } else {
        q.to_string()
    }
}

#[test]
fn every_quoted_argument_reads_back_as_written() {
    for arg in ["plain", "LD: ", "", "a\"b", "back\\slash here", "\\\"", "tab\there", "\"quoted\""] {
        let input = rules_record(&["rule", "10_x.sh", "1", "filter", "forward", "any", "any", "-j", "LOG", arg, "end"]);
        let out = build_all(&input, &rules_resolved(&[]));
        let text = &chain_rules(&out, Family::V4, "filter", "10_x+forward")[0];
        let quoted = text.strip_prefix("-j LOG ").unwrap().strip_suffix(" end").unwrap();
        assert_eq!(read_back(quoted), arg, "{text}");
    }
}

#[test]
fn building_twice_gives_the_same_stream() {
    let input = rules_record(&["alias", "a.sh", "1", "lan", "10.0.0.0/8"])
        + &rules_record(&["rule", "10_x.sh", "2", "filter", "forward", "lan", "pool.example.test", "-j", "ACCEPT"])
        + &rules_record(&["rule", "12_drops.sh", "3", "filter", "+reject", "any", "any", "-j", "REJECT"]);
    let r = rules_resolved(&[("pool.example.test", &["192.0.2.1", "2001:db8::1"])]);
    let first = render(build_all(&input, &r).get(&Family::V4).unwrap(), "CFWTMP_");
    let second = render(build_all(&input, &r).get(&Family::V4).unwrap(), "CFWTMP_");
    assert_eq!(first, second);
}

#[test]
fn emit_rule_follows_the_families_given() {
    let rule = Rule {
        table: "filter".to_string(),
        chain: "forward".to_string(),
        src: "pool.example.test".to_string(),
        dst: "any".to_string(),
        tail: vec!["-j".to_string(), "+reject".to_string()],
        origin: Origin { file: "10_x.sh".to_string(), line: 1 },
    };
    let r = rules_resolved(&[("pool.example.test", &["192.0.2.1", "2001:db8::1"])]);
    let s = sets::build(&[], &r, "P_").unwrap();
    let mut out = Rulesets::new();
    emit_rule(&mut out, &rule, &"10_x+forward".to_string(), &[Family::V6], &s, &r, "P_", "S_");
    assert!(!out.contains_key(&Family::V4));
    assert_eq!(chain_rules(&out, Family::V6, "filter", "10_x+forward"), &vec!["-s 2001:db8::1 -j P_+reject".to_string()]);
    emit_rule(&mut out, &rule, &"10_x+forward".to_string(), &[Family::V4, Family::V6], &s, &r, "P_", "S_");
    assert_eq!(chain_rules(&out, Family::V4, "filter", "10_x+forward"), &vec!["-s 192.0.2.1 -j P_+reject".to_string()]);
    assert_eq!(chain_rules(&out, Family::V6, "filter", "10_x+forward").len(), 2);
}

#[test]
fn sets_are_named_under_the_set_prefix_and_targets_under_the_chain_prefix() {
    let input = rules_record(&["alias", "a.sh", "1", "lan", "10.0.0.0/8"])
        + &rules_record(&["rule", "10_x.sh", "2", "filter", "forward", "lan", "any", "-j", "+reject"]);
    let decls = parse(&input).unwrap();
    let r = rules_resolved(&[]);
    let s = sets::build(&decls, &r, "CFW_7_").unwrap();
    let out = build(&decls, &s, &r, "CFWTMP_", "CFW_7_", &both).unwrap();
    assert_eq!(
        chain_rules(&out, Family::V4, "filter", "10_x+forward")[0],
        "-m set --match-set CFW_7_lan src -j CFWTMP_+reject"
    );
    assert!(sets::render(&s, "CFW_7_").starts_with("create CFW_7_lan "));
}

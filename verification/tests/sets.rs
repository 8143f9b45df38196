use cfw_build::decl::parse;
use cfw_build::map::StrMap;
use cfw_build::resolve::{Addr, Resolved};
use cfw_build::sets::{build, render, Family, SetType, Sets};

fn sets_record(fields: &[&str]) -> String {
    format!("{}\n", fields.join("\0"))
}

fn sets_resolved(pairs: &[(&str, &[&str])]) -> Resolved {
    let mut addrs = StrMap::new();
    for (name, list) in pairs {
        let v: Vec<Addr> = list
            .iter()
            .map(|a| Addr {
                family: if a.contains(':') { Family::V6 } else { Family::V4 },
                text: a.to_string(),
            })
            .collect();
        addrs.insert(name.to_string(), v);
    }
    Resolved { addrs }
}

fn build_from(input: &str, r: &Resolved) -> Sets {
    build(&parse(input).unwrap(), r, "CFW_N_").unwrap()
}

#[test]
fn net_set_has_one_dimension_and_netport_has_two() {
    let input = sets_record(&["alias", "a.sh", "1", "plain", "10.0.0.0/8"])
        + &sets_record(&["alias", "a.sh", "2", "ported", "10.0.0.0/8", "53", "udp"]);
    let sets = build_from(&input, &sets_resolved(&[]));
    assert_eq!(sets.get("plain", Family::V4).unwrap().set_type.dimensions(), 1);
    assert_eq!(sets.get("ported", Family::V4).unwrap().set_type.dimensions(), 2);
}

#[test]
fn v6_literal_lands_in_the_v6_set() {
    let input = sets_record(&["alias", "a.sh", "1", "net", "10.10.255.32/28"])
        + &sets_record(&["alias", "a.sh", "2", "net", "fd51:2050:2220:502::/64"]);
    let sets = build_from(&input, &sets_resolved(&[]));
    assert_eq!(sets.get("net", Family::V4).unwrap().entries, ["10.10.255.32/28"]);
    assert_eq!(sets.get("net", Family::V6).unwrap().entries, ["fd51:2050:2220:502::/64"]);
    assert_eq!(sets.get("net", Family::V6).unwrap().name, "net_v6");
}

#[test]
fn a_name_fans_out_into_both_families() {
    let input = sets_record(&["alias", "a.sh", "1", "svc", "host.example.test", "53", "udp"]);
    let r = sets_resolved(&[("host.example.test", &["192.0.2.1", "2001:db8::1"])]);
    let sets = build_from(&input, &r);
    assert_eq!(sets.get("svc", Family::V4).unwrap().entries, ["192.0.2.1,udp:53"]);
    assert_eq!(sets.get("svc", Family::V6).unwrap().entries, ["2001:db8::1,udp:53"]);
}

#[test]
fn multiple_addresses_all_become_entries() {
    let input = sets_record(&["alias", "a.sh", "1", "pool", "pool.example.test"]);
    let r = sets_resolved(&[("pool.example.test", &["192.0.2.1", "192.0.2.2", "192.0.2.3"])]);
    let sets = build_from(&input, &r);
    assert_eq!(sets.get("pool", Family::V4).unwrap().entries.len(), 3);
}

#[test]
fn port_defaults_to_bare_when_no_proto() {
    let input = sets_record(&["alias", "a.sh", "1", "svc", "10.0.0.1", "8200"]);
    let sets = build_from(&input, &sets_resolved(&[]));
    assert_eq!(sets.get("svc", Family::V4).unwrap().entries, ["10.0.0.1,8200"]);
}

#[test]
fn any_with_a_port_is_a_port_bitmap() {
    let input = sets_record(&["alias", "a.sh", "1", "ports", "any", "443", "tcp"]);
    let sets = build_from(&input, &sets_resolved(&[]));
    let set = sets.get("ports", Family::V4).unwrap();
    assert_eq!(set.set_type, SetType::Port);
    assert_eq!(set.entries, ["tcp:443"]);
}

#[test]
fn a_port_bitmap_is_one_set_reached_only_from_v4() {
    let input = sets_record(&["alias", "a.sh", "1", "ports", "any", "443", "tcp"]);
    let sets = build_from(&input, &sets_resolved(&[]));
    // One set, named without the _v6 suffix. A v6 rule finds nothing, which
    // is what the shell does, so no rule appears where none did before.
    assert_eq!(sets.by_name.len(), 1);
    assert_eq!(sets.get("ports", Family::V4).unwrap().name, "ports");
    assert!(sets.get("ports", Family::V6).is_none());
}

#[test]
fn an_alias_ending_in_v6_collides_with_the_v6_half_of_its_stem() {
    let input = sets_record(&["alias", "a.sh", "1", "lan", "fd00::/64"])
        + &sets_record(&["alias", "a.sh", "2", "lan_v6", "10.0.0.0/8"]);
    let e = build(&parse(&input).unwrap(), &sets_resolved(&[]), "CFW_N_").unwrap_err();
    assert!(e.message.contains("lan_v6"), "{}", e.message);
}

#[test]
fn every_unusable_name_is_reported_in_one_pass() {
    let input = sets_record(&["alias", "a.sh", "1", "lan_v6", "10.0.0.0/8"])
        + &sets_record(&["alias", "b.sh", "7", "wan_v6", "10.1.0.0/16"]);
    let e = build(&parse(&input).unwrap(), &sets_resolved(&[]), "CFW_N_").unwrap_err();
    assert!(e.message.contains("2 unusable"), "{}", e.message);
    assert!(e.message.contains("a.sh:1"), "{}", e.message);
    assert!(e.message.contains("b.sh:7"), "{}", e.message);
}

#[test]
fn an_alias_too_long_for_ipset_is_rejected_by_name() {
    // 21 characters: with "CFW_102_" and "_v6" that is 32, one over.
    let input = sets_record(&["alias", "a.sh", "1", "a-quite-long-alias-nm", "10.0.0.1"]);
    let e = build(&parse(&input).unwrap(), &sets_resolved(&[]), "CFW_102_").unwrap_err();
    assert!(e.message.contains("shorten the alias by 1"), "{}", e.message);
}

#[test]
fn the_budget_shrinks_as_the_version_grows() {
    // The same alias fits under a shorter prefix and not under a longer one.
    let input = sets_record(&["alias", "a.sh", "1", "twenty-char-alias-nm", "10.0.0.1"]);
    let decls = parse(&input).unwrap();
    assert!(build(&decls, &sets_resolved(&[]), "CFW_102_").is_ok());
    assert!(build(&decls, &sets_resolved(&[]), "CFW_10200_").is_err());
}

#[test]
fn any_without_a_port_is_rejected() {
    let input = sets_record(&["alias", "a.sh", "1", "bad", "any"]);
    let e = build(&parse(&input).unwrap(), &sets_resolved(&[]), "CFW_N_").unwrap_err();
    assert!(e.message.contains("needs a port"));
}

#[test]
fn render_emits_create_then_adds() {
    let input = sets_record(&["alias", "a.sh", "1", "net", "10.0.0.0/8"])
        + &sets_record(&["alias", "a.sh", "2", "net", "10.1.0.0/16"]);
    let sets = build_from(&input, &sets_resolved(&[]));
    let out = render(&sets, "CFW_61_");
    assert_eq!(
        out,
        "create CFW_61_net hash:net family inet counters\n\
         add CFW_61_net 10.0.0.0/8\n\
         add CFW_61_net 10.1.0.0/16\n"
    );
}

#[test]
fn mixing_ported_and_unported_in_one_alias_is_rejected() {
    let input = sets_record(&["alias", "a.sh", "1", "svc", "10.0.0.1", "53", "udp"])
        + &sets_record(&["alias", "a.sh", "2", "svc", "10.0.0.2"]);
    let e = build(&parse(&input).unwrap(), &sets_resolved(&[]), "CFW_N_").unwrap_err();
    assert!(e.message.contains("all ported or all unported"), "{}", e.message);
}

#[test]
fn a_name_resolving_to_one_family_makes_only_that_set() {
    let input = sets_record(&["alias", "a.sh", "1", "v4only", "legacy.example.test"]);
    let r = sets_resolved(&[("legacy.example.test", &["192.0.2.9"])]);
    let sets = build_from(&input, &r);
    assert!(sets.get("v4only", Family::V4).is_some());
    assert!(sets.get("v4only", Family::V6).is_none());
}

#[test]
fn every_set_sits_under_its_own_name() {
    let input = sets_record(&["alias", "a.sh", "1", "net", "10.0.0.0/8"])
        + &sets_record(&["alias", "a.sh", "2", "net", "fd00::/8"])
        + &sets_record(&["alias", "a.sh", "3", "ports", "any", "22"]);
    let sets = build_from(&input, &sets_resolved(&[]));
    assert_eq!(sets.by_name.len(), 3);
    for i in 0..sets.by_name.len() {
        let set = sets.by_name.value_at(i);
        assert_eq!(sets.by_name.key_at(i), &set.name);
        assert!(!set.entries.is_empty());
        assert_eq!(set.family == Family::V6, set.name.ends_with("_v6"));
    }
}

#[test]
fn literals_and_names_are_told_apart() {
    assert_eq!(Family::of_literal("10.0.0.1"), Family::V4);
    assert_eq!(Family::of_literal("fd00::1"), Family::V6);
    assert_eq!(Sets::set_name("lan", Family::V4), "lan");
    assert_eq!(Sets::set_name("lan", Family::V6), "lan_v6");
    assert_eq!(SetType::Port.dimensions(), 1);
}

#[test]
fn a_ported_name_renders_both_families() {
    let input = sets_record(&["alias", "a.sh", "1", "svc", "host.example.test", "53", "icmp"]);
    let r = sets_resolved(&[("host.example.test", &["192.0.2.1", "2001:db8::1"])]);
    let sets = build_from(&input, &r);
    assert_eq!(
        render(&sets, "P_"),
        "create P_svc hash:net,port family inet counters\n\
         add P_svc 192.0.2.1,53\n\
         create P_svc_v6 hash:net,port family inet6 counters\n\
         add P_svc_v6 2001:db8::1,53\n"
    );
}

#[test]
fn a_mixed_alias_names_both_kinds() {
    let input = sets_record(&["alias", "a.sh", "1", "svc", "10.0.0.1"])
        + &sets_record(&["alias", "a.sh", "2", "svc", "10.0.0.2", "53"]);
    let e = build(&parse(&input).unwrap(), &sets_resolved(&[]), "CFW_N_").unwrap_err();
    assert_eq!(
        e.message,
        "alias svc at a.sh:2: already built as Net, cannot also hold NetPort entries \u{2014} an alias is either all ported or all unported"
    );
}

#[test]
fn the_prefix_only_decides_whether_names_fit() {
    let input = sets_record(&["alias", "a.sh", "1", "svc", "host.example.test", "53", "udp"]);
    let decls = parse(&input).unwrap();
    let r = sets_resolved(&[("host.example.test", &["192.0.2.1"])]);
    let short = build(&decls, &r, "CFW_1_").unwrap();
    let longer = build(&decls, &r, "CFW_1000_").unwrap();
    assert_eq!(render(&short, "X_"), render(&longer, "X_"));
    let bad = sets_record(&["alias", "a.sh", "1", "bad_v6", "host.example.test"]);
    let bad = parse(&bad).unwrap();
    let e1 = build(&bad, &r, "CFW_1_").unwrap_err();
    let e2 = build(&bad, &sets_resolved(&[]), "CFW_1_").unwrap_err();
    assert_eq!(e1.message, e2.message);
    assert!(e1.message.starts_with("1 unusable alias name(s):\n  alias bad_v6 at a.sh:1: "));
}

use cfw_build::map::StrMap;

#[test]
fn a_key_reads_back_its_last_value_and_others_are_untouched() {
    let mut m: StrMap<Vec<String>> = StrMap::new();
    m.insert("b".to_string(), vec!["one".to_string()]);
    m.insert("a".to_string(), vec!["two".to_string()]);
    m.insert("b".to_string(), vec!["three".to_string()]);
    assert_eq!(m.len(), 2);
    assert_eq!(m.get("b").unwrap(), &vec!["three".to_string()]);
    assert_eq!(m.get("a").unwrap(), &vec!["two".to_string()]);
    assert!(m.get("c").is_none());
    assert!(!m.contains_key("c"));
}

#[test]
fn keys_are_walked_in_order() {
    let mut m: StrMap<Vec<String>> = StrMap::new();
    for k in ["zeta", "alpha", "mid", "Alpha", "alpha2"] {
        m.insert(k.to_string(), Vec::new());
    }
    let keys: Vec<String> = (0..m.len()).map(|i| m.key_at(i).clone()).collect();
    assert_eq!(keys, vec!["Alpha", "alpha", "alpha2", "mid", "zeta"]);
    assert_eq!(m.position("mid"), Some(3));
    assert_eq!(m.position("nope"), None);
}

#[test]
fn a_slot_keeps_an_existing_value() {
    let mut m: StrMap<Vec<String>> = StrMap::new();
    m.insert("k".to_string(), vec!["kept".to_string()]);
    let i = m.slot("k".to_string(), Vec::new());
    assert_eq!(m.value_at(i), &vec!["kept".to_string()]);
    let j = m.slot("j".to_string(), vec!["fresh".to_string()]);
    assert_eq!(j, 0);
    assert_eq!(m.value_at(0), &vec!["fresh".to_string()]);
    m.value_mut(1).push("more".to_string());
    assert_eq!(m.get("k").unwrap().len(), 2);
}

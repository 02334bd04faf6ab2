use tscodec::data_structures::time_series::TimeSeries;
use tscodec::data_structures::ts_map::{fold_case, TSMap};

#[test]
fn an_empty_registry_finds_nothing() {
    let m = TSMap::new();
    assert!(m.get("cpu").is_none());
    assert!(m.scan().is_empty());
}

#[test]
fn lookup_ignores_the_case_of_letters() {
    let mut m = TSMap::new();
    m.insert(String::from("CPU"), 1000, 1.0f64.to_bits());
    let found = m.get("cpu").expect("registered under another case");
    assert_eq!(found.get_key(), "CPU");
    assert_eq!(found.get_last_timestamp(), 1000);
    assert!(m.get("Cpu").is_some());
    assert!(m.get("cpu0").is_none());
}

#[test]
fn insert_under_another_case_replaces_the_series() {
    let mut m = TSMap::new();
    m.insert(String::from("CPU"), 1000, 1.0f64.to_bits());
    m.get_mut("cpu").unwrap().append(1001, 2.0f64.to_bits()).unwrap();
    m.insert(String::from("cpu"), 5000, 3.0f64.to_bits());
    let found = m.get("CPU").unwrap();
    assert_eq!(found.get_key(), "cpu");
    assert_eq!(found.get_last_timestamp(), 5000);
    assert_eq!(f64::from_bits(found.get_last_value()), 3.0);
    assert!(found.get_compressed_timestamps().is_empty());
    assert_eq!(m.scan().len(), 1);
}

#[test]
fn lookup_folds_letters_outside_ascii() {
    let mut m = TSMap::new();
    m.insert(String::from("ÄRGER.Größe"), 1, 0);
    assert!(m.get("ärger.GRÖßE").is_some());
    assert!(m.get("arger.grosse").is_none());
}

#[test]
fn scan_lists_every_series_once() {
    let mut m = TSMap::new();
    m.insert(String::from("a"), 1, 0);
    m.insert(String::from("b"), 2, 0);
    m.insert(String::from("A"), 3, 0);
    m.insert(String::from("c"), 4, 0);
    let all = m.scan();
    let mut names: Vec<&str> = all.iter().map(|s| s.get_key()).collect();
    names.sort();
    assert_eq!(names, vec!["A", "b", "c"]);
}

#[test]
fn appending_to_one_series_leaves_the_others() {
    let mut m = TSMap::new();
    m.insert(String::from("a"), 1000, 1.0f64.to_bits());
    m.insert(String::from("b"), 1000, 1.0f64.to_bits());
    m.get_mut("A").unwrap().append(1001, 1.0f64.to_bits()).unwrap();
    m.get_mut("B").unwrap().append(1001, 2.0f64.to_bits()).unwrap();
    m.get_mut("a").unwrap().append(1003, 1.0f64.to_bits()).unwrap();
    m.get_mut("a").unwrap().finalize().unwrap();
    m.get_mut("b").unwrap().finalize().unwrap();
    let a = m.get("a").unwrap();
    let b = m.get("b").unwrap();
    assert_eq!(a.get_compressed_timestamps(), vec![0x80, 0xc0, 0x40]);
    assert_eq!(a.get_compressed_values(), vec![0x00]);
    assert_eq!(b.get_compressed_timestamps(), vec![0x80, 0x80]);
    assert_eq!(b.get_compressed_values(), vec![0xbf, 0xf8]);
    assert!(m.get_mut("c").is_none());
}

#[test]
fn fold_case_gives_the_lower_case_form() {
    assert_eq!(fold_case("CPU.Load-1"), "cpu.load-1");
    assert_eq!(fold_case("already lower"), "already lower");
    assert_eq!(fold_case("ÄÖÜ"), "äöü");
    assert_eq!(fold_case(""), "");
}

#[test]
fn names_given_folded_are_kept_as_they_are() {
    let mut m = TSMap::new();
    m.insert_folded(String::from("cpu"), TimeSeries::new(String::from("CPU"), 1, 0));
    m.insert_folded(String::from("Gpu"), TimeSeries::new(String::from("GPU"), 2, 0));
    assert_eq!(m.get_folded("cpu").unwrap().get_key(), "CPU");
    assert!(m.get_folded("CPU").is_none());
    assert_eq!(m.get("CPU").unwrap().get_last_timestamp(), 1);
    // a name that is not in lower case is found by no lookup that folds
    assert!(m.get("Gpu").is_none());
    assert_eq!(m.get_folded("Gpu").unwrap().get_last_timestamp(), 2);
    m.get_mut_folded("cpu").unwrap().append(5, 0).unwrap();
    assert_eq!(m.get_folded("cpu").unwrap().get_last_timestamp(), 5);
    assert!(m.get_mut_folded("disk").is_none());
}

#[test]
fn a_replaced_series_keeps_its_place() {
    let mut m = TSMap::new();
    m.insert(String::from("a"), 1, 0);
    m.insert(String::from("b"), 2, 0);
    m.insert(String::from("A"), 3, 0);
    let all = m.scan();
    assert_eq!(all.len(), 2);
    assert_eq!(all[0].get_key(), "A");
    assert_eq!(all[0].get_last_timestamp(), 3);
    assert_eq!(all[1].get_key(), "b");
}

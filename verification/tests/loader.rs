use updates_core::cache::{load, Evr, LoadError, NevraId, Package};
use updates_core::codec::{
    encode_evr_row, encode_index_row, encode_package_row, encode_str_row, encode_u64_list_row,
    encode_u64_row,
};

fn entry(key: &str, val: String) -> (String, String) {
    (String::from(key), val)
}

fn load_err(entries: &Vec<(String, String)>) -> LoadError {
    match load(entries) {
        Err(e) => e,
        Ok(_) => panic!("the load should fail"),
    }
}

#[test]
fn load_fills_every_table() {
    let entries = vec![
        entry("packagename2id:foo", encode_u64_row(1)),
        entry("id2packagename:1", encode_str_row("foo")),
        entry("updates:1", encode_u64_list_row(&vec![101, 102])),
        entry("updates_index:1", encode_index_row(&vec![(10, vec![0]), (11, vec![1])])),
        entry("evr2id:1:1:1", encode_u64_row(10)),
        entry("id2evr:10", encode_evr_row(&Evr(1, String::from("1"), String::from("1")))),
        entry("arch2id:x86_64", encode_u64_row(5)),
        entry("id2arch:5", encode_str_row("x86_64")),
        entry("arch_compat:5", encode_u64_list_row(&vec![5])),
        entry(
            "package_details:101",
            encode_package_row(&Package {
                name_id: 1,
                evr_id: 10,
                arch_id: 5,
                summary: Some(String::from("s1")),
                desc: None,
                source_pkg_id: None,
            }),
        ),
        entry("nevra2pkgid:1:10:5", encode_u64_row(101)),
        entry(
            "repo_detail:7",
            encode_str_row("repo1")
                + &encode_str_row("Repo One")
                + &encode_str_row("http://r/7")
                + &encode_str_row("x86_64")
                + &encode_str_row("9")
                + "-:-:",
        ),
        entry("repolabel2ids:repo1", encode_u64_list_row(&vec![7])),
        entry("productid2repoids:3", encode_u64_list_row(&vec![7])),
        entry("pkgid2repoids:101", encode_u64_list_row(&vec![7])),
        entry("errataid2name:55", encode_str_row("E1")),
        entry("pkgid2errataids:102", encode_u64_list_row(&vec![55])),
        entry("errataid2repoids:55", encode_u64_list_row(&vec![7])),
        entry("cve_detail:CVE-1", String::new()),
        entry("dbchange:anything", String::from("ignored")),
        entry("errata_detail:E1", String::new()),
        entry("pkgerrata2module:x", String::from("ignored")),
        entry("modulename2id:m", encode_str_row("mid")),
        entry("src_pkg_id2pkg_ids:sp", encode_u64_list_row(&vec![101])),
    ];
    let cache = load(&entries).unwrap();
    assert_eq!(cache.name_to_id.get(&String::from("foo")), Some(&1));
    assert_eq!(cache.id_to_name.get(1), Some(&String::from("foo")));
    assert_eq!(cache.updates.get(1), Some(&vec![101, 102]));
    assert_eq!(cache.updates_index.get(1).unwrap().data.get(10), Some(&vec![0]));
    assert_eq!(cache.evr_to_id.get(&Evr(1, String::from("1"), String::from("1"))), Some(10));
    assert_eq!(cache.id_to_evr.get(10).unwrap().1, "1");
    assert_eq!(cache.arch_to_id.get(&String::from("x86_64")), Some(&5));
    assert_eq!(cache.id_to_arch.get(5), Some(&String::from("x86_64")));
    assert_eq!(cache.arch_compat.get(5), Some(&vec![5]));
    assert_eq!(cache.pkg_details.get(101).unwrap().summary.as_deref(), Some("s1"));
    assert_eq!(cache.nevra_to_pkgid.get(NevraId(1, 10, 5)), Some(101));
    assert_eq!(cache.repo_detail.get(7).unwrap().label, "repo1");
    assert_eq!(cache.repolabel_to_ids.get(&String::from("repo1")), Some(&vec![7]));
    assert_eq!(cache.productid_to_repoids.get(3), Some(&vec![7]));
    assert_eq!(cache.pkgid_to_repoids.get(101), Some(&vec![7]));
    assert_eq!(cache.errataid_to_name.get(55), Some(&String::from("E1")));
    assert_eq!(cache.pkgid_to_errataids.get(102), Some(&vec![55]));
    assert_eq!(cache.errataid_to_repoids.get(55), Some(&vec![7]));
    assert!(cache.cve_detail.get(&String::from("CVE-1")).is_some());
    assert!(cache.errata_detail.get(&String::from("E1")).is_some());
    assert_eq!(cache.modulename_to_id.get(&String::from("m")), Some(&String::from("mid")));
    assert_eq!(cache.src_pkg_id_to_pkg_ids.get(&String::from("sp")), Some(&vec![101]));
    // discarded tables stay empty
    assert!(cache.dbchange.get(&String::from("anything")).is_none());
    assert!(cache.pkgerrata_to_module.get(&String::from("x")).is_none());
}

#[test]
fn load_rejects_unknown_table() {
    let entries = vec![entry("bogus_table:1", encode_u64_row(1))];
    assert_eq!(load_err(&entries), LoadError::UnknownTable);
}

#[test]
fn load_rejects_bad_key() {
    // no colon at all
    let entries = vec![entry("nocolonhere", encode_u64_row(1))];
    assert_eq!(load_err(&entries), LoadError::BadKey);
    // a row id that is not a number
    let entries2 = vec![entry("updates:abc", encode_u64_list_row(&vec![1]))];
    assert_eq!(load_err(&entries2), LoadError::BadKey);
}

#[test]
fn load_rejects_bad_row() {
    let entries = vec![entry("updates:1", String::from("junk"))];
    assert_eq!(load_err(&entries), LoadError::BadRow);
    let entries2 = vec![entry("cve_detail:X", String::from("not empty"))];
    assert_eq!(load_err(&entries2), LoadError::BadRow);
}

#[test]
fn load_stops_at_first_error() {
    // the bad row comes first, so the load fails even though a good row follows
    let entries = vec![
        entry("no_such:1", encode_u64_row(1)),
        entry("packagename2id:foo", encode_u64_row(1)),
    ];
    assert_eq!(load_err(&entries), LoadError::UnknownTable);
}

#[test]
fn load_last_row_wins() {
    let entries = vec![
        entry("packagename2id:foo", encode_u64_row(1)),
        entry("packagename2id:foo", encode_u64_row(2)),
    ];
    let cache = load(&entries).unwrap();
    assert_eq!(cache.name_to_id.get(&String::from("foo")), Some(&2));
}

use updates_core::apis::updates::{check_wf, UpdatesApi, UpdatesData, UpdatesReq};
use updates_core::cache::{load, Cache, Evr, Package};
use updates_core::codec::{
    encode_evr_row, encode_index_row, encode_package_row, encode_repo_row, encode_str_row,
    encode_u64_list_row, encode_u64_row,
};
use updates_core::CoreError;

fn entry(key: &str, val: String) -> (String, String) {
    (String::from(key), val)
}

fn pkg_row(name_id: u64, evr_id: u64, arch_id: u64, summary: &str) -> String {
    encode_package_row(&Package {
        name_id,
        evr_id,
        arch_id,
        summary: Some(String::from(summary)),
        desc: Some(String::from("desc")),
        source_pkg_id: None,
    })
}

fn repo_row(label: &str, url: &str, basearch: &str, releasever: &str) -> String {
    encode_repo_row(&updates_core::cache::Repo {
        label: String::from(label),
        name: String::from(label),
        url: String::from(url),
        basearch: Some(String::from(basearch)),
        releasever: Some(String::from(releasever)),
        product: None,
        product_id: Some(3),
    })
}

/// A snapshot with one name "foo" whose chain is
/// [101 (1:1-1, x86_64), 102 (1:2-1, x86_64), 103 (1:2-1, aarch64)],
/// an erratum E1 on 102 and 103, and one repository "repo1".
/// `compat` is the compatibility list of x86_64.
fn scenario(compat: Vec<u64>) -> Cache {
    let entries = vec![
        entry("packagename2id:foo", encode_u64_row(1)),
        entry("id2packagename:1", encode_str_row("foo")),
        entry("updates:1", encode_u64_list_row(&vec![101, 102, 103])),
        entry(
            "updates_index:1",
            encode_index_row(&vec![(10, vec![0]), (11, vec![1, 2])]),
        ),
        entry("evr2id:1:1:1", encode_u64_row(10)),
        entry("evr2id:1:2:1", encode_u64_row(11)),
        entry("id2evr:10", encode_evr_row(&Evr(1, String::from("1"), String::from("1")))),
        entry("id2evr:11", encode_evr_row(&Evr(1, String::from("2"), String::from("1")))),
        entry("arch2id:x86_64", encode_u64_row(5)),
        entry("arch2id:aarch64", encode_u64_row(6)),
        entry("id2arch:5", encode_str_row("x86_64")),
        entry("id2arch:6", encode_str_row("aarch64")),
        entry("arch_compat:5", encode_u64_list_row(&compat)),
        entry("arch_compat:6", encode_u64_list_row(&vec![])),
        entry("package_details:101", pkg_row(1, 10, 5, "s101")),
        entry("package_details:102", pkg_row(1, 11, 5, "s102")),
        entry("package_details:103", pkg_row(1, 11, 6, "s103")),
        entry("repo_detail:7", repo_row("repo1", "http://r/9/os", "x86_64", "9")),
        entry("repolabel2ids:repo1", encode_u64_list_row(&vec![7])),
        entry("pkgid2repoids:101", encode_u64_list_row(&vec![7])),
        entry("pkgid2repoids:102", encode_u64_list_row(&vec![7])),
        entry("pkgid2repoids:103", encode_u64_list_row(&vec![7])),
        entry("errataid2name:55", encode_str_row("E1")),
        entry("pkgid2errataids:102", encode_u64_list_row(&vec![55])),
        entry("pkgid2errataids:103", encode_u64_list_row(&vec![55])),
        entry("errataid2repoids:55", encode_u64_list_row(&vec![7])),
    ];
    let cache = load(&entries).unwrap();
    assert!(check_wf(&cache));
    cache
}

fn request(pkgs: &[&str]) -> UpdatesReq {
    UpdatesReq {
        package_list: pkgs.iter().map(|s| String::from(*s)).collect(),
        repository_list: None,
        modules_list: None,
        releasever: None,
        basearch: None,
    }
}

/// The update records of one package, each flattened to strings.
fn records(data: &UpdatesData, pkg: &str) -> Vec<(String, String, String, String, String)> {
    let detail = data.update_list.get(&String::from(pkg)).unwrap();
    let mut out: Vec<(String, String, String, String, String)> = detail
        .available_updates
        .iter()
        .map(|u| {
            (
                u.package.to_string(),
                u.erratum.clone(),
                u.repository.clone().unwrap_or_default(),
                u.basearch.clone().unwrap_or_default(),
                u.releasever.clone().unwrap_or_default(),
            )
        })
        .collect();
    out.sort();
    out
}

#[test]
fn example_update_found() {
    // requesting the older build yields the newer build through its erratum
    let cache = scenario(vec![6]);
    let data = UpdatesApi::process_list(&cache, request(&["foo-1:1-1.x86_64"])).unwrap();
    let recs = records(&data, "foo-1:1-1.x86_64");
    assert_eq!(
        recs,
        vec![
            (
                String::from("foo-1:2-1.aarch64"),
                String::from("E1"),
                String::from("repo1"),
                String::from("x86_64"),
                String::from("9"),
            ),
            (
                String::from("foo-1:2-1.x86_64"),
                String::from("E1"),
                String::from("repo1"),
                String::from("x86_64"),
                String::from("9"),
            ),
        ]
    );
    let detail = data.update_list.get(&String::from("foo-1:1-1.x86_64")).unwrap();
    assert_eq!(detail.summary.as_deref(), Some("s101"));
    assert_eq!(detail.description.as_deref(), Some("desc"));
}

#[test]
fn newest_is_silent() {
    // the anchor is the last chain element: entry present, no updates
    let cache = scenario(vec![6]);
    let data = UpdatesApi::process_list(&cache, request(&["foo-1:2-1.aarch64"])).unwrap();
    let detail = data.update_list.get(&String::from("foo-1:2-1.aarch64")).unwrap();
    assert!(detail.available_updates.is_empty());
    assert_eq!(detail.summary.as_deref(), Some("s103"));
    assert_eq!(detail.description.as_deref(), Some("desc"));
    // an anchor whose version has later same-version siblings only is
    // silent too: the candidate range starts after the last sibling
    let data2 = UpdatesApi::process_list(&cache, request(&["foo-1:2-1.x86_64"])).unwrap();
    let detail2 = data2.update_list.get(&String::from("foo-1:2-1.x86_64")).unwrap();
    assert!(detail2.available_updates.is_empty());
    assert_eq!(detail2.summary.as_deref(), Some("s102"));
}

#[test]
fn unknown_name_is_invisible() {
    let cache = scenario(vec![6]);
    let data = UpdatesApi::process_list(&cache, request(&["bar-1:1-1.x86_64"])).unwrap();
    assert!(data.update_list.get(&String::from("bar-1:1-1.x86_64")).is_none());
}

#[test]
fn unknown_evr_or_arch_anchor_is_skipped() {
    let cache = scenario(vec![6]);
    // version unknown to the index: no entry at all
    let data = UpdatesApi::process_list(&cache, request(&["foo-1:9-9.x86_64"])).unwrap();
    assert!(data.update_list.get(&String::from("foo-1:9-9.x86_64")).is_none());
    // no build of this version carries aarch64... the 1:1-1 version only
    // exists as x86_64, so an aarch64 request finds no anchor
    let data2 = UpdatesApi::process_list(&cache, request(&["foo-1:1-1.aarch64"])).unwrap();
    assert!(data2.update_list.get(&String::from("foo-1:1-1.aarch64")).is_none());
}

#[test]
fn unknown_arch_fails_request() {
    let cache = scenario(vec![6]);
    let err = match UpdatesApi::process_list(&cache, request(&["foo-1:1-1.armv7"])) {
        Err(e) => e,
        Ok(_) => panic!("the unknown architecture should fail the request"),
    };
    assert_eq!(err, CoreError::ArchNotFound);
    assert_eq!(err.message(), "Arch id not found");
}

#[test]
fn arch_compat_closure() {
    // without a compatibility row entry, the aarch64 candidate disappears
    let cache = scenario(vec![]);
    let data = UpdatesApi::process_list(&cache, request(&["foo-1:1-1.x86_64"])).unwrap();
    let recs = records(&data, "foo-1:1-1.x86_64");
    assert_eq!(recs.len(), 1);
    assert_eq!(recs[0].0, "foo-1:2-1.x86_64");
}

#[test]
fn resolution_is_idempotent() {
    let cache = scenario(vec![6]);
    let d1 = UpdatesApi::process_list(&cache, request(&["foo-1:1-1.x86_64"])).unwrap();
    let d2 = UpdatesApi::process_list(&cache, request(&["foo-1:1-1.x86_64"])).unwrap();
    assert_eq!(records(&d1, "foo-1:1-1.x86_64"), records(&d2, "foo-1:1-1.x86_64"));
}

#[test]
fn scope_narrowing_never_adds_records() {
    let cache = scenario(vec![6]);
    let mut wide = request(&["foo-1:1-1.x86_64"]);
    wide.repository_list = Some(vec![String::from("repo1")]);
    let mut narrow = request(&["foo-1:1-1.x86_64"]);
    narrow.repository_list = Some(vec![]);
    let dw = UpdatesApi::process_list(&cache, wide).unwrap();
    let dn = UpdatesApi::process_list(&cache, narrow).unwrap();
    let w = records(&dw, "foo-1:1-1.x86_64");
    let n = records(&dn, "foo-1:1-1.x86_64");
    assert!(n.len() <= w.len());
    assert_eq!(n.len(), 0);
    assert_eq!(w.len(), 2);
    assert_eq!(dw.repository_list, Some(vec![String::from("repo1")]));
}

#[test]
fn releasever_filter_keeps_matching_repos() {
    let cache = scenario(vec![6]);
    let mut req = request(&["foo-1:1-1.x86_64"]);
    req.releasever = Some(String::from("9"));
    let data = UpdatesApi::process_list(&cache, req).unwrap();
    assert_eq!(records(&data, "foo-1:1-1.x86_64").len(), 2);
    assert_eq!(data.releasever.as_deref(), Some("9"));

    let mut req8 = request(&["foo-1:1-1.x86_64"]);
    req8.releasever = Some(String::from("8"));
    let data8 = UpdatesApi::process_list(&cache, req8).unwrap();
    // the repository declares releasever 9, so the scope is empty: the
    // entry stays, its updates vanish
    assert_eq!(records(&data8, "foo-1:1-1.x86_64").len(), 0);
    assert_eq!(data8.releasever.as_deref(), Some("8"));
}

#[test]
fn basearch_filter_keeps_matching_repos() {
    let cache = scenario(vec![6]);
    let mut req = request(&["foo-1:1-1.x86_64"]);
    req.basearch = Some(String::from("x86_64"));
    let data = UpdatesApi::process_list(&cache, req).unwrap();
    assert_eq!(records(&data, "foo-1:1-1.x86_64").len(), 2);
    assert_eq!(data.basearch.as_deref(), Some("x86_64"));

    let mut reqo = request(&["foo-1:1-1.x86_64"]);
    reqo.basearch = Some(String::from("s390x"));
    let datao = UpdatesApi::process_list(&cache, reqo).unwrap();
    assert_eq!(records(&datao, "foo-1:1-1.x86_64").len(), 0);
}

#[test]
fn duplicate_request_strings_yield_one_entry() {
    let cache = scenario(vec![6]);
    let data = UpdatesApi::process_list(
        &cache,
        request(&["foo-1:1-1.x86_64", "foo-1:1-1.x86_64"]),
    )
    .unwrap();
    // one entry, with the records emitted once
    assert_eq!(records(&data, "foo-1:1-1.x86_64").len(), 2);
}

#[test]
fn candidate_without_errata_is_skipped() {
    // without an errata link on the newer build, nothing is offered
    let mut entries = vec![
        entry("packagename2id:foo", encode_u64_row(1)),
        entry("id2packagename:1", encode_str_row("foo")),
        entry("updates:1", encode_u64_list_row(&vec![101, 102])),
        entry("updates_index:1", encode_index_row(&vec![(10, vec![0]), (11, vec![1])])),
        entry("evr2id:1:1:1", encode_u64_row(10)),
        entry("evr2id:1:2:1", encode_u64_row(11)),
        entry("id2evr:10", encode_evr_row(&Evr(1, String::from("1"), String::from("1")))),
        entry("id2evr:11", encode_evr_row(&Evr(1, String::from("2"), String::from("1")))),
        entry("arch2id:x86_64", encode_u64_row(5)),
        entry("id2arch:5", encode_str_row("x86_64")),
        entry("arch_compat:5", encode_u64_list_row(&vec![])),
        entry("package_details:101", pkg_row(1, 10, 5, "s101")),
        entry("package_details:102", pkg_row(1, 11, 5, "s102")),
        entry("repo_detail:7", repo_row("repo1", "http://r/9/os", "x86_64", "9")),
        entry("pkgid2repoids:101", encode_u64_list_row(&vec![7])),
        entry("pkgid2repoids:102", encode_u64_list_row(&vec![7])),
    ];
    entries.push(entry("errataid2name:55", encode_str_row("E1")));
    let cache2 = load(&entries).unwrap();
    assert!(check_wf(&cache2));
    let data = UpdatesApi::process_list(&cache2, request(&["foo-1:1-1.x86_64"])).unwrap();
    assert_eq!(records(&data, "foo-1:1-1.x86_64").len(), 0);
}

#[test]
fn empty_request_yields_empty_answer() {
    let cache = scenario(vec![6]);
    let data = UpdatesApi::process_list(&cache, request(&[])).unwrap();
    assert_eq!(data.update_list.entry_len(), 0);
    assert_eq!(data.repository_list, None);
    assert_eq!(data.releasever, None);
    assert_eq!(data.basearch, None);
}

#[test]
fn releasever_matches_through_url_when_undeclared() {
    // repo 7 carries the candidate, declares no releasever, and its URL
    // holds "9"; repo 8 carries the anchor and declares the empty release
    // version, which lets undeclared candidate repositories pass
    let entries = vec![
        entry("packagename2id:foo", encode_u64_row(1)),
        entry("id2packagename:1", encode_str_row("foo")),
        entry("updates:1", encode_u64_list_row(&vec![101, 102])),
        entry("updates_index:1", encode_index_row(&vec![(10, vec![0]), (11, vec![1])])),
        entry("evr2id:1:1:1", encode_u64_row(10)),
        entry("evr2id:1:2:1", encode_u64_row(11)),
        entry("id2evr:10", encode_evr_row(&Evr(1, String::from("1"), String::from("1")))),
        entry("id2evr:11", encode_evr_row(&Evr(1, String::from("2"), String::from("1")))),
        entry("arch2id:x86_64", encode_u64_row(5)),
        entry("id2arch:5", encode_str_row("x86_64")),
        entry("arch_compat:5", encode_u64_list_row(&vec![])),
        entry("package_details:101", pkg_row(1, 10, 5, "s101")),
        entry("package_details:102", pkg_row(1, 11, 5, "s102")),
        entry(
            "repo_detail:7",
            encode_repo_row(&updates_core::cache::Repo {
                label: String::from("cdn"),
                name: String::from("cdn"),
                url: String::from("http://cdn/9/os"),
                basearch: None,
                releasever: None,
                product: None,
                product_id: None,
            }),
        ),
        entry(
            "repo_detail:8",
            encode_repo_row(&updates_core::cache::Repo {
                label: String::from("base"),
                name: String::from("base"),
                url: String::from("http://base/os"),
                basearch: None,
                releasever: Some(String::new()),
                product: None,
                product_id: None,
            }),
        ),
        entry("pkgid2repoids:101", encode_u64_list_row(&vec![8])),
        entry("pkgid2repoids:102", encode_u64_list_row(&vec![7])),
        entry("errataid2name:55", encode_str_row("E1")),
        entry("pkgid2errataids:102", encode_u64_list_row(&vec![55])),
        entry("errataid2repoids:55", encode_u64_list_row(&vec![7])),
    ];
    let cache = load(&entries).unwrap();
    assert!(check_wf(&cache));
    // "9" is nowhere declared, but repo 7 matches through its URL
    let mut req = request(&["foo-1:1-1.x86_64"]);
    req.releasever = Some(String::from("9"));
    let data = UpdatesApi::process_list(&cache, req).unwrap();
    let recs = records(&data, "foo-1:1-1.x86_64");
    assert_eq!(recs.len(), 1);
    assert_eq!(recs[0].2, "cdn");
    // "8" matches no declaration and no URL: the scope empties
    let mut req8 = request(&["foo-1:1-1.x86_64"]);
    req8.releasever = Some(String::from("8"));
    let d8 = UpdatesApi::process_list(&cache, req8).unwrap();
    assert_eq!(records(&d8, "foo-1:1-1.x86_64").len(), 0);
}

#[test]
fn check_wf_spots_dangling_references() {
    // an update chain naming a build without a detail row is refused
    let entries = vec![
        entry("packagename2id:foo", encode_u64_row(1)),
        entry("updates:1", encode_u64_list_row(&vec![101])),
        entry("updates_index:1", encode_index_row(&vec![(10, vec![0])])),
    ];
    let cache = load(&entries).unwrap();
    assert!(!check_wf(&cache));
}

use updates_core::cache::{Evr, Package, Repo};
use updates_core::codec::{
    decode_evr_row, decode_index_row, decode_package_row, decode_repo_row, decode_str_row,
    decode_u64_list_row, decode_u64_row, encode_evr_row, encode_index_row, encode_package_row,
    encode_repo_row, encode_str_row, encode_u64_list_row, encode_u64_row,
};

#[test]
fn u64_row_round_trip() {
    for v in [0u64, 1, 9, 10, 12345, u64::MAX] {
        let row = encode_u64_row(v);
        assert_eq!(decode_u64_row(&row), Some(v));
    }
    assert_eq!(encode_u64_row(42), "42:");
}

#[test]
fn u64_row_rejects_junk() {
    assert_eq!(decode_u64_row(""), None);
    assert_eq!(decode_u64_row("42"), None);
    assert_eq!(decode_u64_row("x:"), None);
    assert_eq!(decode_u64_row("42:7:"), None);
    // one past u64::MAX
    assert_eq!(decode_u64_row("18446744073709551616:"), None);
}

#[test]
fn str_row_round_trip() {
    for s in ["", "hello", "with:colon", "multi\nline", "日本語"] {
        let row = encode_str_row(s);
        assert_eq!(decode_str_row(&row).unwrap(), s);
    }
    assert_eq!(encode_str_row("ab"), "2:ab:");
}

#[test]
fn list_row_round_trip() {
    for vs in [vec![], vec![7u64], vec![1, 2, 3, 4, 5]] {
        let row = encode_u64_list_row(&vs);
        assert_eq!(decode_u64_list_row(&row).unwrap(), vs);
    }
    assert_eq!(encode_u64_list_row(&vec![1, 2]), "2:1:2:");
    assert_eq!(decode_u64_list_row("2:1:"), None);
}

#[test]
fn evr_row_round_trip() {
    let e = Evr(3, String::from("1.2"), String::from("9.el9"));
    let row = encode_evr_row(&e);
    let back = decode_evr_row(&row).unwrap();
    assert_eq!(back.0, 3);
    assert_eq!(back.1, "1.2");
    assert_eq!(back.2, "9.el9");
}

#[test]
fn package_row_round_trip() {
    let p = Package {
        name_id: 1,
        evr_id: 2,
        arch_id: 3,
        summary: Some(String::from("a summary")),
        desc: None,
        source_pkg_id: Some(9),
    };
    let row = encode_package_row(&p);
    let back = decode_package_row(&row).unwrap();
    assert_eq!(back.name_id, 1);
    assert_eq!(back.evr_id, 2);
    assert_eq!(back.arch_id, 3);
    assert_eq!(back.summary.as_deref(), Some("a summary"));
    assert_eq!(back.desc, None);
    assert_eq!(back.source_pkg_id, Some(9));
}

#[test]
fn repo_row_round_trip() {
    let r = Repo {
        label: String::from("rhel-9"),
        name: String::from("RHEL 9"),
        url: String::from("https://cdn/os/9/x86_64"),
        basearch: Some(String::from("x86_64")),
        releasever: None,
        product: Some(String::from("RHEL")),
        product_id: None,
    };
    let row = encode_repo_row(&r);
    let back = decode_repo_row(&row).unwrap();
    assert_eq!(back.label, "rhel-9");
    assert_eq!(back.name, "RHEL 9");
    assert_eq!(back.url, "https://cdn/os/9/x86_64");
    assert_eq!(back.basearch.as_deref(), Some("x86_64"));
    assert_eq!(back.releasever, None);
    assert_eq!(back.product.as_deref(), Some("RHEL"));
    assert_eq!(back.product_id, None);
}

#[test]
fn index_row_round_trip() {
    let entries = vec![(10u64, vec![0u64, 1]), (11, vec![2])];
    let row = encode_index_row(&entries);
    let ui = decode_index_row(&row).unwrap();
    assert_eq!(ui.data.get(10).unwrap(), &vec![0, 1]);
    assert_eq!(ui.data.get(11).unwrap(), &vec![2]);
    assert!(ui.data.get(12).is_none());
}

#[test]
fn record_rows_reject_truncation() {
    let p = Package {
        name_id: 1,
        evr_id: 2,
        arch_id: 3,
        summary: None,
        desc: None,
        source_pkg_id: None,
    };
    let row = encode_package_row(&p);
    assert!(decode_package_row(&row[..row.len() - 1]).is_none());
    let e = Evr(1, String::from("v"), String::from("r"));
    let erow = encode_evr_row(&e);
    assert!(decode_evr_row(&erow[..erow.len() - 1]).is_none());
}

//! The snapshot cache: typed records, interning maps and the table schema
//! shared by the loader and the update-resolution engine.

use vstd::prelude::*;
use crate::strutil::{
    all_digits, dec_val, ffind, ffind_char, lemma_rfind_props, parse_u64, rfind, rfind_char_below,
    str_eq,
};
use crate::tables::{IdMap, StrMap};

verus! {

/// Why a snapshot failed to load.
#[derive(Debug, Clone, Copy, PartialEq, Eq, Structural)]
pub enum LoadError {
    /// A row key is not of the form `table:row_id`, or its row id does not
    /// parse in the shape its table demands.
    BadKey,
    /// A table name the schema does not know.
    UnknownTable,
    /// A row value that does not decode as its table's record type.
    BadRow,
}

impl LoadError {
    /// A human-readable rendering of the error.
    pub fn message(&self) -> (r: &'static str)
        ensures
            *self is BadKey ==> r@ == "bad row key"@,
            *self is UnknownTable ==> r@ == "table not implemented"@,
            *self is BadRow ==> r@ == "bad row value"@,
    {
        match self {
            LoadError::BadKey => "bad row key",
            LoadError::UnknownTable => "table not implemented",
            LoadError::BadRow => "bad row value",
        }
    }
}

/// Why a composite key or row failed to parse.
#[derive(Debug, Clone, Copy, PartialEq, Eq, Structural)]
pub enum ParseError {
    /// Fewer colon-separated fields than the key shape demands.
    TooFewFields,
    /// A field that must be an unsigned number is not one.
    BadNumber,
}

/// Mathematical value of an [`Evr`].
pub ghost struct EvrModel {
    pub epoch: u64,
    pub version: Seq<char>,
    pub release: Seq<char>,
}

/// An (epoch, version, release) tuple identifying a package version
/// independent of architecture.
#[derive(Debug)]
pub struct Evr(pub u64, pub String, pub String);

impl View for Evr {
    type V = EvrModel;

    open spec fn view(&self) -> EvrModel {
        EvrModel { epoch: self.0, version: self.1@, release: self.2@ }
    }
}

impl Clone for Evr {
    /// A clone carries the same epoch, version and release.
    fn clone(&self) -> (r: Evr)
        ensures
            r@ == self@,
    {
        Evr(self.0, self.1.clone(), self.2.clone())
    }
}

/// The result of splitting `s` on `:` from the right into epoch, version
/// and release; the epoch is the third field from the right and must be a
/// number.
pub open spec fn evr_parse(s: Seq<char>) -> Result<EvrModel, ParseError> {
    let c1 = rfind(s, ':');
    if c1 < 0 {
        Err(ParseError::TooFewFields)
    } else {
        let c2 = rfind(s.take(c1), ':');
        if c2 < 0 {
            Err(ParseError::TooFewFields)
        } else {
            let c3 = rfind(s.take(c2), ':');
            let ep = s.subrange(c3 + 1, c2);
            if ep.len() > 0 && all_digits(ep) && dec_val(ep) <= u64::MAX {
                Ok(EvrModel {
                    epoch: dec_val(ep) as u64,
                    version: s.subrange(c2 + 1, c1),
                    release: s.subrange(c1 + 1, s.len() as int),
                })
            } else {
                Err(ParseError::BadNumber)
            }
        }
    }
}

impl Evr {
    /// Splits on `:` from the right into epoch, version and release.
    pub fn parse(s: &str) -> (r: Result<Evr, ParseError>)
        ensures
            r is Ok <==> evr_parse(s@) is Ok,
            r is Ok ==> (r->Ok_0)@ == evr_parse(s@)->Ok_0,
            r is Err ==> r->Err_0 == evr_parse(s@)->Err_0,
    {
        let n = s.unicode_len();
        proof {
            assert(s@.take(n as int) =~= s@);
        }
        let c1 = match rfind_in_prefix(s, ':', n) {
            Some(i) => i,
            None => {
                return Err(ParseError::TooFewFields);
            },
        };
        let c2 = match rfind_in_prefix(s, ':', c1) {
            Some(i) => i,
            None => {
                return Err(ParseError::TooFewFields);
            },
        };
        let start = match rfind_in_prefix(s, ':', c2) {
            Some(i) => i + 1,
            None => 0,
        };
        let ep_str = s.substring_char(start, c2);
        let version = s.substring_char(c2 + 1, c1);
        let release = s.substring_char(c1 + 1, n);
        match parse_u64(ep_str) {
            Some(epoch) => Ok(Evr(epoch, version.to_owned(), release.to_owned())),
            None => Err(ParseError::BadNumber),
        }
    }
}

/// A (name id, evr id, arch id) composite identifying one package build.
#[derive(Debug, Clone, Copy, PartialEq, Eq, Structural)]
pub struct NevraId(pub u64, pub u64, pub u64);

/// The result of splitting `s` on `:` from the right into three numeric
/// fields: name id, evr id, arch id.
pub open spec fn nevra_id_parse(s: Seq<char>) -> Result<NevraId, ParseError> {
    let c1 = rfind(s, ':');
    if c1 < 0 {
        Err(ParseError::TooFewFields)
    } else {
        let c2 = rfind(s.take(c1), ':');
        if c2 < 0 {
            Err(ParseError::TooFewFields)
        } else {
            let c3 = rfind(s.take(c2), ':');
            let name = s.subrange(c3 + 1, c2);
            let evr = s.subrange(c2 + 1, c1);
            let arch = s.subrange(c1 + 1, s.len() as int);
            if name.len() > 0 && all_digits(name) && dec_val(name) <= u64::MAX
                && evr.len() > 0 && all_digits(evr) && dec_val(evr) <= u64::MAX
                && arch.len() > 0 && all_digits(arch) && dec_val(arch) <= u64::MAX {
                Ok(NevraId(dec_val(name) as u64, dec_val(evr) as u64, dec_val(arch) as u64))
            } else {
                Err(ParseError::BadNumber)
            }
        }
    }
}

impl NevraId {
    /// Splits on `:` from the right into three numeric ids.
    pub fn parse(s: &str) -> (r: Result<NevraId, ParseError>)
        ensures
            r == nevra_id_parse(s@),
    {
        let n = s.unicode_len();
        proof {
            assert(s@.take(n as int) =~= s@);
        }
        let c1 = match rfind_in_prefix(s, ':', n) {
            Some(i) => i,
            None => {
                return Err(ParseError::TooFewFields);
            },
        };
        let c2 = match rfind_in_prefix(s, ':', c1) {
            Some(i) => i,
            None => {
                return Err(ParseError::TooFewFields);
            },
        };
        let start = match rfind_in_prefix(s, ':', c2) {
            Some(i) => i + 1,
            None => 0,
        };
        let name_str = s.substring_char(start, c2);
        let evr_str = s.substring_char(c2 + 1, c1);
        let arch_str = s.substring_char(c1 + 1, n);
        let name = match parse_u64(name_str) {
            Some(v) => v,
            None => {
                return Err(ParseError::BadNumber);
            },
        };
        let evr = match parse_u64(evr_str) {
            Some(v) => v,
            None => {
                return Err(ParseError::BadNumber);
            },
        };
        let arch = match parse_u64(arch_str) {
            Some(v) => v,
            None => {
                return Err(ParseError::BadNumber);
            },
        };
        Ok(NevraId(name, evr, arch))
    }
}

/// Finds the last occurrence of `c` strictly below `below`, named by the
/// specification-level `rfind` over that prefix.
pub fn rfind_in_prefix(s: &str, c: char, below: usize) -> (r: Option<usize>)
    requires
        below <= s@.len(),
    ensures
        r is Some <==> rfind(s@.take(below as int), c) >= 0,
        r is Some ==> r->0 == rfind(s@.take(below as int), c) && r->0 < below,
        r is None ==> rfind(s@.take(below as int), c) == -1,
{
    let ghost pre = s@.take(below as int);
    proof {
        lemma_rfind_props(pre, c);
    }
    match rfind_char_below(s, c, below) {
        Some(i) => {
            proof {
                assert(pre[i as int] == c);
                if rfind(pre, c) == -1 {
                    assert(pre[i as int] != c);
                }
                let f = rfind(pre, c);
                if f < i {
                    assert(s@[i as int] == c);
                } else if f > i {
                    assert(s@[f] == c);
                    assert(pre[f] == c);
                }
            }
            Some(i)
        },
        None => {
            proof {
                if rfind(pre, c) >= 0 {
                    assert(pre[rfind(pre, c)] == c);
                    assert(s@[rfind(pre, c)] == c);
                }
            }
            None
        },
    }
}

/// View of an optional string.
pub open spec fn opt_view(o: Option<String>) -> Option<Seq<char>> {
    match o {
        Some(s) => Some(s@),
        None => None,
    }
}

/// Mathematical value of a [`Package`].
pub ghost struct PackageModel {
    pub name_id: u64,
    pub evr_id: u64,
    pub arch_id: u64,
    pub summary: Option<Seq<char>>,
    pub desc: Option<Seq<char>>,
    pub source_pkg_id: Option<u64>,
}

/// One package build: its interned identity and optional metadata.
#[derive(Debug)]
pub struct Package {
    pub name_id: u64,
    pub evr_id: u64,
    pub arch_id: u64,
    pub summary: Option<String>,
    pub desc: Option<String>,
    pub source_pkg_id: Option<u64>,
}

impl View for Package {
    type V = PackageModel;

    open spec fn view(&self) -> PackageModel {
        PackageModel {
            name_id: self.name_id,
            evr_id: self.evr_id,
            arch_id: self.arch_id,
            summary: opt_view(self.summary),
            desc: opt_view(self.desc),
            source_pkg_id: self.source_pkg_id,
        }
    }
}

/// Mathematical value of a [`Repo`].
pub ghost struct RepoModel {
    pub label: Seq<char>,
    pub name: Seq<char>,
    pub url: Seq<char>,
    pub basearch: Option<Seq<char>>,
    pub releasever: Option<Seq<char>>,
    pub product: Option<Seq<char>>,
    pub product_id: Option<u64>,
}

/// A CVE record; the snapshot stores no fields for it yet.
#[derive(Debug)]
pub struct Cve {}

impl View for Cve {
    type V = ();

    open spec fn view(&self) -> () {
        ()
    }
}

/// One repository's descriptive record.
#[derive(Debug)]
pub struct Repo {
    pub label: String,
    pub name: String,
    pub url: String,
    pub basearch: Option<String>,
    pub releasever: Option<String>,
    pub product: Option<String>,
    pub product_id: Option<u64>,
}

impl View for Repo {
    type V = RepoModel;

    open spec fn view(&self) -> RepoModel {
        RepoModel {
            label: self.label@,
            name: self.name@,
            url: self.url@,
            basearch: opt_view(self.basearch),
            releasever: opt_view(self.releasever),
            product: opt_view(self.product),
            product_id: self.product_id,
        }
    }
}

/// An erratum record; the snapshot stores no fields for it yet.
#[derive(Debug)]
pub struct Errata {}

impl View for Errata {
    type V = ();

    open spec fn view(&self) -> () {
        ()
    }
}

/// View of a map whose values are id vectors.
pub open spec fn vec_map_view(m: Map<u64, Vec<u64>>) -> Map<u64, Seq<u64>> {
    Map::new(|k: u64| m.contains_key(k), |k: u64| m[k]@)
}

/// Lifting a map insert through `vec_map_view` inserts the vector's view.
pub proof fn lemma_vec_map_view_insert(m: Map<u64, Vec<u64>>, k: u64, v: Vec<u64>)
    ensures
        vec_map_view(m.insert(k, v)) == vec_map_view(m).insert(k, v@),
{
    assert(vec_map_view(m.insert(k, v)) =~= vec_map_view(m).insert(k, v@));
}

/// Per-name index: evr id to the positions of that evr's builds within the
/// name's update chain.
pub struct UpdatesIndex {
    pub data: IdMap<Vec<u64>>,
}

impl View for UpdatesIndex {
    type V = Map<u64, Seq<u64>>;

    open spec fn view(&self) -> Map<u64, Seq<u64>> {
        vec_map_view(self.data@)
    }
}

/// The immutable, integer-keyed snapshot cache shared by all queries.
pub struct Cache {
    pub name_to_id: StrMap<u64>,
    pub id_to_name: IdMap<String>,
    pub updates: IdMap<Vec<u64>>,
    pub updates_index: IdMap<UpdatesIndex>,
    pub evr_to_id: EvrMap,
    pub id_to_evr: IdMap<Evr>,
    pub arch_to_id: StrMap<u64>,
    pub id_to_arch: IdMap<String>,
    pub arch_compat: IdMap<Vec<u64>>,
    pub pkg_details: IdMap<Package>,
    pub nevra_to_pkgid: NevraIdMap,
    pub repo_detail: IdMap<Repo>,
    pub repolabel_to_ids: StrMap<Vec<u64>>,
    pub productid_to_repoids: IdMap<Vec<u64>>,
    pub pkgid_to_repoids: IdMap<Vec<u64>>,
    pub errataid_to_name: IdMap<String>,
    pub pkgid_to_errataids: IdMap<Vec<u64>>,
    pub errataid_to_repoids: IdMap<Vec<u64>>,
    pub cve_detail: StrMap<Cve>,
    pub dbchange: StrMap<String>,
    pub errata_detail: StrMap<Errata>,
    pub pkgerrata_to_module: StrMap<String>,
    pub modulename_to_id: StrMap<String>,
    pub src_pkg_id_to_pkg_ids: StrMap<Vec<u64>>,
}

/// View of an Evr-keyed entry list: later entries shadow earlier ones.
pub open spec fn evr_entries_view(s: Seq<(Evr, u64)>) -> Map<EvrModel, u64>
    decreases s.len(),
{
    if s.len() == 0 {
        Map::empty()
    } else {
        evr_entries_view(s.drop_last()).insert(s.last().0@, s.last().1)
    }
}

/// The view maps a key to the value of its last entry.
proof fn lemma_evr_view_at(s: Seq<(Evr, u64)>, i: int)
    requires
        0 <= i < s.len(),
        forall|j: int| i < j < s.len() ==> (#[trigger] s[j]).0@ != s[i].0@,
    ensures
        evr_entries_view(s).contains_key(s[i].0@),
        evr_entries_view(s)[s[i].0@] == s[i].1,
    decreases s.len(),
{
    if i == s.len() - 1 {
    } else {
        assert forall|j: int| i < j < s.drop_last().len() implies (#[trigger] s.drop_last()[j]).0@
            != s.drop_last()[i].0@ by {
            assert(s[j].0@ != s[i].0@);
        }
        lemma_evr_view_at(s.drop_last(), i);
        assert(s.last().0@ != s[i].0@);
    }
}

/// A key is in the view exactly when some entry carries it.
proof fn lemma_evr_view_dom(s: Seq<(Evr, u64)>, k: EvrModel)
    ensures
        evr_entries_view(s).contains_key(k) <==> exists|i: int|
            0 <= i < s.len() && (#[trigger] s[i]).0@ == k,
    decreases s.len(),
{
    if s.len() > 0 {
        lemma_evr_view_dom(s.drop_last(), k);
        if s.last().0@ == k {
            assert(s[s.len() - 1].0@ == k);
        } else if evr_entries_view(s).contains_key(k) {
            let i = choose|i: int|
                0 <= i < s.drop_last().len() && (#[trigger] s.drop_last()[i]).0@ == k;
            assert(s[i].0@ == k);
        } else {
            assert forall|i: int| 0 <= i < s.len() && (#[trigger] s[i]).0@ == k implies false by {
                if i < s.len() - 1 {
                    assert(s.drop_last()[i].0@ == k);
                }
            }
        }
    }
}

/// Interning map from an (epoch, version, release) tuple to its id.
pub struct EvrMap {
    entries: Vec<(Evr, u64)>,
}

impl View for EvrMap {
    type V = Map<EvrModel, u64>;

    closed spec fn view(&self) -> Map<EvrModel, u64> {
        evr_entries_view(self.entries@)
    }
}

impl EvrMap {
    /// An empty map.
    pub fn new() -> (r: Self)
        ensures
            r@ == Map::<EvrModel, u64>::empty(),
    {
        let r = EvrMap { entries: Vec::new() };
        proof {
            assert(r.entries@ =~= Seq::<(Evr, u64)>::empty());
        }
        r
    }

    /// Inserts `v` under `k`, shadowing any earlier entry for `k`.
    pub fn insert(&mut self, k: Evr, v: u64)
        ensures
            final(self)@ == old(self)@.insert(k@, v),
    {
        self.entries.push((k, v));
        proof {
            assert(self.entries@.drop_last() =~= old(self).entries@);
        }
    }

    /// Looks the key up; `None` exactly when the key was never inserted.
    pub fn get(&self, k: &Evr) -> (r: Option<u64>)
        ensures
            match r {
                Some(v) => self@.contains_key(k@) && v == self@[k@],
                None => !self@.contains_key(k@),
            },
    {
        let n = self.entries.len();
        let mut i: usize = n;
        while i > 0
            invariant
                0 <= i <= n,
                n == self.entries@.len(),
                forall|j: int| i <= j < n ==> (#[trigger] self.entries@[j]).0@ != k@,
            decreases i,
        {
            i = i - 1;
            let e = &self.entries[i].0;
            if e.0 == k.0 && e.1.eq(&k.1) && e.2.eq(&k.2) {
                proof {
                    assert(self.entries@[i as int].0@ == k@);
                    lemma_evr_view_at(self.entries@, i as int);
                }
                return Some(self.entries[i].1);
            }
            proof {
                assert(self.entries@[i as int].0@ != k@);
            }
        }
        proof {
            lemma_evr_view_dom(self.entries@, k@);
        }
        None
    }
}

/// View of a NevraId-keyed entry list: later entries shadow earlier ones.
pub open spec fn nevra_entries_view(s: Seq<(NevraId, u64)>) -> Map<NevraId, u64>
    decreases s.len(),
{
    if s.len() == 0 {
        Map::empty()
    } else {
        nevra_entries_view(s.drop_last()).insert(s.last().0, s.last().1)
    }
}

/// The view maps a key to the value of its last entry.
proof fn lemma_nevra_view_at(s: Seq<(NevraId, u64)>, i: int)
    requires
        0 <= i < s.len(),
        forall|j: int| i < j < s.len() ==> (#[trigger] s[j]).0 != s[i].0,
    ensures
        nevra_entries_view(s).contains_key(s[i].0),
        nevra_entries_view(s)[s[i].0] == s[i].1,
    decreases s.len(),
{
    if i == s.len() - 1 {
    } else {
        assert forall|j: int| i < j < s.drop_last().len() implies (#[trigger] s.drop_last()[j]).0
            != s.drop_last()[i].0 by {
            assert(s[j].0 != s[i].0);
        }
        lemma_nevra_view_at(s.drop_last(), i);
        assert(s.last().0 != s[i].0);
    }
}

/// A key is in the view exactly when some entry carries it.
proof fn lemma_nevra_view_dom(s: Seq<(NevraId, u64)>, k: NevraId)
    ensures
        nevra_entries_view(s).contains_key(k) <==> exists|i: int|
            0 <= i < s.len() && (#[trigger] s[i]).0 == k,
    decreases s.len(),
{
    if s.len() > 0 {
        lemma_nevra_view_dom(s.drop_last(), k);
        if s.last().0 == k {
            assert(s[s.len() - 1].0 == k);
        } else if nevra_entries_view(s).contains_key(k) {
            let i = choose|i: int|
                0 <= i < s.drop_last().len() && (#[trigger] s.drop_last()[i]).0 == k;
            assert(s[i].0 == k);
        } else {
            assert forall|i: int| 0 <= i < s.len() && (#[trigger] s[i]).0 == k implies false by {
                if i < s.len() - 1 {
                    assert(s.drop_last()[i].0 == k);
                }
            }
        }
    }
}

/// Map from a (name id, evr id, arch id) composite to its build id.
pub struct NevraIdMap {
    entries: Vec<(NevraId, u64)>,
}

impl View for NevraIdMap {
    type V = Map<NevraId, u64>;

    closed spec fn view(&self) -> Map<NevraId, u64> {
        nevra_entries_view(self.entries@)
    }
}

impl NevraIdMap {
    /// An empty map.
    pub fn new() -> (r: Self)
        ensures
            r@ == Map::<NevraId, u64>::empty(),
    {
        let r = NevraIdMap { entries: Vec::new() };
        proof {
            assert(r.entries@ =~= Seq::<(NevraId, u64)>::empty());
        }
        r
    }

    /// Inserts `v` under `k`, shadowing any earlier entry for `k`.
    pub fn insert(&mut self, k: NevraId, v: u64)
        ensures
            final(self)@ == old(self)@.insert(k, v),
    {
        self.entries.push((k, v));
        proof {
            assert(self.entries@.drop_last() =~= old(self).entries@);
        }
    }

    /// Looks the key up; `None` exactly when the key was never inserted.
    pub fn get(&self, k: NevraId) -> (r: Option<u64>)
        ensures
            match r {
                Some(v) => self@.contains_key(k) && v == self@[k],
                None => !self@.contains_key(k),
            },
    {
        let n = self.entries.len();
        let mut i: usize = n;
        while i > 0
            invariant
                0 <= i <= n,
                n == self.entries@.len(),
                forall|j: int| i <= j < n ==> (#[trigger] self.entries@[j]).0 != k,
            decreases i,
        {
            i = i - 1;
            if self.entries[i].0 == k {
                proof {
                    lemma_nevra_view_at(self.entries@, i as int);
                }
                return Some(self.entries[i].1);
            }
        }
        proof {
            lemma_nevra_view_dom(self.entries@, k);
        }
        None
    }
}

/// View of a map whose values carry views of their own.
pub open spec fn lift_vals<K, V: View>(m: Map<K, V>) -> Map<K, V::V> {
    Map::new(|k: K| m.contains_key(k), |k: K| m[k]@)
}

/// Lifting a map insert through `lift_vals` inserts the value's view.
pub proof fn lemma_lift_vals_insert<K, V: View>(m: Map<K, V>, k: K, v: V)
    ensures
        lift_vals(m.insert(k, v)) == lift_vals(m).insert(k, v@),
{
    assert(lift_vals(m.insert(k, v)) =~= lift_vals(m).insert(k, v@));
}

/// Mathematical value of a whole [`Cache`].
#[verifier::ext_equal]
pub ghost struct CacheModel {
    pub name_to_id: Map<Seq<char>, u64>,
    pub id_to_name: Map<u64, Seq<char>>,
    pub updates: Map<u64, Seq<u64>>,
    pub updates_index: Map<u64, Map<u64, Seq<u64>>>,
    pub evr_to_id: Map<EvrModel, u64>,
    pub id_to_evr: Map<u64, EvrModel>,
    pub arch_to_id: Map<Seq<char>, u64>,
    pub id_to_arch: Map<u64, Seq<char>>,
    pub arch_compat: Map<u64, Seq<u64>>,
    pub pkg_details: Map<u64, PackageModel>,
    pub nevra_to_pkgid: Map<NevraId, u64>,
    pub repo_detail: Map<u64, RepoModel>,
    pub repolabel_to_ids: Map<Seq<char>, Seq<u64>>,
    pub productid_to_repoids: Map<u64, Seq<u64>>,
    pub pkgid_to_repoids: Map<u64, Seq<u64>>,
    pub errataid_to_name: Map<u64, Seq<char>>,
    pub pkgid_to_errataids: Map<u64, Seq<u64>>,
    pub errataid_to_repoids: Map<u64, Seq<u64>>,
    pub cve_detail: Map<Seq<char>, ()>,
    pub dbchange: Map<Seq<char>, Seq<char>>,
    pub errata_detail: Map<Seq<char>, ()>,
    pub pkgerrata_to_module: Map<Seq<char>, Seq<char>>,
    pub modulename_to_id: Map<Seq<char>, Seq<char>>,
    pub src_pkg_id_to_pkg_ids: Map<Seq<char>, Seq<u64>>,
}

/// The row id read as a decimal number.
pub open spec fn key_u64(s: Seq<char>) -> Option<u64> {
    if s.len() > 0 && all_digits(s) && dec_val(s) <= u64::MAX {
        Some(dec_val(s) as u64)
    } else {
        None
    }
}

impl Cache {
    /// The mathematical value of every table of this cache.
    pub open spec fn model(&self) -> CacheModel {
        CacheModel {
            name_to_id: self.name_to_id@,
            id_to_name: lift_vals(self.id_to_name@),
            updates: lift_vals(self.updates@),
            updates_index: lift_vals(self.updates_index@),
            evr_to_id: self.evr_to_id@,
            id_to_evr: lift_vals(self.id_to_evr@),
            arch_to_id: self.arch_to_id@,
            id_to_arch: lift_vals(self.id_to_arch@),
            arch_compat: lift_vals(self.arch_compat@),
            pkg_details: lift_vals(self.pkg_details@),
            nevra_to_pkgid: self.nevra_to_pkgid@,
            repo_detail: lift_vals(self.repo_detail@),
            repolabel_to_ids: lift_vals(self.repolabel_to_ids@),
            productid_to_repoids: lift_vals(self.productid_to_repoids@),
            pkgid_to_repoids: lift_vals(self.pkgid_to_repoids@),
            errataid_to_name: lift_vals(self.errataid_to_name@),
            pkgid_to_errataids: lift_vals(self.pkgid_to_errataids@),
            errataid_to_repoids: lift_vals(self.errataid_to_repoids@),
            cve_detail: lift_vals(self.cve_detail@),
            dbchange: lift_vals(self.dbchange@),
            errata_detail: lift_vals(self.errata_detail@),
            pkgerrata_to_module: lift_vals(self.pkgerrata_to_module@),
            modulename_to_id: lift_vals(self.modulename_to_id@),
            src_pkg_id_to_pkg_ids: lift_vals(self.src_pkg_id_to_pkg_ids@),
        }
    }
}

/// What one snapshot row does to the cache: the key names the table and
/// the row id, the value decodes by that table's codec, and the row lands
/// in the table; `dbchange` and `pkgerrata2module` rows are accepted and
/// discarded; any other table is a schema error.
pub open spec fn row_apply(m: CacheModel, key: Seq<char>, val: Seq<char>) -> Result<
    CacheModel,
    LoadError,
> {
    let c = ffind(key, ':');
    if c < 0 {
        Err(LoadError::BadKey)
    } else {
        let table = key.take(c);
        let id = key.subrange(c + 1, key.len() as int);
        if table == "packagename2id"@ {
            match crate::codec::dec_u64_row(val) {
                Some(v) => Ok(CacheModel { name_to_id: m.name_to_id.insert(id, v), ..m }),
                None => Err(LoadError::BadRow),
            }
        } else if table == "id2packagename"@ {
            match key_u64(id) {
                Some(k) => match crate::codec::dec_str_row(val) {
                    Some(v) => Ok(CacheModel { id_to_name: m.id_to_name.insert(k, v), ..m }),
                    None => Err(LoadError::BadRow),
                },
                None => Err(LoadError::BadKey),
            }
        } else if table == "updates"@ {
            match key_u64(id) {
                Some(k) => match crate::codec::dec_u64_list_row(val) {
                    Some(v) => Ok(CacheModel { updates: m.updates.insert(k, v), ..m }),
                    None => Err(LoadError::BadRow),
                },
                None => Err(LoadError::BadKey),
            }
        } else if table == "updates_index"@ {
            match key_u64(id) {
                Some(k) => match crate::codec::dec_index_row(val) {
                    Some(v) => Ok(CacheModel { updates_index: m.updates_index.insert(k, v), ..m }),
                    None => Err(LoadError::BadRow),
                },
                None => Err(LoadError::BadKey),
            }
        } else if table == "evr2id"@ {
            match evr_parse(id) {
                Ok(k) => match crate::codec::dec_u64_row(val) {
                    Some(v) => Ok(CacheModel { evr_to_id: m.evr_to_id.insert(k, v), ..m }),
                    None => Err(LoadError::BadRow),
                },
                Err(_) => Err(LoadError::BadKey),
            }
        } else if table == "id2evr"@ {
            match key_u64(id) {
                Some(k) => match crate::codec::dec_evr_row(val) {
                    Some(v) => Ok(CacheModel { id_to_evr: m.id_to_evr.insert(k, v), ..m }),
                    None => Err(LoadError::BadRow),
                },
                None => Err(LoadError::BadKey),
            }
        } else if table == "arch2id"@ {
            match crate::codec::dec_u64_row(val) {
                Some(v) => Ok(CacheModel { arch_to_id: m.arch_to_id.insert(id, v), ..m }),
                None => Err(LoadError::BadRow),
            }
        } else if table == "id2arch"@ {
            match key_u64(id) {
                Some(k) => match crate::codec::dec_str_row(val) {
                    Some(v) => Ok(CacheModel { id_to_arch: m.id_to_arch.insert(k, v), ..m }),
                    None => Err(LoadError::BadRow),
                },
                None => Err(LoadError::BadKey),
            }
        } else if table == "arch_compat"@ {
            match key_u64(id) {
                Some(k) => match crate::codec::dec_u64_list_row(val) {
                    Some(v) => Ok(CacheModel { arch_compat: m.arch_compat.insert(k, v), ..m }),
                    None => Err(LoadError::BadRow),
                },
                None => Err(LoadError::BadKey),
            }
        } else if table == "package_details"@ {
            match key_u64(id) {
                Some(k) => match crate::codec::dec_package_row(val) {
                    Some(v) => Ok(CacheModel { pkg_details: m.pkg_details.insert(k, v), ..m }),
                    None => Err(LoadError::BadRow),
                },
                None => Err(LoadError::BadKey),
            }
        } else if table == "nevra2pkgid"@ {
            match nevra_id_parse(id) {
                Ok(k) => match crate::codec::dec_u64_row(val) {
                    Some(v) => Ok(CacheModel { nevra_to_pkgid: m.nevra_to_pkgid.insert(k, v), ..m }),
                    None => Err(LoadError::BadRow),
                },
                Err(_) => Err(LoadError::BadKey),
            }
        } else if table == "repo_detail"@ {
            match key_u64(id) {
                Some(k) => match crate::codec::dec_repo_row(val) {
                    Some(v) => Ok(CacheModel { repo_detail: m.repo_detail.insert(k, v), ..m }),
                    None => Err(LoadError::BadRow),
                },
                None => Err(LoadError::BadKey),
            }
        } else if table == "repolabel2ids"@ {
            match crate::codec::dec_u64_list_row(val) {
                Some(v) => Ok(CacheModel { repolabel_to_ids: m.repolabel_to_ids.insert(id, v), ..m }),
                None => Err(LoadError::BadRow),
            }
        } else if table == "productid2repoids"@ {
            match key_u64(id) {
                Some(k) => match crate::codec::dec_u64_list_row(val) {
                    Some(v) => Ok(
                        CacheModel { productid_to_repoids: m.productid_to_repoids.insert(k, v), ..m },
                    ),
                    None => Err(LoadError::BadRow),
                },
                None => Err(LoadError::BadKey),
            }
        } else if table == "pkgid2repoids"@ {
            match key_u64(id) {
                Some(k) => match crate::codec::dec_u64_list_row(val) {
                    Some(v) => Ok(
                        CacheModel { pkgid_to_repoids: m.pkgid_to_repoids.insert(k, v), ..m },
                    ),
                    None => Err(LoadError::BadRow),
                },
                None => Err(LoadError::BadKey),
            }
        } else if table == "errataid2name"@ {
            match key_u64(id) {
                Some(k) => match crate::codec::dec_str_row(val) {
                    Some(v) => Ok(
                        CacheModel { errataid_to_name: m.errataid_to_name.insert(k, v), ..m },
                    ),
                    None => Err(LoadError::BadRow),
                },
                None => Err(LoadError::BadKey),
            }
        } else if table == "pkgid2errataids"@ {
            match key_u64(id) {
                Some(k) => match crate::codec::dec_u64_list_row(val) {
                    Some(v) => Ok(
                        CacheModel { pkgid_to_errataids: m.pkgid_to_errataids.insert(k, v), ..m },
                    ),
                    None => Err(LoadError::BadRow),
                },
                None => Err(LoadError::BadKey),
            }
        } else if table == "errataid2repoids"@ {
            match key_u64(id) {
                Some(k) => match crate::codec::dec_u64_list_row(val) {
                    Some(v) => Ok(
                        CacheModel { errataid_to_repoids: m.errataid_to_repoids.insert(k, v), ..m },
                    ),
                    None => Err(LoadError::BadRow),
                },
                None => Err(LoadError::BadKey),
            }
        } else if table == "cve_detail"@ {
            if val.len() == 0 {
                Ok(CacheModel { cve_detail: m.cve_detail.insert(id, ()), ..m })
            } else {
                Err(LoadError::BadRow)
            }
        } else if table == "dbchange"@ {
            Ok(m)
        } else if table == "errata_detail"@ {
            if val.len() == 0 {
                Ok(CacheModel { errata_detail: m.errata_detail.insert(id, ()), ..m })
            } else {
                Err(LoadError::BadRow)
            }
        } else if table == "pkgerrata2module"@ {
            Ok(m)
        } else if table == "modulename2id"@ {
            match crate::codec::dec_str_row(val) {
                Some(v) => Ok(
                    CacheModel { modulename_to_id: m.modulename_to_id.insert(id, v), ..m },
                ),
                None => Err(LoadError::BadRow),
            }
        } else if table == "src_pkg_id2pkg_ids"@ {
            match crate::codec::dec_u64_list_row(val) {
                Some(v) => Ok(
                    CacheModel { src_pkg_id_to_pkg_ids: m.src_pkg_id_to_pkg_ids.insert(id, v), ..m },
                ),
                None => Err(LoadError::BadRow),
            }
        } else {
            Err(LoadError::UnknownTable)
        }
    }
}

/// The cache after the first `n` snapshot rows, or the first row error.
pub open spec fn load_upto(
    rows: Seq<(Seq<char>, Seq<char>)>,
    empty: CacheModel,
    n: int,
) -> Result<CacheModel, LoadError>
    decreases n,
{
    if n <= 0 {
        Ok(empty)
    } else {
        match load_upto(rows, empty, n - 1) {
            Err(e) => Err(e),
            Ok(m) => row_apply(m, rows[n - 1].0, rows[n - 1].1),
        }
    }
}

/// A row error never heals: every longer prefix fails the same way.
pub proof fn lemma_load_err_stays(
    rows: Seq<(Seq<char>, Seq<char>)>,
    empty: CacheModel,
    m: int,
    n: int,
)
    requires
        0 <= m <= n,
        load_upto(rows, empty, m) is Err,
    ensures
        load_upto(rows, empty, n) == load_upto(rows, empty, m),
    decreases n - m,
{
    if m < n {
        lemma_load_err_stays(rows, empty, m + 1, n);
    }
}

/// The view of each row: its key and value strings.
pub open spec fn rows_view(es: Seq<(String, String)>) -> Seq<(Seq<char>, Seq<char>)> {
    es.map_values(|p: (String, String)| (p.0@, p.1@))
}

impl Cache {
    /// Applies one snapshot row to this cache.
    pub fn apply_row(&mut self, key: &String, val: &String) -> (r: Result<(), LoadError>)
        ensures
            match r {
                Ok(_) => row_apply(old(self).model(), key@, val@) == Ok::<CacheModel, LoadError>(
                    final(self).model(),
                ),
                Err(e) => row_apply(old(self).model(), key@, val@) == Err::<CacheModel, LoadError>(
                    e,
                ),
            },
    {
        let klen = key.as_str().unicode_len();
        let c = match ffind_char(key.as_str(), ':') {
            Some(i) => i,
            None => {
                return Err(LoadError::BadKey);
            },
        };
        let table = key.as_str().substring_char(0, c);
        let id = key.as_str().substring_char(c + 1, klen);
        proof {
            assert(table@ =~= key@.take(c as int));
        }
        if str_eq(table, "packagename2id") {
            match crate::codec::decode_u64_row(val.as_str()) {
                Some(v) => {
                    self.name_to_id.insert(id.to_owned(), v);
                    Ok(())
                },
                None => Err(LoadError::BadRow),
            }
        } else if str_eq(table, "id2packagename") {
            match parse_u64(id) {
                Some(k) => match crate::codec::decode_str_row(val.as_str()) {
                    Some(v) => {
                        let ghost before = self.id_to_name@;
                        self.id_to_name.insert(k, v);
                        proof {
                            lemma_lift_vals_insert(before, k, self.id_to_name@[k]);
                        }
                        Ok(())
                    },
                    None => Err(LoadError::BadRow),
                },
                None => Err(LoadError::BadKey),
            }
        } else if str_eq(table, "updates") {
            match parse_u64(id) {
                Some(k) => match crate::codec::decode_u64_list_row(val.as_str()) {
                    Some(v) => {
                        let ghost before = self.updates@;
                        self.updates.insert(k, v);
                        proof {
                            lemma_lift_vals_insert(before, k, self.updates@[k]);
                        }
                        Ok(())
                    },
                    None => Err(LoadError::BadRow),
                },
                None => Err(LoadError::BadKey),
            }
        } else if str_eq(table, "updates_index") {
            match parse_u64(id) {
                Some(k) => match crate::codec::decode_index_row(val.as_str()) {
                    Some(v) => {
                        let ghost before = self.updates_index@;
                        self.updates_index.insert(k, v);
                        proof {
                            lemma_lift_vals_insert(before, k, self.updates_index@[k]);
                        }
                        Ok(())
                    },
                    None => Err(LoadError::BadRow),
                },
                None => Err(LoadError::BadKey),
            }
        } else if str_eq(table, "evr2id") {
            match Evr::parse(id) {
                Ok(k) => match crate::codec::decode_u64_row(val.as_str()) {
                    Some(v) => {
                        self.evr_to_id.insert(k, v);
                        Ok(())
                    },
                    None => Err(LoadError::BadRow),
                },
                Err(_) => Err(LoadError::BadKey),
            }
        } else if str_eq(table, "id2evr") {
            match parse_u64(id) {
                Some(k) => match crate::codec::decode_evr_row(val.as_str()) {
                    Some(v) => {
                        let ghost before = self.id_to_evr@;
                        self.id_to_evr.insert(k, v);
                        proof {
                            lemma_lift_vals_insert(before, k, self.id_to_evr@[k]);
                        }
                        Ok(())
                    },
                    None => Err(LoadError::BadRow),
                },
                None => Err(LoadError::BadKey),
            }
        } else if str_eq(table, "arch2id") {
            match crate::codec::decode_u64_row(val.as_str()) {
                Some(v) => {
                    self.arch_to_id.insert(id.to_owned(), v);
                    Ok(())
                },
                None => Err(LoadError::BadRow),
            }
        } else if str_eq(table, "id2arch") {
            match parse_u64(id) {
                Some(k) => match crate::codec::decode_str_row(val.as_str()) {
                    Some(v) => {
                        let ghost before = self.id_to_arch@;
                        self.id_to_arch.insert(k, v);
                        proof {
                            lemma_lift_vals_insert(before, k, self.id_to_arch@[k]);
                        }
                        Ok(())
                    },
                    None => Err(LoadError::BadRow),
                },
                None => Err(LoadError::BadKey),
            }
        } else if str_eq(table, "arch_compat") {
            match parse_u64(id) {
                Some(k) => match crate::codec::decode_u64_list_row(val.as_str()) {
                    Some(v) => {
                        let ghost before = self.arch_compat@;
                        self.arch_compat.insert(k, v);
                        proof {
                            lemma_lift_vals_insert(before, k, self.arch_compat@[k]);
                        }
                        Ok(())
                    },
                    None => Err(LoadError::BadRow),
                },
                None => Err(LoadError::BadKey),
            }
        } else if str_eq(table, "package_details") {
            match parse_u64(id) {
                Some(k) => match crate::codec::decode_package_row(val.as_str()) {
                    Some(v) => {
                        let ghost before = self.pkg_details@;
                        self.pkg_details.insert(k, v);
                        proof {
                            lemma_lift_vals_insert(before, k, self.pkg_details@[k]);
                        }
                        Ok(())
                    },
                    None => Err(LoadError::BadRow),
                },
                None => Err(LoadError::BadKey),
            }
        } else if str_eq(table, "nevra2pkgid") {
            match NevraId::parse(id) {
                Ok(k) => match crate::codec::decode_u64_row(val.as_str()) {
                    Some(v) => {
                        self.nevra_to_pkgid.insert(k, v);
                        Ok(())
                    },
                    None => Err(LoadError::BadRow),
                },
                Err(_) => Err(LoadError::BadKey),
            }
        } else if str_eq(table, "repo_detail") {
            match parse_u64(id) {
                Some(k) => match crate::codec::decode_repo_row(val.as_str()) {
                    Some(v) => {
                        let ghost before = self.repo_detail@;
                        self.repo_detail.insert(k, v);
                        proof {
                            lemma_lift_vals_insert(before, k, self.repo_detail@[k]);
                        }
                        Ok(())
                    },
                    None => Err(LoadError::BadRow),
                },
                None => Err(LoadError::BadKey),
            }
        } else if str_eq(table, "repolabel2ids") {
            match crate::codec::decode_u64_list_row(val.as_str()) {
                Some(v) => {
                    let ghost before = self.repolabel_to_ids@;
                    let ghost kv = id@;
                    self.repolabel_to_ids.insert(id.to_owned(), v);
                    proof {
                        lemma_lift_vals_insert(before, kv, self.repolabel_to_ids@[kv]);
                    }
                    Ok(())
                },
                None => Err(LoadError::BadRow),
            }
        } else if str_eq(table, "productid2repoids") {
            match parse_u64(id) {
                Some(k) => match crate::codec::decode_u64_list_row(val.as_str()) {
                    Some(v) => {
                        let ghost before = self.productid_to_repoids@;
                        self.productid_to_repoids.insert(k, v);
                        proof {
                            lemma_lift_vals_insert(before, k, self.productid_to_repoids@[k]);
                        }
                        Ok(())
                    },
                    None => Err(LoadError::BadRow),
                },
                None => Err(LoadError::BadKey),
            }
        } else if str_eq(table, "pkgid2repoids") {
            match parse_u64(id) {
                Some(k) => match crate::codec::decode_u64_list_row(val.as_str()) {
                    Some(v) => {
                        let ghost before = self.pkgid_to_repoids@;
                        self.pkgid_to_repoids.insert(k, v);
                        proof {
                            lemma_lift_vals_insert(before, k, self.pkgid_to_repoids@[k]);
                        }
                        Ok(())
                    },
                    None => Err(LoadError::BadRow),
                },
                None => Err(LoadError::BadKey),
            }
        } else if str_eq(table, "errataid2name") {
            match parse_u64(id) {
                Some(k) => match crate::codec::decode_str_row(val.as_str()) {
                    Some(v) => {
                        let ghost before = self.errataid_to_name@;
                        self.errataid_to_name.insert(k, v);
                        proof {
                            lemma_lift_vals_insert(before, k, self.errataid_to_name@[k]);
                        }
                        Ok(())
                    },
                    None => Err(LoadError::BadRow),
                },
                None => Err(LoadError::BadKey),
            }
        } else if str_eq(table, "pkgid2errataids") {
            match parse_u64(id) {
                Some(k) => match crate::codec::decode_u64_list_row(val.as_str()) {
                    Some(v) => {
                        let ghost before = self.pkgid_to_errataids@;
                        self.pkgid_to_errataids.insert(k, v);
                        proof {
                            lemma_lift_vals_insert(before, k, self.pkgid_to_errataids@[k]);
                        }
                        Ok(())
                    },
                    None => Err(LoadError::BadRow),
                },
                None => Err(LoadError::BadKey),
            }
        } else if str_eq(table, "errataid2repoids") {
            match parse_u64(id) {
                Some(k) => match crate::codec::decode_u64_list_row(val.as_str()) {
                    Some(v) => {
                        let ghost before = self.errataid_to_repoids@;
                        self.errataid_to_repoids.insert(k, v);
                        proof {
                            lemma_lift_vals_insert(before, k, self.errataid_to_repoids@[k]);
                        }
                        Ok(())
                    },
                    None => Err(LoadError::BadRow),
                },
                None => Err(LoadError::BadKey),
            }
        } else if str_eq(table, "cve_detail") {
            if val.as_str().unicode_len() == 0 {
                let ghost before = self.cve_detail@;
                let ghost kv = id@;
                self.cve_detail.insert(id.to_owned(), Cve {});
                proof {
                    lemma_lift_vals_insert(before, kv, self.cve_detail@[kv]);
                }
                Ok(())
            } else {
                Err(LoadError::BadRow)
            }
        } else if str_eq(table, "dbchange") {
            Ok(())
        } else if str_eq(table, "errata_detail") {
            if val.as_str().unicode_len() == 0 {
                let ghost before = self.errata_detail@;
                let ghost kv = id@;
                self.errata_detail.insert(id.to_owned(), Errata {});
                proof {
                    lemma_lift_vals_insert(before, kv, self.errata_detail@[kv]);
                }
                Ok(())
            } else {
                Err(LoadError::BadRow)
            }
        } else if str_eq(table, "pkgerrata2module") {
            Ok(())
        } else if str_eq(table, "modulename2id") {
            match crate::codec::decode_str_row(val.as_str()) {
                Some(v) => {
                    let ghost before = self.modulename_to_id@;
                    let ghost kv = id@;
                    self.modulename_to_id.insert(id.to_owned(), v);
                    proof {
                        lemma_lift_vals_insert(before, kv, self.modulename_to_id@[kv]);
                    }
                    Ok(())
                },
                None => Err(LoadError::BadRow),
            }
        } else if str_eq(table, "src_pkg_id2pkg_ids") {
            match crate::codec::decode_u64_list_row(val.as_str()) {
                Some(v) => {
                    let ghost before = self.src_pkg_id_to_pkg_ids@;
                    let ghost kv = id@;
                    self.src_pkg_id_to_pkg_ids.insert(id.to_owned(), v);
                    proof {
                        lemma_lift_vals_insert(before, kv, self.src_pkg_id_to_pkg_ids@[kv]);
                    }
                    Ok(())
                },
                None => Err(LoadError::BadRow),
            }
        } else {
            Err(LoadError::UnknownTable)
        }
    }
}

/// Builds the cache from every `(key, value)` row of a snapshot: rows land
/// in their tables in order; the first malformed row or unknown table name
/// aborts the load with its error, and no partial cache is returned.
pub fn load(entries: &Vec<(String, String)>) -> (r: Result<Cache, LoadError>)
    ensures
        ({
            let outcome = load_upto(
                rows_view(entries@),
                Cache::new_model(),
                entries@.len() as int,
            );
            match r {
                Ok(c) => outcome == Ok::<CacheModel, LoadError>(c.model()),
                Err(e) => outcome == Err::<CacheModel, LoadError>(e),
            }
        }),
{
    let ghost rows = rows_view(entries@);
    let mut cache = Cache::new();
    proof {
        assert(cache.model() =~~= Cache::new_model());
    }
    let n = entries.len();
    let mut i: usize = 0;
    while i < n
        invariant
            0 <= i <= n,
            n == entries@.len(),
            rows == rows_view(entries@),
            load_upto(rows, Cache::new_model(), i as int) == Ok::<CacheModel, LoadError>(
                cache.model(),
            ),
        decreases n - i,
    {
        let entry = &entries[i];
        match cache.apply_row(&entry.0, &entry.1) {
            Ok(_) => {},
            Err(e) => {
                proof {
                    lemma_load_err_stays(rows, Cache::new_model(), i as int + 1, n as int);
                }
                return Err(e);
            },
        }
        i = i + 1;
    }
    Ok(cache)
}

impl Cache {
    /// The model of a cache with every table empty.
    pub open spec fn new_model() -> CacheModel {
        CacheModel {
            name_to_id: Map::empty(),
            id_to_name: Map::empty(),
            updates: Map::empty(),
            updates_index: Map::empty(),
            evr_to_id: Map::empty(),
            id_to_evr: Map::empty(),
            arch_to_id: Map::empty(),
            id_to_arch: Map::empty(),
            arch_compat: Map::empty(),
            pkg_details: Map::empty(),
            nevra_to_pkgid: Map::empty(),
            repo_detail: Map::empty(),
            repolabel_to_ids: Map::empty(),
            productid_to_repoids: Map::empty(),
            pkgid_to_repoids: Map::empty(),
            errataid_to_name: Map::empty(),
            pkgid_to_errataids: Map::empty(),
            errataid_to_repoids: Map::empty(),
            cve_detail: Map::empty(),
            dbchange: Map::empty(),
            errata_detail: Map::empty(),
            pkgerrata_to_module: Map::empty(),
            modulename_to_id: Map::empty(),
            src_pkg_id_to_pkg_ids: Map::empty(),
        }
    }
}

impl Cache {
    /// A cache with every table empty.
    pub fn new() -> (r: Cache)
        ensures
            r.name_to_id@ == Map::<Seq<char>, u64>::empty(),
            r.id_to_name@ == Map::<u64, String>::empty(),
            r.updates@ == Map::<u64, Vec<u64>>::empty(),
            r.updates_index@ == Map::<u64, UpdatesIndex>::empty(),
            r.evr_to_id@ == Map::<EvrModel, u64>::empty(),
            r.id_to_evr@ == Map::<u64, Evr>::empty(),
            r.arch_to_id@ == Map::<Seq<char>, u64>::empty(),
            r.id_to_arch@ == Map::<u64, String>::empty(),
            r.arch_compat@ == Map::<u64, Vec<u64>>::empty(),
            r.pkg_details@ == Map::<u64, Package>::empty(),
            r.nevra_to_pkgid@ == Map::<NevraId, u64>::empty(),
            r.repo_detail@ == Map::<u64, Repo>::empty(),
            r.repolabel_to_ids@ == Map::<Seq<char>, Vec<u64>>::empty(),
            r.productid_to_repoids@ == Map::<u64, Vec<u64>>::empty(),
            r.pkgid_to_repoids@ == Map::<u64, Vec<u64>>::empty(),
            r.errataid_to_name@ == Map::<u64, String>::empty(),
            r.pkgid_to_errataids@ == Map::<u64, Vec<u64>>::empty(),
            r.errataid_to_repoids@ == Map::<u64, Vec<u64>>::empty(),
            r.cve_detail@ == Map::<Seq<char>, Cve>::empty(),
            r.dbchange@ == Map::<Seq<char>, String>::empty(),
            r.errata_detail@ == Map::<Seq<char>, Errata>::empty(),
            r.pkgerrata_to_module@ == Map::<Seq<char>, String>::empty(),
            r.modulename_to_id@ == Map::<Seq<char>, String>::empty(),
            r.src_pkg_id_to_pkg_ids@ == Map::<Seq<char>, Vec<u64>>::empty(),
    {
        Cache {
            name_to_id: StrMap::new(),
            id_to_name: IdMap::new(),
            updates: IdMap::new(),
            updates_index: IdMap::new(),
            evr_to_id: EvrMap::new(),
            id_to_evr: IdMap::new(),
            arch_to_id: StrMap::new(),
            id_to_arch: IdMap::new(),
            arch_compat: IdMap::new(),
            pkg_details: IdMap::new(),
            nevra_to_pkgid: NevraIdMap::new(),
            repo_detail: IdMap::new(),
            repolabel_to_ids: StrMap::new(),
            productid_to_repoids: IdMap::new(),
            pkgid_to_repoids: IdMap::new(),
            errataid_to_name: IdMap::new(),
            pkgid_to_errataids: IdMap::new(),
            errataid_to_repoids: IdMap::new(),
            cve_detail: StrMap::new(),
            dbchange: StrMap::new(),
            errata_detail: StrMap::new(),
            pkgerrata_to_module: StrMap::new(),
            modulename_to_id: StrMap::new(),
            src_pkg_id_to_pkg_ids: StrMap::new(),
        }
    }
}

} // verus!

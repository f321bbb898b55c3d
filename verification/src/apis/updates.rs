//! The update-resolution engine: answers which newer package builds are
//! available for a set of installed packages, and from which errata and
//! repositories, optionally scoped by repository labels, release version
//! and base architecture.

use vstd::prelude::*;
use crate::CoreError;
use crate::cache::{Cache, CacheModel, RepoModel, lift_vals};
use crate::nevra::{Nevra, NevraModel, evr_of};
use crate::strutil::{contains_substr, dec_digits, has_substr};
use crate::tables::{IdSet, StrMap, StrSet};

verus! {

/// The updates endpoint.
pub struct UpdatesApi;

/// A requested module stream (accepted, not consulted by resolution).
#[derive(Debug)]
pub struct ModuleSpec {
    pub module_name: String,
    pub module_stream: String,
}

/// An update query: installed packages plus optional scope filters.
#[derive(Debug)]
pub struct UpdatesReq {
    pub package_list: Vec<String>,
    pub repository_list: Option<Vec<String>>,
    pub modules_list: Option<Vec<ModuleSpec>>,
    pub releasever: Option<String>,
    pub basearch: Option<String>,
}

/// Mathematical value of an [`UpdatesReq`].
pub ghost struct UpdatesReqModel {
    pub package_list: Seq<Seq<char>>,
    pub repository_list: Option<Seq<Seq<char>>>,
    pub releasever: Option<Seq<char>>,
    pub basearch: Option<Seq<char>>,
}

impl View for UpdatesReq {
    type V = UpdatesReqModel;

    open spec fn view(&self) -> UpdatesReqModel {
        UpdatesReqModel {
            package_list: self.package_list@.map_values(|s: String| s@),
            repository_list: match self.repository_list {
                Some(v) => Some(v@.map_values(|s: String| s@)),
                None => None,
            },
            releasever: crate::cache::opt_view(self.releasever),
            basearch: crate::cache::opt_view(self.basearch),
        }
    }
}

/// Mathematical value of a [`PkgUpdate`].
pub ghost struct PkgUpdateModel {
    pub package: NevraModel,
    pub erratum: Seq<char>,
    pub repository: Option<Seq<char>>,
    pub basearch: Option<Seq<char>>,
    pub releasever: Option<Seq<char>>,
}

/// One available update: a newer build, the erratum naming it and the
/// repository carrying it.
#[derive(Debug)]
pub struct PkgUpdate {
    pub package: Nevra,
    pub erratum: String,
    pub repository: Option<String>,
    pub basearch: Option<String>,
    pub releasever: Option<String>,
}

impl View for PkgUpdate {
    type V = PkgUpdateModel;

    open spec fn view(&self) -> PkgUpdateModel {
        PkgUpdateModel {
            package: self.package@,
            erratum: self.erratum@,
            repository: crate::cache::opt_view(self.repository),
            basearch: crate::cache::opt_view(self.basearch),
            releasever: crate::cache::opt_view(self.releasever),
        }
    }
}

/// Mathematical value of an [`UpdatesPkgDetail`].
pub ghost struct UpdatesPkgDetailModel {
    pub summary: Option<Seq<char>>,
    pub description: Option<Seq<char>>,
    pub available_updates: Seq<PkgUpdateModel>,
}

/// Per-package answer: the installed build's metadata and its available
/// updates.
#[derive(Debug)]
pub struct UpdatesPkgDetail {
    pub summary: Option<String>,
    pub description: Option<String>,
    pub available_updates: Vec<PkgUpdate>,
}

impl View for UpdatesPkgDetail {
    type V = UpdatesPkgDetailModel;

    open spec fn view(&self) -> UpdatesPkgDetailModel {
        UpdatesPkgDetailModel {
            summary: crate::cache::opt_view(self.summary),
            description: crate::cache::opt_view(self.description),
            available_updates: self.available_updates@.map_values(|u: PkgUpdate| u@),
        }
    }
}

/// Mathematical value of an [`UpdatesData`].
pub ghost struct UpdatesDataModel {
    pub update_list: Map<Seq<char>, UpdatesPkgDetailModel>,
    pub repository_list: Option<Seq<Seq<char>>>,
    pub releasever: Option<Seq<char>>,
    pub basearch: Option<Seq<char>>,
}

/// The whole answer: one entry per resolved package, plus the echoed scope
/// filters.
pub struct UpdatesData {
    pub update_list: StrMap<UpdatesPkgDetail>,
    pub repository_list: Option<Vec<String>>,
    pub releasever: Option<String>,
    pub basearch: Option<String>,
}

impl View for UpdatesData {
    type V = UpdatesDataModel;

    open spec fn view(&self) -> UpdatesDataModel {
        UpdatesDataModel {
            update_list: lift_vals(self.update_list@),
            repository_list: match self.repository_list {
                Some(v) => Some(v@.map_values(|s: String| s@)),
                None => None,
            },
            releasever: crate::cache::opt_view(self.releasever),
            basearch: crate::cache::opt_view(self.basearch),
        }
    }
}

impl UpdatesData {
    /// An answer with no entries and no echoed filters.
    pub fn new() -> (r: UpdatesData)
        ensures
            r@.update_list == Map::<Seq<char>, UpdatesPkgDetailModel>::empty(),
            r@.repository_list is None,
            r@.releasever is None,
            r@.basearch is None,
    {
        let r = UpdatesData {
            update_list: StrMap::new(),
            repository_list: None,
            releasever: None,
            basearch: None,
        };
        proof {
            assert(lift_vals(r.update_list@) =~= Map::<Seq<char>, UpdatesPkgDetailModel>::empty());
        }
        r
    }
}

/// A repository matches a requested release version if it declares that
/// version, or declares none and its URL contains the version.
pub open spec fn releasever_matches(r: RepoModel, rv: Seq<char>) -> bool {
    (r.releasever is Some && r.releasever->0 == rv) || (r.releasever is None && has_substr(
        r.url,
        rv,
    ))
}

/// A repository matches a requested base architecture if it declares that
/// architecture, or declares none and its URL contains it.
pub open spec fn basearch_matches(r: RepoModel, ba: Seq<char>) -> bool {
    (r.basearch is Some && r.basearch->0 == ba) || (r.basearch is None && has_substr(r.url, ba))
}

/// The repository scope of a request: every repository when no label list
/// is given, else those carrying a listed label; in either case narrowed
/// to the repositories matching the requested release version and base
/// architecture.
pub open spec fn label_scope(cm: CacheModel, labels: Seq<Seq<char>>, id: u64) -> bool {
    exists|i: int|
        0 <= i < labels.len() && cm.repolabel_to_ids.contains_key(#[trigger] labels[i])
            && cm.repolabel_to_ids[labels[i]].contains(id)
}

pub open spec fn repo_in_scope(cm: CacheModel, req: UpdatesReqModel, id: u64) -> bool {
    &&& cm.repo_detail.contains_key(id)
    &&& (match req.repository_list {
        None => true,
        Some(labels) => label_scope(cm, labels, id),
    })
    &&& (match req.releasever {
        None => true,
        Some(rv) => releasever_matches(cm.repo_detail[id], rv),
    })
    &&& (match req.basearch {
        None => true,
        Some(ba) => basearch_matches(cm.repo_detail[id], ba),
    })
}

/// Closed-world conditions the resolution engine relies on: every id a
/// cache row refers to exists in its defining table.
pub open spec fn engine_wf(cm: CacheModel) -> bool {
    // an indexed name has an update chain
    &&& (forall|n: u64| #[trigger]
        cm.updates_index.contains_key(n) ==> cm.updates.contains_key(n))
    // index positions stay within their chain
    &&& (forall|n: u64, e: u64, i: int|
        #![trigger cm.updates_index[n][e][i]]
        cm.updates_index.contains_key(n) && cm.updates_index[n].contains_key(e) && 0 <= i
            < cm.updates_index[n][e].len() ==> (cm.updates_index[n][e][i] as int) < cm.updates[
            n
        ].len())
    // chain members are known builds
    &&& (forall|n: u64, i: int|
        #![trigger cm.updates[n][i]]
        cm.updates.contains_key(n) && 0 <= i < cm.updates[n].len() ==> cm.pkg_details.contains_key(
            cm.updates[n][i],
        ))
    // a build's name, evr and arch ids are interned
    &&& (forall|p: u64| #[trigger]
        cm.pkg_details.contains_key(p) ==> cm.id_to_name.contains_key(cm.pkg_details[p].name_id)
            && cm.id_to_evr.contains_key(cm.pkg_details[p].evr_id)
            && cm.id_to_arch.contains_key(cm.pkg_details[p].arch_id))
    // every known architecture has a compatibility row
    &&& (forall|a: Seq<char>| #[trigger]
        cm.arch_to_id.contains_key(a) ==> cm.arch_compat.contains_key(cm.arch_to_id[a]))
    // a build with errata has a repository row
    &&& (forall|p: u64| #[trigger]
        cm.pkgid_to_errataids.contains_key(p) ==> cm.pkgid_to_repoids.contains_key(p))
    // a build's errata have name and repository rows
    &&& (forall|p: u64, i: int|
        #![trigger cm.pkgid_to_errataids[p][i]]
        cm.pkgid_to_errataids.contains_key(p) && 0 <= i < cm.pkgid_to_errataids[p].len()
            ==> cm.errataid_to_repoids.contains_key(cm.pkgid_to_errataids[p][i])
            && cm.errataid_to_name.contains_key(cm.pkgid_to_errataids[p][i]))
    // labelled repositories have detail rows
    &&& (forall|l: Seq<char>, i: int|
        #![trigger cm.repolabel_to_ids[l][i]]
        cm.repolabel_to_ids.contains_key(l) && 0 <= i < cm.repolabel_to_ids[l].len()
            ==> cm.repo_detail.contains_key(cm.repolabel_to_ids[l][i]))
    // a build's repositories have detail rows
    &&& (forall|p: u64, i: int|
        #![trigger cm.pkgid_to_repoids[p][i]]
        cm.pkgid_to_repoids.contains_key(p) && 0 <= i < cm.pkgid_to_repoids[p].len()
            ==> cm.repo_detail.contains_key(cm.pkgid_to_repoids[p][i]))
}

/// The union of the repo ids behind the requested labels.
fn union_labels(cache: &Cache, repos: &Vec<String>) -> (r: IdSet)
    ensures
        r.inv(),
        forall|id: u64|
            #[trigger] r@.contains(id) <==> exists|i: int|
                0 <= i < repos@.len() && cache.model().repolabel_to_ids.contains_key(
                    (#[trigger] repos@[i])@,
                ) && cache.model().repolabel_to_ids[repos@[i]@].contains(id),
{
    let mut avail = IdSet::new();
    let n = repos.len();
    let mut i: usize = 0;
    while i < n
        invariant
            0 <= i <= n,
            n == repos@.len(),
            avail.inv(),
            forall|id: u64|
                #[trigger] avail@.contains(id) <==> exists|j: int|
                    0 <= j < i && cache.model().repolabel_to_ids.contains_key(
                        (#[trigger] repos@[j])@,
                    ) && cache.model().repolabel_to_ids[repos@[j]@].contains(id),
        decreases n - i,
    {
        match cache.repolabel_to_ids.get(&repos[i]) {
            Some(ids) => {
                let ghost lab = repos@[i as int]@;
                let m = ids.len();
                let mut t: usize = 0;
                while t < m
                    invariant
                        0 <= t <= m,
                        0 <= i < n,
                        n == repos@.len(),
                        m == ids@.len(),
                        avail.inv(),
                        lab == (repos@[i as int])@,
                        cache.model().repolabel_to_ids.contains_key(lab),
                        cache.model().repolabel_to_ids[lab] == ids@,
                        forall|id: u64|
                            #[trigger] avail@.contains(id) <==> ((exists|j: int|
                                0 <= j < i && cache.model().repolabel_to_ids.contains_key(
                                    (#[trigger] repos@[j])@,
                                ) && cache.model().repolabel_to_ids[repos@[j]@].contains(id))
                                || ids@.take(t as int).contains(id)),
                    decreases m - t,
                {
                    let id = ids[t];
                    avail.insert(id);
                    proof {
                        crate::tables::lemma_take_step(ids@, t as int);
                    }
                    t = t + 1;
                }
                proof {
                    assert(ids@.take(m as int) =~= ids@);
                    assert forall|id: u64| #[trigger]
                        avail@.contains(id) implies (exists|j: int|
                        0 <= j < i + 1 && cache.model().repolabel_to_ids.contains_key(
                            (#[trigger] repos@[j])@,
                        ) && cache.model().repolabel_to_ids[repos@[j]@].contains(id)) by {
                        if ids@.contains(id) {
                            assert(cache.model().repolabel_to_ids.contains_key((repos@[i as int])@)
                                && cache.model().repolabel_to_ids[repos@[i as int]@].contains(id));
                        }
                    }
                }
            },
            None => {
                proof {
                    assert forall|id: u64| #[trigger]
                        avail@.contains(id) implies (exists|j: int|
                        0 <= j < i + 1 && cache.model().repolabel_to_ids.contains_key(
                            (#[trigger] repos@[j])@,
                        ) && cache.model().repolabel_to_ids[repos@[j]@].contains(id)) by {}
                    assert forall|id: u64|
                        (exists|j: int|
                            0 <= j < i + 1 && cache.model().repolabel_to_ids.contains_key(
                                (#[trigger] repos@[j])@,
                            ) && cache.model().repolabel_to_ids[repos@[j]@].contains(
                                id,
                            )) implies #[trigger] avail@.contains(id) by {
                        let j = choose|j: int|
                            0 <= j < i + 1 && cache.model().repolabel_to_ids.contains_key(
                                (#[trigger] repos@[j])@,
                            ) && cache.model().repolabel_to_ids[repos@[j]@].contains(id);
                        assert(j != i);
                    }
                }
            },
        }
        i = i + 1;
    }
    avail
}

/// Every repository id in the cache.
fn all_repo_ids(cache: &Cache) -> (r: IdSet)
    ensures
        r.inv(),
        forall|id: u64| #[trigger]
            r@.contains(id) <==> cache.model().repo_detail.contains_key(id),
{
    let keys = cache.repo_detail.keys();
    let mut avail = IdSet::new();
    let n = keys.len();
    let mut i: usize = 0;
    while i < n
        invariant
            0 <= i <= n,
            n == keys@.len(),
            avail.inv(),
            forall|id: u64| #[trigger] avail@.contains(id) <==> keys@.take(i as int).contains(id),
            forall|id: u64| keys@.contains(id) <==> cache.repo_detail@.contains_key(id),
        decreases n - i,
    {
        avail.insert(keys[i]);
        proof {
            crate::tables::lemma_take_step(keys@, i as int);
        }
        i = i + 1;
    }
    proof {
        assert(keys@.take(n as int) =~= keys@);
        assert forall|id: u64| #[trigger]
            avail@.contains(id) <==> cache.model().repo_detail.contains_key(id) by {
            assert(keys@.contains(id) <==> cache.repo_detail@.contains_key(id));
        }
    }
    avail
}

/// Keeps the repositories matching the requested release version.
fn filter_by_releasever(cache: &Cache, avail: &IdSet, rv: &String) -> (r: IdSet)
    requires
        forall|id: u64| #[trigger]
            avail@.contains(id) ==> cache.model().repo_detail.contains_key(id),
    ensures
        r.inv(),
        forall|id: u64| #[trigger]
            r@.contains(id) <==> avail@.contains(id) && releasever_matches(
                cache.model().repo_detail[id],
                rv@,
            ),
{
    let src = avail.vec();
    let mut out = IdSet::new();
    let n = src.len();
    let mut i: usize = 0;
    while i < n
        invariant
            0 <= i <= n,
            n == src@.len(),
            src@ == avail.seq(),
            out.inv(),
            forall|id: u64| #[trigger]
                avail@.contains(id) ==> cache.model().repo_detail.contains_key(id),
            forall|id: u64| #[trigger]
                out@.contains(id) <==> src@.take(i as int).contains(id) && releasever_matches(
                    cache.model().repo_detail[id],
                    rv@,
                ),
        decreases n - i,
    {
        let id = src[i];
        proof {
            avail.lemma_view_members();
            assert(avail.seq()[i as int] == id);
            assert(avail.seq().contains(id));
            assert(avail@.contains(id));
        }
        let keep = match cache.repo_detail.get(id) {
            Some(rd) => match &rd.releasever {
                Some(v) => v.eq(rv),
                None => contains_substr(rd.url.as_str(), rv.as_str()),
            },
            None => vstd::pervasive::unreached(),
        };
        if keep {
            out.insert(id);
        }
        proof {
            crate::tables::lemma_take_step(src@, i as int);
        }
        i = i + 1;
    }
    proof {
        avail.lemma_view_members();
        assert(src@.take(n as int) =~= src@);
    }
    out
}

/// Keeps the repositories matching the requested base architecture.
fn filter_by_basearch(cache: &Cache, avail: &IdSet, ba: &String) -> (r: IdSet)
    requires
        forall|id: u64| #[trigger]
            avail@.contains(id) ==> cache.model().repo_detail.contains_key(id),
    ensures
        r.inv(),
        forall|id: u64| #[trigger]
            r@.contains(id) <==> avail@.contains(id) && basearch_matches(
                cache.model().repo_detail[id],
                ba@,
            ),
{
    let src = avail.vec();
    let mut out = IdSet::new();
    let n = src.len();
    let mut i: usize = 0;
    while i < n
        invariant
            0 <= i <= n,
            n == src@.len(),
            src@ == avail.seq(),
            out.inv(),
            forall|id: u64| #[trigger]
                avail@.contains(id) ==> cache.model().repo_detail.contains_key(id),
            forall|id: u64| #[trigger]
                out@.contains(id) <==> src@.take(i as int).contains(id) && basearch_matches(
                    cache.model().repo_detail[id],
                    ba@,
                ),
        decreases n - i,
    {
        let id = src[i];
        proof {
            avail.lemma_view_members();
            assert(avail.seq()[i as int] == id);
            assert(avail.seq().contains(id));
            assert(avail@.contains(id));
        }
        let keep = match cache.repo_detail.get(id) {
            Some(rd) => match &rd.basearch {
                Some(v) => v.eq(ba),
                None => contains_substr(rd.url.as_str(), ba.as_str()),
            },
            None => vstd::pervasive::unreached(),
        };
        if keep {
            out.insert(id);
        }
        proof {
            crate::tables::lemma_take_step(src@, i as int);
        }
        i = i + 1;
    }
    proof {
        avail.lemma_view_members();
        assert(src@.take(n as int) =~= src@);
    }
    out
}

/// The product ids declared by any of the given repositories.
pub open spec fn products_of(cm: CacheModel, repo_ids: Set<u64>, p: u64) -> bool {
    exists|id: u64|
        #[trigger] repo_ids.contains(id) && cm.repo_detail[id].product_id == Some(p)
}

/// The release versions declared by any of the given repositories.
pub open spec fn releasever_of(cm: CacheModel, repo_ids: Set<u64>, rv: Seq<char>) -> bool {
    exists|id: u64|
        #[trigger] repo_ids.contains(id) && cm.repo_detail[id].releasever == Some(rv)
}

/// The canonical identity of a known build, read back from the interning
/// tables; its epoch is always present, rendered in decimal.
pub open spec fn built_nevra(cm: CacheModel, u: u64) -> NevraModel {
    NevraModel {
        name: cm.id_to_name[cm.pkg_details[u].name_id],
        epoch: Some(dec_digits(cm.id_to_evr[cm.pkg_details[u].evr_id].epoch as nat)),
        version: cm.id_to_evr[cm.pkg_details[u].evr_id].version,
        release: cm.id_to_evr[cm.pkg_details[u].evr_id].release,
        arch: cm.id_to_arch[cm.pkg_details[u].arch_id],
    }
}

impl UpdatesApi {
    /// The set of product ids declared by the given repositories.
    pub fn related_products(cache: &Cache, original_repo_ids: &IdSet) -> (r: IdSet)
        requires
            forall|id: u64| #[trigger]
                original_repo_ids@.contains(id) ==> cache.model().repo_detail.contains_key(id),
        ensures
            r.inv(),
            forall|p: u64| #[trigger]
                r@.contains(p) <==> products_of(cache.model(), original_repo_ids@, p),
    {
        let src = original_repo_ids.vec();
        let mut out = IdSet::new();
        let n = src.len();
        let mut i: usize = 0;
        while i < n
            invariant
                0 <= i <= n,
                n == src@.len(),
                src@ == original_repo_ids.seq(),
                out.inv(),
                forall|id: u64| #[trigger]
                    original_repo_ids@.contains(id) ==> cache.model().repo_detail.contains_key(id),
                forall|p: u64| #[trigger]
                    out@.contains(p) <==> exists|id: u64|
                        #[trigger] src@.take(i as int).contains(id)
                            && cache.model().repo_detail[id].product_id == Some(p),
            decreases n - i,
        {
            let id = src[i];
            proof {
                original_repo_ids.lemma_view_members();
                assert(src@[i as int] == id);
                assert(original_repo_ids@.contains(id));
                crate::tables::lemma_take_step(src@, i as int);
            }
            let ghost prev = out@;
            match cache.repo_detail.get(id) {
                Some(rd) => match rd.product_id {
                    Some(pid) => {
                        out.insert(pid);
                        proof {
                            assert(src@.take(i + 1).contains(id));
                            assert(cache.model().repo_detail[id].product_id == Some(pid));
                        }
                    },
                    None => {},
                },
                None => {
                    proof {
                        assert(false);
                    }
                },
            }
            proof {
                let cm = cache.model();
                assert forall|p: u64| #[trigger] out@.contains(p) implies exists|id0: u64|
                    #[trigger] src@.take(i as int + 1).contains(id0)
                        && cm.repo_detail[id0].product_id == Some(p) by {
                    if prev.contains(p) {
                        let id0 = choose|id0: u64|
                            #[trigger] src@.take(i as int).contains(id0)
                                && cm.repo_detail[id0].product_id == Some(p);
                        assert(src@.take(i as int + 1).contains(id0));
                    } else {
                        assert(src@.take(i as int + 1).contains(id));
                    }
                }
                assert forall|p: u64|
                    (exists|id0: u64|
                        #[trigger] src@.take(i as int + 1).contains(id0)
                            && cm.repo_detail[id0].product_id == Some(p)) implies #[trigger]
                    out@.contains(p) by {
                    let id0 = choose|id0: u64|
                        #[trigger] src@.take(i as int + 1).contains(id0)
                            && cm.repo_detail[id0].product_id == Some(p);
                    if src@.take(i as int).contains(id0) {
                        assert(prev.contains(p));
                    } else {
                        assert(id0 == id);
                    }
                }
            }
            i = i + 1;
        }
        proof {
            original_repo_ids.lemma_view_members();
            assert(src@.take(n as int) =~= src@);
            let cm = cache.model();
            assert forall|p: u64| #[trigger] out@.contains(p) implies products_of(
                cm,
                original_repo_ids@,
                p,
            ) by {
                let id0 = choose|id0: u64|
                    #[trigger] src@.take(n as int).contains(id0) && cm.repo_detail[id0].product_id
                        == Some(p);
                assert(original_repo_ids@.contains(id0));
            }
            assert forall|p: u64| products_of(cm, original_repo_ids@, p) implies #[trigger]
                out@.contains(p) by {
                let id0 = choose|id0: u64|
                    #[trigger] original_repo_ids@.contains(id0) && cm.repo_detail[id0].product_id
                        == Some(p);
                assert(src@.take(n as int).contains(id0));
            }
        }
        out
    }

    /// The set of release versions declared by the given repositories.
    pub fn valid_releasevers(cache: &Cache, original_repo_ids: &IdSet) -> (r: StrSet)
        requires
            forall|id: u64| #[trigger]
                original_repo_ids@.contains(id) ==> cache.model().repo_detail.contains_key(id),
        ensures
            forall|rv: Seq<char>| #[trigger]
                r@.contains(rv) <==> releasever_of(cache.model(), original_repo_ids@, rv),
    {
        let src = original_repo_ids.vec();
        let mut out = StrSet::new();
        let n = src.len();
        let mut i: usize = 0;
        while i < n
            invariant
                0 <= i <= n,
                n == src@.len(),
                src@ == original_repo_ids.seq(),
                forall|id: u64| #[trigger]
                    original_repo_ids@.contains(id) ==> cache.model().repo_detail.contains_key(id),
                forall|rv: Seq<char>| #[trigger]
                    out@.contains(rv) <==> exists|id: u64|
                        #[trigger] src@.take(i as int).contains(id)
                            && cache.model().repo_detail[id].releasever == Some(rv),
            decreases n - i,
        {
            let id = src[i];
            proof {
                original_repo_ids.lemma_view_members();
                assert(src@[i as int] == id);
                assert(original_repo_ids@.contains(id));
                crate::tables::lemma_take_step(src@, i as int);
            }
            let ghost prev = out@;
            let ghost inserted: Option<Seq<char>> = None;
            match cache.repo_detail.get(id) {
                Some(rd) => match &rd.releasever {
                    Some(rv) => {
                        let ghost rvv = rv@;
                        proof {
                            inserted = Some(rvv);
                        }
                        out.insert(rv.clone());
                        proof {
                            assert(src@.take(i + 1).contains(id));
                            assert(cache.model().repo_detail[id].releasever == Some(rvv));
                        }
                    },
                    None => {},
                },
                None => {
                    proof {
                        assert(false);
                    }
                },
            }
            proof {
                let cm = cache.model();
                assert forall|rv: Seq<char>| #[trigger] out@.contains(rv) implies exists|id0: u64|
                    #[trigger] src@.take(i as int + 1).contains(id0)
                        && cm.repo_detail[id0].releasever == Some(rv) by {
                    if prev.contains(rv) {
                        let id0 = choose|id0: u64|
                            #[trigger] src@.take(i as int).contains(id0)
                                && cm.repo_detail[id0].releasever == Some(rv);
                        assert(src@.take(i as int + 1).contains(id0));
                    } else {
                        assert(src@.take(i as int + 1).contains(id));
                    }
                }
                assert forall|rv: Seq<char>|
                    (exists|id0: u64|
                        #[trigger] src@.take(i as int + 1).contains(id0)
                            && cm.repo_detail[id0].releasever == Some(rv)) implies #[trigger]
                    out@.contains(rv) by {
                    let id0 = choose|id0: u64|
                        #[trigger] src@.take(i as int + 1).contains(id0)
                            && cm.repo_detail[id0].releasever == Some(rv);
                    if src@.take(i as int).contains(id0) {
                        assert(prev.contains(rv));
                    } else {
                        assert(id0 == id);
                    }
                }
            }
            i = i + 1;
        }
        proof {
            original_repo_ids.lemma_view_members();
            assert(src@.take(n as int) =~= src@);
            let cm = cache.model();
            assert forall|rv: Seq<char>| #[trigger] out@.contains(rv) implies releasever_of(
                cm,
                original_repo_ids@,
                rv,
            ) by {
                let id0 = choose|id0: u64|
                    #[trigger] src@.take(n as int).contains(id0) && cm.repo_detail[id0].releasever
                        == Some(rv);
                assert(original_repo_ids@.contains(id0));
            }
            assert forall|rv: Seq<char>| releasever_of(cm, original_repo_ids@, rv) implies #[trigger]
                out@.contains(rv) by {
                let id0 = choose|id0: u64|
                    #[trigger] original_repo_ids@.contains(id0) && cm.repo_detail[id0].releasever
                        == Some(rv);
                assert(src@.take(n as int).contains(id0));
            }
        }
        out
    }

    /// The canonical identity of a known build.
    pub fn build_nevra(cache: &Cache, update_pkg_id: u64) -> (r: Nevra)
        requires
            engine_wf(cache.model()),
            cache.model().pkg_details.contains_key(update_pkg_id),
        ensures
            r@ == built_nevra(cache.model(), update_pkg_id),
    {
        let det = match cache.pkg_details.get(update_pkg_id) {
            Some(d) => d,
            None => vstd::pervasive::unreached(),
        };
        let name = match cache.id_to_name.get(det.name_id) {
            Some(s) => s.clone(),
            None => vstd::pervasive::unreached(),
        };
        let evr = match cache.id_to_evr.get(det.evr_id) {
            Some(e) => e.clone(),
            None => vstd::pervasive::unreached(),
        };
        let arch = match cache.id_to_arch.get(det.arch_id) {
            Some(s) => s.clone(),
            None => vstd::pervasive::unreached(),
        };
        Nevra::from_name_evr_arch(name, evr, arch)
    }

    /// Resolves the repository scope of the request and echoes the filters
    /// into the response.
    pub fn process_repositories(cache: &Cache, data: &UpdatesReq, response: &mut UpdatesData) -> (r:
        IdSet)
        requires
            engine_wf(cache.model()),
        ensures
            r.inv(),
            forall|id: u64| #[trigger] r@.contains(id) <==> repo_in_scope(cache.model(), data@, id),
            final(response)@.update_list == old(response)@.update_list,
            final(response)@.repository_list == (if data@.repository_list is Some {
                data@.repository_list
            } else {
                old(response)@.repository_list
            }),
            final(response)@.releasever == (if data@.releasever is Some {
                data@.releasever
            } else {
                old(response)@.releasever
            }),
            final(response)@.basearch == (if data@.basearch is Some {
                data@.basearch
            } else {
                old(response)@.basearch
            }),
    {
        let mut avail: IdSet;
        match &data.repository_list {
            Some(repos) => {
                avail = union_labels(cache, repos);
                proof {
                    let cm = cache.model();
                    let labels = data@.repository_list->0;
                    assert forall|id: u64| #[trigger] avail@.contains(id) implies label_scope(
                        cm,
                        labels,
                        id,
                    ) by {
                        let i0 = choose|i0: int|
                            0 <= i0 < repos@.len() && cm.repolabel_to_ids.contains_key(
                                (#[trigger] repos@[i0])@,
                            ) && cm.repolabel_to_ids[(repos@[i0])@].contains(id);
                        assert(labels[i0] == (repos@[i0])@);
                    }
                    assert forall|id: u64| label_scope(cm, labels, id) implies #[trigger]
                        avail@.contains(id) by {
                        let i0 = choose|i0: int|
                            0 <= i0 < labels.len() && cm.repolabel_to_ids.contains_key(
                                #[trigger] labels[i0],
                            ) && cm.repolabel_to_ids[labels[i0]].contains(id);
                        assert((repos@[i0])@ == labels[i0]);
                        assert(cm.repolabel_to_ids.contains_key((repos@[i0])@)
                            && cm.repolabel_to_ids[(repos@[i0])@].contains(id));
                    }
                    assert forall|id: u64| #[trigger]
                        avail@.contains(id) implies cm.repo_detail.contains_key(id) by {
                        let i0 = choose|i0: int|
                            0 <= i0 < repos@.len() && cm.repolabel_to_ids.contains_key(
                                (#[trigger] repos@[i0])@,
                            ) && cm.repolabel_to_ids[(repos@[i0])@].contains(id);
                        let lab = (repos@[i0])@;
                        let u = choose|u: int|
                            0 <= u < cm.repolabel_to_ids[lab].len() && (
                            #[trigger] cm.repolabel_to_ids[lab][u]) == id;
                        assert(cm.repo_detail.contains_key(cm.repolabel_to_ids[lab][u]));
                    }
                }
                response.repository_list = Some(clone_string_vec(repos));
            },
            None => {
                avail = all_repo_ids(cache);
            },
        }
        match &data.releasever {
            Some(rv) => {
                let filtered = filter_by_releasever(cache, &avail, rv);
                avail = filtered;
                response.releasever = Some(rv.clone());
            },
            None => {},
        }
        match &data.basearch {
            Some(ba) => {
                let filtered = filter_by_basearch(cache, &avail, ba);
                avail = filtered;
                response.basearch = Some(ba.clone());
            },
            None => {},
        }
        avail
    }
}

/// `id` is carried by one of the given errata.
pub open spec fn errata_repo_set(cm: CacheModel, errata_ids: Seq<u64>, id: u64) -> bool {
    exists|i: int|
        0 <= i < errata_ids.len() && cm.errataid_to_repoids[#[trigger] errata_ids[i]].contains(id)
}

/// The repository declares a release version in the valid set; an
/// undeclared one counts as the empty string.
pub open spec fn rv_ok(cm: CacheModel, valid_rv: Set<Seq<char>>, id: u64) -> bool {
    valid_rv.contains(
        match cm.repo_detail[id].releasever {
            Some(rv) => rv,
            None => Seq::empty(),
        },
    )
}

/// A repository survives for one candidate and erratum: it carries the
/// erratum, lies in the request scope, and declares a valid release
/// version.
pub open spec fn repo_passes(
    cm: CacheModel,
    eids: Seq<u64>,
    avail: Set<u64>,
    valid_rv: Set<Seq<char>>,
    id: u64,
) -> bool {
    errata_repo_set(cm, eids, id) && avail.contains(id) && rv_ok(cm, valid_rv, id)
}

/// The surviving repositories among the first `n` of `src`, first
/// occurrences only, in order.
pub open spec fn filter_repos(
    cm: CacheModel,
    eids: Seq<u64>,
    avail: Set<u64>,
    valid_rv: Set<Seq<char>>,
    src: Seq<u64>,
    n: int,
) -> Seq<u64>
    decreases n,
{
    if n <= 0 {
        Seq::empty()
    } else {
        let pre = filter_repos(cm, eids, avail, valid_rv, src, n - 1);
        if repo_passes(cm, eids, avail, valid_rv, src[n - 1]) && !pre.contains(src[n - 1]) {
            pre.push(src[n - 1])
        } else {
            pre
        }
    }
}

/// What `filter_repos` holds: exactly the surviving members of `src`.
pub proof fn lemma_filter_repos_elems(
    cm: CacheModel,
    eids: Seq<u64>,
    avail: Set<u64>,
    valid_rv: Set<Seq<char>>,
    src: Seq<u64>,
    n: int,
)
    requires
        0 <= n <= src.len(),
    ensures
        forall|x: u64| #[trigger]
            filter_repos(cm, eids, avail, valid_rv, src, n).contains(x) <==> (src.take(n).contains(
                x,
            ) && repo_passes(cm, eids, avail, valid_rv, x)),
    decreases n,
{
    if n > 0 {
        lemma_filter_repos_elems(cm, eids, avail, valid_rv, src, n - 1);
        if n - 1 < src.len() {
            crate::tables::lemma_take_step(src, n - 1);
        }
        let pre = filter_repos(cm, eids, avail, valid_rv, src, n - 1);
        let cur = filter_repos(cm, eids, avail, valid_rv, src, n);
        assert forall|x: u64| #[trigger]
            cur.contains(x) implies (src.take(n).contains(x) && repo_passes(
            cm,
            eids,
            avail,
            valid_rv,
            x,
        )) by {
            if pre.contains(x) {
                assert(src.take(n - 1).contains(x));
                assert(src.take((n - 1) + 1).contains(x));
                assert(src.take(n).contains(x));
            } else {
                if repo_passes(cm, eids, avail, valid_rv, src[n - 1]) && !pre.contains(
                    src[n - 1],
                ) {
                    let u = choose|u: int| 0 <= u < cur.len() && cur[u] == x;
                    if u < pre.len() {
                        assert(pre[u] == x);
                    } else {
                        assert(x == src[n - 1]);
                        assert(src.take(n)[n - 1] == x);
                        assert(src.take(n).contains(x));
                    }
                } else {
                    assert(cur == pre);
                }
            }
        }
        assert forall|x: u64|
            src.take(n).contains(x) && repo_passes(cm, eids, avail, valid_rv, x) implies #[trigger]
            cur.contains(x) by {
            if src.take(n - 1).contains(x) {
                assert(pre.contains(x));
                if repo_passes(cm, eids, avail, valid_rv, src[n - 1]) && !pre.contains(
                    src[n - 1],
                ) {
                    let u = choose|u: int| 0 <= u < pre.len() && pre[u] == x;
                    assert(cur[u] == x);
                }
            } else {
                assert(x == src[n - 1]);
                if pre.contains(x) {
                } else {
                    assert(cur[cur.len() - 1] == x);
                }
            }
        }
    }
}

/// Whether a vector holds a value.
fn vec_contains(v: &Vec<u64>, x: u64) -> (r: bool)
    ensures
        r == v@.contains(x),
{
    let n = v.len();
    let mut i: usize = 0;
    while i < n
        invariant
            0 <= i <= n,
            n == v@.len(),
            forall|j: int| 0 <= j < i ==> v@[j] != x,
        decreases n - i,
    {
        if v[i] == x {
            proof {
                assert(v@[i as int] == x);
            }
            return true;
        }
        i = i + 1;
    }
    proof {
        if v@.contains(x) {
            let u = choose|u: int| 0 <= u < v@.len() && v@[u] == x;
        }
    }
    false
}

/// The union of the repositories carried by the given errata.
fn union_errata_repos(cache: &Cache, errata_ids: &Vec<u64>) -> (r: IdSet)
    requires
        forall|i: int|
            0 <= i < errata_ids@.len() ==> cache.model().errataid_to_repoids.contains_key(
                #[trigger] errata_ids@[i],
            ),
    ensures
        r.inv(),
        forall|id: u64| #[trigger]
            r@.contains(id) <==> errata_repo_set(cache.model(), errata_ids@, id),
{
    let mut out = IdSet::new();
    let n = errata_ids.len();
    let mut i: usize = 0;
    while i < n
        invariant
            0 <= i <= n,
            n == errata_ids@.len(),
            out.inv(),
            forall|j: int|
                0 <= j < n ==> cache.model().errataid_to_repoids.contains_key(
                    #[trigger] errata_ids@[j],
                ),
            forall|id: u64| #[trigger]
                out@.contains(id) <==> errata_repo_set(
                    cache.model(),
                    errata_ids@.take(i as int),
                    id,
                ),
        decreases n - i,
    {
        let e = errata_ids[i];
        let rs = match cache.errataid_to_repoids.get(e) {
            Some(rs) => rs,
            None => {
                proof {
                    assert(cache.model().errataid_to_repoids.contains_key(errata_ids@[i as int]));
                }
                vstd::pervasive::unreached()
            },
        };
        let ghost prev = out@;
        let m = rs.len();
        let mut t: usize = 0;
        while t < m
            invariant
                0 <= t <= m,
                0 <= i < n,
                n == errata_ids@.len(),
                m == rs@.len(),
                out.inv(),
                cache.model().errataid_to_repoids.contains_key(errata_ids@[i as int]),
                cache.model().errataid_to_repoids[errata_ids@[i as int]] == rs@,
                forall|id: u64| #[trigger]
                    out@.contains(id) <==> (prev.contains(id) || rs@.take(t as int).contains(id)),
            decreases m - t,
        {
            out.insert(rs[t]);
            proof {
                crate::tables::lemma_take_step(rs@, t as int);
                assert(rs@[t as int] == rs@.take(t + 1).last());
            }
            t = t + 1;
        }
        proof {
            let cm = cache.model();
            assert(rs@.take(m as int) =~= rs@);
            crate::tables::lemma_take_step(errata_ids@, i as int);
            assert forall|id: u64| #[trigger] out@.contains(id) implies errata_repo_set(
                cm,
                errata_ids@.take(i as int + 1),
                id,
            ) by {
                if prev.contains(id) {
                    let j = choose|j: int|
                        0 <= j < errata_ids@.take(i as int).len()
                            && cm.errataid_to_repoids[#[trigger] errata_ids@.take(i as int)[j]].contains(
                            id,
                        );
                    assert(errata_ids@.take(i as int + 1)[j] == errata_ids@.take(i as int)[j]);
                } else {
                    assert(rs@.contains(id));
                    assert(errata_ids@.take(i as int + 1)[i as int] == errata_ids@[i as int]);
                }
            }
            assert forall|id: u64|
                errata_repo_set(cm, errata_ids@.take(i as int + 1), id) implies #[trigger]
                out@.contains(id) by {
                let j = choose|j: int|
                    0 <= j < errata_ids@.take(i as int + 1).len()
                        && cm.errataid_to_repoids[#[trigger] errata_ids@.take(i as int + 1)[j]].contains(
                        id,
                    );
                if j < i {
                    assert(errata_ids@.take(i as int)[j] == errata_ids@.take(i as int + 1)[j]);
                    assert(prev.contains(id));
                } else {
                    assert(errata_ids@.take(i as int + 1)[j] == errata_ids@[i as int]);
                    assert(rs@.contains(id));
                }
            }
        }
        i = i + 1;
    }
    proof {
        assert(errata_ids@.take(n as int) =~= errata_ids@);
    }
    out
}

impl UpdatesApi {
    /// The repositories through which one candidate build's errata may
    /// supply it: the build's repositories that carry one of the errata,
    /// lie in the request scope and declare a valid release version.
    pub fn get_repositories(
        cache: &Cache,
        product_ids: &IdSet,
        update_pkg_id: u64,
        errata_ids: &Vec<u64>,
        available_repo_ids: &IdSet,
        valid_releasevers: &StrSet,
    ) -> (r: IdSet)
        requires
            engine_wf(cache.model()),
            cache.model().pkgid_to_repoids.contains_key(update_pkg_id),
            forall|i: int|
                0 <= i < errata_ids@.len() ==> cache.model().errataid_to_repoids.contains_key(
                    #[trigger] errata_ids@[i],
                ),
            forall|id: u64| #[trigger]
                available_repo_ids@.contains(id) ==> cache.model().repo_detail.contains_key(id),
        ensures
            r.inv(),
            r.seq() == filter_repos(
                cache.model(),
                errata_ids@,
                available_repo_ids@,
                valid_releasevers@,
                cache.model().pkgid_to_repoids[update_pkg_id],
                cache.model().pkgid_to_repoids[update_pkg_id].len() as int,
            ),
    {
        let eset = union_errata_repos(cache, errata_ids);
        let src = match cache.pkgid_to_repoids.get(update_pkg_id) {
            Some(v) => v,
            None => vstd::pervasive::unreached(),
        };
        let ghost cm = cache.model();
        let ghost srcs = cm.pkgid_to_repoids[update_pkg_id];
        proof {
            assert(srcs == src@);
        }
        let mut out = IdSet::new();
        let n = src.len();
        let mut i: usize = 0;
        while i < n
            invariant
                0 <= i <= n,
                n == src@.len(),
                cm == cache.model(),
                srcs == src@,
                out.inv(),
                eset.inv(),
                forall|id: u64| #[trigger] eset@.contains(id) <==> errata_repo_set(cm, errata_ids@, id),
                forall|id: u64| #[trigger]
                    available_repo_ids@.contains(id) ==> cm.repo_detail.contains_key(id),
                out.seq() == filter_repos(
                    cm,
                    errata_ids@,
                    available_repo_ids@,
                    valid_releasevers@,
                    srcs,
                    i as int,
                ),
            decreases n - i,
        {
            let id = src[i];
            let mut keep = false;
            if eset.contains(id) {
                if available_repo_ids.contains(id) {
                    let rd = match cache.repo_detail.get(id) {
                        Some(rd) => rd,
                        None => vstd::pervasive::unreached(),
                    };
                    keep = match &rd.releasever {
                        Some(rv) => valid_releasevers.contains(rv),
                        None => {
                            let empty = String::new();
                            valid_releasevers.contains(&empty)
                        },
                    };
                    proof {
                        assert(keep == rv_ok(cm, valid_releasevers@, id));
                    }
                }
            }
            proof {
                assert(keep == repo_passes(
                    cm,
                    errata_ids@,
                    available_repo_ids@,
                    valid_releasevers@,
                    id,
                ));
                out.lemma_view_members();
            }
            if keep {
                out.insert(id);
            }
            i = i + 1;
        }
        out
    }
}

/// The first anchor candidate from position `i` of the index list whose
/// build carries exactly the requested architecture.
pub open spec fn anchor_from(
    cm: CacheModel,
    chain: Seq<u64>,
    idxs: Seq<u64>,
    arch_id: u64,
    i: int,
) -> Option<u64>
    decreases idxs.len() - i,
{
    if i < 0 || i >= idxs.len() {
        None
    } else {
        let pkg = chain[idxs[i] as int];
        if cm.pkg_details[pkg].arch_id == arch_id {
            Some(pkg)
        } else {
            anchor_from(cm, chain, idxs, arch_id, i + 1)
        }
    }
}

/// One emitted update record: the candidate's identity, the erratum's name
/// and the carrying repository's label, base architecture and release
/// version.
pub open spec fn update_of(cm: CacheModel, nev: NevraModel, e: u64, rid: u64) -> PkgUpdateModel {
    PkgUpdateModel {
        package: nev,
        erratum: cm.errataid_to_name[e],
        repository: Some(cm.repo_detail[rid].label),
        basearch: cm.repo_detail[rid].basearch,
        releasever: cm.repo_detail[rid].releasever,
    }
}

/// One record per repository id, in order.
pub open spec fn updates_of_repos(
    cm: CacheModel,
    nev: NevraModel,
    e: u64,
    rids: Seq<u64>,
) -> Seq<PkgUpdateModel>
    decreases rids.len(),
{
    if rids.len() == 0 {
        Seq::empty()
    } else {
        updates_of_repos(cm, nev, e, rids.drop_last()).push(update_of(cm, nev, e, rids.last()))
    }
}

/// The records emitted for one candidate build over its first `n` errata,
/// in erratum order, one per surviving repository.
pub open spec fn emits_for_errata(
    cm: CacheModel,
    avail: Set<u64>,
    valid_rv: Set<Seq<char>>,
    u: u64,
    nev: NevraModel,
    eids: Seq<u64>,
    n: int,
) -> Seq<PkgUpdateModel>
    decreases n,
{
    if n <= 0 {
        Seq::empty()
    } else {
        emits_for_errata(cm, avail, valid_rv, u, nev, eids, n - 1) + updates_of_repos(
            cm,
            nev,
            eids[n - 1],
            filter_repos(
                cm,
                seq![eids[n - 1]],
                avail,
                valid_rv,
                cm.pkgid_to_repoids[u],
                cm.pkgid_to_repoids[u].len() as int,
            ),
        )
    }
}

/// A chain member is an update candidate if it carries errata and its
/// architecture equals the requested one or is compatible with it.
pub open spec fn cand_ok(cm: CacheModel, arch_id: u64, u: u64) -> bool {
    cm.pkgid_to_errataids.contains_key(u) && (cm.pkg_details[u].arch_id == arch_id
        || cm.arch_compat[arch_id].contains(cm.pkg_details[u].arch_id))
}

/// The records emitted for the first `n` candidates after `start` in the
/// update chain, in chain order.
pub open spec fn emits_for_candidates(
    cm: CacheModel,
    avail: Set<u64>,
    valid_rv: Set<Seq<char>>,
    arch_id: u64,
    chain: Seq<u64>,
    start: int,
    n: int,
) -> Seq<PkgUpdateModel>
    decreases n,
{
    if n <= 0 {
        Seq::empty()
    } else {
        let pre = emits_for_candidates(cm, avail, valid_rv, arch_id, chain, start, n - 1);
        let u = chain[start + n - 1];
        if cand_ok(cm, arch_id, u) {
            pre + emits_for_errata(
                cm,
                avail,
                valid_rv,
                u,
                built_nevra(cm, u),
                cm.pkgid_to_errataids[u],
                cm.pkgid_to_errataids[u].len() as int,
            )
        } else {
            pre
        }
    }
}

/// The repositories carrying the anchor build; empty when the anchor has
/// no repository row.
pub open spec fn origin_set(cm: CacheModel, anchor: u64) -> Set<u64> {
    Set::new(
        |id: u64|
            cm.pkgid_to_repoids.contains_key(anchor) && cm.pkgid_to_repoids[anchor].contains(id),
    )
}

/// The release versions valid for the anchor: those its repositories
/// declare.
pub open spec fn valid_rv_set(cm: CacheModel, anchor: u64) -> Set<Seq<char>> {
    Set::new(|rv: Seq<char>| releasever_of(cm, origin_set(cm, anchor), rv))
}

/// The answer for one requested package: no entry when its name is not
/// indexed, its version is unknown, or no build of it carries the
/// requested architecture; an error when the architecture itself is
/// unknown; otherwise the anchor's metadata and, unless the anchor is the
/// newest build of its name, the records of every candidate after the
/// last position sharing the anchor's version.
pub open spec fn resolve_package(cm: CacheModel, avail: Set<u64>, m: NevraModel) -> Result<
    Option<UpdatesPkgDetailModel>,
    CoreError,
> {
    if !cm.name_to_id.contains_key(m.name) {
        Ok(None)
    } else {
        let name_id = cm.name_to_id[m.name];
        if !cm.arch_to_id.contains_key(m.arch) {
            Err(CoreError::ArchNotFound)
        } else {
            let arch_id = cm.arch_to_id[m.arch];
            let evr = evr_of(m);
            let idxs = if cm.evr_to_id.contains_key(evr) && cm.updates_index[name_id].contains_key(
                cm.evr_to_id[evr],
            ) {
                cm.updates_index[name_id][cm.evr_to_id[evr]]
            } else {
                Seq::empty()
            };
            if idxs.len() == 0 {
                Ok(None)
            } else {
                let chain = cm.updates[name_id];
                match anchor_from(cm, chain, idxs, arch_id, 0) {
                    None => Ok(None),
                    Some(anchor) => {
                        let summary = cm.pkg_details[anchor].summary;
                        let description = cm.pkg_details[anchor].desc;
                        if chain.len() > 0 && chain.last() == anchor {
                            Ok(
                                Some(
                                    UpdatesPkgDetailModel {
                                        summary,
                                        description,
                                        available_updates: Seq::empty(),
                                    },
                                ),
                            )
                        } else {
                            let start = idxs.last() + 1;
                            Ok(
                                Some(
                                    UpdatesPkgDetailModel {
                                        summary,
                                        description,
                                        available_updates: emits_for_candidates(
                                            cm,
                                            avail,
                                            valid_rv_set(cm, anchor),
                                            arch_id,
                                            chain,
                                            start as int,
                                            chain.len() - start,
                                        ),
                                    },
                                ),
                            )
                        }
                    },
                }
            }
        }
    }
}

/// Builds the emitted records for one candidate and one erratum.
fn emit_for_erratum(
    cache: &Cache,
    nev: &Nevra,
    u: u64,
    e: u64,
    product_ids: &IdSet,
    avail: &IdSet,
    valid_rv: &StrSet,
) -> (r: Vec<PkgUpdate>)
    requires
        engine_wf(cache.model()),
        cache.model().pkgid_to_repoids.contains_key(u),
        cache.model().errataid_to_repoids.contains_key(e),
        cache.model().errataid_to_name.contains_key(e),
        forall|id: u64| #[trigger]
            avail@.contains(id) ==> cache.model().repo_detail.contains_key(id),
    ensures
        r@.map_values(|x: PkgUpdate| x@) == updates_of_repos(
            cache.model(),
            nev@,
            e,
            filter_repos(
                cache.model(),
                seq![e],
                avail@,
                valid_rv@,
                cache.model().pkgid_to_repoids[u],
                cache.model().pkgid_to_repoids[u].len() as int,
            ),
        ),
{
    let ghost cm = cache.model();
    let mut one: Vec<u64> = Vec::new();
    one.push(e);
    proof {
        assert(one@ =~= seq![e]);
    }
    let rep = UpdatesApi::get_repositories(cache, product_ids, u, &one, avail, valid_rv);
    let ghost reps = rep.seq();
    proof {
        lemma_filter_repos_elems(
            cm,
            seq![e],
            avail@,
            valid_rv@,
            cm.pkgid_to_repoids[u],
            cm.pkgid_to_repoids[u].len() as int,
        );
    }
    proof {
        assert forall|j: int| 0 <= j < reps.len() implies repo_passes(
            cm,
            seq![e],
            avail@,
            valid_rv@,
            #[trigger] reps[j],
        ) by {
            assert(reps.contains(reps[j]));
        }
    }
    let src = rep.vec();
    let mut out: Vec<PkgUpdate> = Vec::new();
    let n = src.len();
    let mut i: usize = 0;
    while i < n
        invariant
            0 <= i <= n,
            n == src@.len(),
            cm == cache.model(),
            src@ == reps,
            engine_wf(cm),
            cm.errataid_to_name.contains_key(e),
            forall|id: u64| #[trigger] avail@.contains(id) ==> cm.repo_detail.contains_key(id),
            forall|j: int|
                0 <= j < reps.len() ==> repo_passes(cm, seq![e], avail@, valid_rv@, #[trigger] reps[j]),
            out@.map_values(|x: PkgUpdate| x@) == updates_of_repos(cm, nev@, e, reps.take(i as int)),
        decreases n - i,
    {
        let rid = src[i];
        proof {
            assert(reps[i as int] == rid);
            assert(repo_passes(cm, seq![e], avail@, valid_rv@, rid));
        }
        let rd = match cache.repo_detail.get(rid) {
            Some(rd) => rd,
            None => vstd::pervasive::unreached(),
        };
        let ename = match cache.errataid_to_name.get(e) {
            Some(s) => s.clone(),
            None => vstd::pervasive::unreached(),
        };
        let upd = PkgUpdate {
            package: nev.clone(),
            erratum: ename,
            repository: Some(rd.label.clone()),
            basearch: clone_opt_string(&rd.basearch),
            releasever: clone_opt_string(&rd.releasever),
        };
        proof {
            assert(upd@.package == update_of(cm, nev@, e, rid).package);
            assert(upd@.erratum == update_of(cm, nev@, e, rid).erratum);
            assert(upd@.repository == update_of(cm, nev@, e, rid).repository);
            assert(upd@.basearch == update_of(cm, nev@, e, rid).basearch);
            assert(upd@.releasever == update_of(cm, nev@, e, rid).releasever);
            assert(upd@ == update_of(cm, nev@, e, rid));
        }
        out.push(upd);
        proof {
            assert(reps.take(i + 1).drop_last() =~= reps.take(i as int));
            assert(reps.take(i + 1).last() == rid);
            assert(out@.map_values(|x: PkgUpdate| x@) =~= updates_of_repos(
                cm,
                nev@,
                e,
                reps.take(i + 1),
            ));
        }
        i = i + 1;
    }
    proof {
        assert(reps.take(n as int) =~= reps);
    }
    out
}

/// Builds the emitted records for one candidate build over all its errata.
fn emit_candidate(
    cache: &Cache,
    nev: &Nevra,
    u: u64,
    eids: &Vec<u64>,
    product_ids: &IdSet,
    avail: &IdSet,
    valid_rv: &StrSet,
) -> (r: Vec<PkgUpdate>)
    requires
        engine_wf(cache.model()),
        cache.model().pkgid_to_errataids.contains_key(u),
        eids@ == cache.model().pkgid_to_errataids[u],
        forall|id: u64| #[trigger]
            avail@.contains(id) ==> cache.model().repo_detail.contains_key(id),
    ensures
        r@.map_values(|x: PkgUpdate| x@) == emits_for_errata(
            cache.model(),
            avail@,
            valid_rv@,
            u,
            nev@,
            eids@,
            eids@.len() as int,
        ),
{
    let ghost cm = cache.model();
    let mut out: Vec<PkgUpdate> = Vec::new();
    let n = eids.len();
    let mut k: usize = 0;
    proof {
        assert(out@.map_values(|x: PkgUpdate| x@) =~= emits_for_errata(
            cm,
            avail@,
            valid_rv@,
            u,
            nev@,
            eids@,
            0,
        ));
    }
    while k < n
        invariant
            0 <= k <= n,
            n == eids@.len(),
            cm == cache.model(),
            engine_wf(cm),
            cm.pkgid_to_errataids.contains_key(u),
            eids@ == cm.pkgid_to_errataids[u],
            forall|id: u64| #[trigger] avail@.contains(id) ==> cm.repo_detail.contains_key(id),
            out@.map_values(|x: PkgUpdate| x@) == emits_for_errata(
                cm,
                avail@,
                valid_rv@,
                u,
                nev@,
                eids@,
                k as int,
            ),
        decreases n - k,
    {
        let e = eids[k];
        proof {
            assert(cm.pkgid_to_errataids[u][k as int] == e);
            assert(cm.errataid_to_repoids.contains_key(e) && cm.errataid_to_name.contains_key(e));
        }
        let mut part = emit_for_erratum(cache, nev, u, e, product_ids, avail, valid_rv);
        let ghost out_pre = out@;
        let ghost part_s = part@;
        out.append(&mut part);
        proof {
            assert(out@.map_values(|x: PkgUpdate| x@) =~= out_pre.map_values(|x: PkgUpdate| x@)
                + part_s.map_values(|x: PkgUpdate| x@));
            assert(out@.map_values(|x: PkgUpdate| x@) =~= emits_for_errata(
                cm,
                avail@,
                valid_rv@,
                u,
                nev@,
                eids@,
                k as int + 1,
            ));
        }
        k = k + 1;
    }
    out
}

/// Whether every listed id is below the bound.
fn all_below(list: &Vec<u64>, bound: u64) -> (r: bool)
    ensures
        r ==> forall|i: int| 0 <= i < list@.len() ==> (#[trigger] list@[i]) < bound,
{
    let n = list.len();
    let mut i: usize = 0;
    while i < n
        invariant
            0 <= i <= n,
            n == list@.len(),
            forall|j: int| 0 <= j < i ==> (#[trigger] list@[j]) < bound,
        decreases n - i,
    {
        if list[i] >= bound {
            return false;
        }
        i = i + 1;
    }
    true
}

/// Whether every listed id is a key of the map.
fn all_keys_in<V>(list: &Vec<u64>, m: &crate::tables::IdMap<V>) -> (r: bool)
    ensures
        r ==> forall|i: int| 0 <= i < list@.len() ==> m@.contains_key(#[trigger] list@[i]),
{
    let n = list.len();
    let mut i: usize = 0;
    while i < n
        invariant
            0 <= i <= n,
            n == list@.len(),
            forall|j: int| 0 <= j < i ==> m@.contains_key(#[trigger] list@[j]),
        decreases n - i,
    {
        if !m.contains_key(list[i]) {
            return false;
        }
        i = i + 1;
    }
    true
}

/// Whether every position list of one name's index stays below the bound.
fn chk_index_entry(ui: &crate::cache::UpdatesIndex, chain_len: u64) -> (r: bool)
    ensures
        r ==> forall|e: u64, i: int|
            #![trigger ui@[e][i]]
            ui@.contains_key(e) && 0 <= i < ui@[e].len() ==> (ui@[e][i] as int) < chain_len,
{
    let ekeys = ui.data.keys();
    let n = ekeys.len();
    let mut s: usize = 0;
    while s < n
        invariant
            0 <= s <= n,
            n == ekeys@.len(),
            ekeys@.no_duplicates(),
            forall|k: u64| ekeys@.contains(k) <==> ui.data@.contains_key(k),
            forall|j: int, i: int|
                #![trigger ui@[ekeys@[j]][i]]
                0 <= j < s && 0 <= i < ui@[ekeys@[j]].len() ==> (ui@[ekeys@[j]][i] as int)
                    < chain_len,
        decreases n - s,
    {
        let e = ekeys[s];
        proof {
            assert(ekeys@[s as int] == e);
            assert(ekeys@.contains(e));
        }
        let list = match ui.data.get(e) {
            Some(l) => l,
            None => vstd::pervasive::unreached(),
        };
        if !all_below(list, chain_len) {
            return false;
        }
        proof {
            assert(ui@[e] == list@);
        }
        s = s + 1;
    }
    proof {
        assert forall|e: u64, i: int|
            #![trigger ui@[e][i]]
            ui@.contains_key(e) && 0 <= i < ui@[e].len() implies (ui@[e][i] as int)
            < chain_len by {
            assert(ekeys@.contains(e));
            let j = choose|j: int| 0 <= j < ekeys@.len() && ekeys@[j] == e;
            assert((ui@[ekeys@[j]][i] as int) < chain_len);
        }
    }
    true
}

/// Checks the closed-world conditions the engine relies on; a true answer
/// guarantees them all.
pub fn check_wf(cache: &Cache) -> (r: bool)
    ensures
        r ==> engine_wf(cache.model()),
{
    let ghost cm = cache.model();
    // indexed names have chains, with positions inside them
    let ikeys = cache.updates_index.keys();
    let n1 = ikeys.len();
    let mut t: usize = 0;
    while t < n1
        invariant
            0 <= t <= n1,
            cm == cache.model(),
            n1 == ikeys@.len(),
            forall|k: u64| ikeys@.contains(k) <==> cache.updates_index@.contains_key(k),
            forall|j: int|
                0 <= j < t ==> cm.updates.contains_key(#[trigger] ikeys@[j]),
            forall|j: int, e: u64, i: int|
                #![trigger cm.updates_index[ikeys@[j]][e][i]]
                0 <= j < t && cm.updates_index[ikeys@[j]].contains_key(e) && 0 <= i
                    < cm.updates_index[ikeys@[j]][e].len() ==> (cm.updates_index[ikeys@[j]][e][i] as int)
                    < cm.updates[ikeys@[j]].len(),
        decreases n1 - t,
    {
        let nk = ikeys[t];
        proof {
            assert(ikeys@[t as int] == nk);
            assert(ikeys@.contains(nk));
        }
        let ui = match cache.updates_index.get(nk) {
            Some(u) => u,
            None => vstd::pervasive::unreached(),
        };
        let chain = match cache.updates.get(nk) {
            Some(c) => c,
            None => {
                return false;
            },
        };
        if !chk_index_entry(ui, chain.len() as u64) {
            return false;
        }
        proof {
            assert(cm.updates_index[nk] == ui@);
            assert(cm.updates[nk] == chain@);
        }
        t = t + 1;
    }
    proof {
        assert forall|n: u64| #[trigger]
            cm.updates_index.contains_key(n) implies cm.updates.contains_key(n) by {
            assert(ikeys@.contains(n));
            let j = choose|j: int| 0 <= j < ikeys@.len() && ikeys@[j] == n;
            assert(cm.updates.contains_key(ikeys@[j]));
        }
        assert forall|n: u64, e: u64, i: int|
            #![trigger cm.updates_index[n][e][i]]
            cm.updates_index.contains_key(n) && cm.updates_index[n].contains_key(e) && 0 <= i
                < cm.updates_index[n][e].len() implies (cm.updates_index[n][e][i] as int)
            < cm.updates[n].len() by {
            assert(ikeys@.contains(n));
            let j = choose|j: int| 0 <= j < ikeys@.len() && ikeys@[j] == n;
            assert((cm.updates_index[ikeys@[j]][e][i] as int) < cm.updates[ikeys@[j]].len());
        }
    }
    // chain members are known builds
    let ukeys = cache.updates.keys();
    let n2 = ukeys.len();
    let mut t2: usize = 0;
    while t2 < n2
        invariant
            0 <= t2 <= n2,
            cm == cache.model(),
            n2 == ukeys@.len(),
            forall|k: u64| ukeys@.contains(k) <==> cache.updates@.contains_key(k),
            forall|j: int, i: int|
                #![trigger cm.updates[ukeys@[j]][i]]
                0 <= j < t2 && 0 <= i < cm.updates[ukeys@[j]].len()
                    ==> cm.pkg_details.contains_key(cm.updates[ukeys@[j]][i]),
        decreases n2 - t2,
    {
        let nk = ukeys[t2];
        proof {
            assert(ukeys@[t2 as int] == nk);
            assert(ukeys@.contains(nk));
        }
        let chain = match cache.updates.get(nk) {
            Some(c) => c,
            None => vstd::pervasive::unreached(),
        };
        if !all_keys_in(chain, &cache.pkg_details) {
            return false;
        }
        proof {
            assert(cm.updates[nk] == chain@);
        }
        t2 = t2 + 1;
    }
    proof {
        assert forall|n: u64, i: int|
            #![trigger cm.updates[n][i]]
            cm.updates.contains_key(n) && 0 <= i < cm.updates[n].len() implies cm.pkg_details.contains_key(
            cm.updates[n][i],
        ) by {
            assert(ukeys@.contains(n));
            let j = choose|j: int| 0 <= j < ukeys@.len() && ukeys@[j] == n;
            assert(cm.pkg_details.contains_key(cm.updates[ukeys@[j]][i]));
        }
    }
    // a build's name, evr and arch ids are interned
    let pkeys = cache.pkg_details.keys();
    let n3 = pkeys.len();
    let mut t3: usize = 0;
    while t3 < n3
        invariant
            0 <= t3 <= n3,
            cm == cache.model(),
            n3 == pkeys@.len(),
            forall|k: u64| pkeys@.contains(k) <==> cache.pkg_details@.contains_key(k),
            forall|j: int|
                0 <= j < t3 ==> {
                    let p = #[trigger] pkeys@[j];
                    cm.id_to_name.contains_key(cm.pkg_details[p].name_id)
                        && cm.id_to_evr.contains_key(cm.pkg_details[p].evr_id)
                        && cm.id_to_arch.contains_key(cm.pkg_details[p].arch_id)
                },
        decreases n3 - t3,
    {
        let pk = pkeys[t3];
        proof {
            assert(pkeys@[t3 as int] == pk);
            assert(pkeys@.contains(pk));
        }
        let pd = match cache.pkg_details.get(pk) {
            Some(p) => p,
            None => vstd::pervasive::unreached(),
        };
        if !cache.id_to_name.contains_key(pd.name_id) {
            return false;
        }
        if !cache.id_to_evr.contains_key(pd.evr_id) {
            return false;
        }
        if !cache.id_to_arch.contains_key(pd.arch_id) {
            return false;
        }
        t3 = t3 + 1;
    }
    proof {
        assert forall|p: u64| #[trigger]
            cm.pkg_details.contains_key(p) implies cm.id_to_name.contains_key(
            cm.pkg_details[p].name_id,
        ) && cm.id_to_evr.contains_key(cm.pkg_details[p].evr_id) && cm.id_to_arch.contains_key(
            cm.pkg_details[p].arch_id,
        ) by {
            assert(pkeys@.contains(p));
            let j = choose|j: int| 0 <= j < pkeys@.len() && pkeys@[j] == p;
            assert(pkeys@[j] == p);
        }
    }
    // every known architecture has a compatibility row
    let alen = cache.arch_to_id.entry_len();
    let mut t4: usize = 0;
    while t4 < alen
        invariant
            0 <= t4 <= alen,
            cm == cache.model(),
            alen == cache.arch_to_id.entry_seq().len(),
            forall|j: int|
                0 <= j < t4 ==> cm.arch_compat.contains_key(
                    (#[trigger] cache.arch_to_id.entry_seq()[j]).1,
                ),
        decreases alen - t4,
    {
        let aid = cache.arch_to_id.entry_at(t4).1;
        if !cache.arch_compat.contains_key(aid) {
            return false;
        }
        t4 = t4 + 1;
    }
    proof {
        cache.arch_to_id.lemma_entry_vals();
        assert forall|a: Seq<char>| #[trigger]
            cm.arch_to_id.contains_key(a) implies cm.arch_compat.contains_key(
            cm.arch_to_id[a],
        ) by {
            let i = choose|i: int|
                0 <= i < cache.arch_to_id.entry_seq().len() && (
                #[trigger] cache.arch_to_id.entry_seq()[i]).0@ == a
                    && cache.arch_to_id.entry_seq()[i].1 == cache.arch_to_id@[a];
            assert(cm.arch_compat.contains_key(cache.arch_to_id.entry_seq()[i].1));
        }
    }
    // builds with errata have repository rows; their errata have rows too
    let ekeys = cache.pkgid_to_errataids.keys();
    let n5 = ekeys.len();
    let mut t5: usize = 0;
    while t5 < n5
        invariant
            0 <= t5 <= n5,
            cm == cache.model(),
            n5 == ekeys@.len(),
            forall|k: u64| ekeys@.contains(k) <==> cache.pkgid_to_errataids@.contains_key(k),
            forall|j: int|
                0 <= j < t5 ==> cm.pkgid_to_repoids.contains_key(#[trigger] ekeys@[j]),
            forall|j: int, i: int|
                #![trigger cm.pkgid_to_errataids[ekeys@[j]][i]]
                0 <= j < t5 && 0 <= i < cm.pkgid_to_errataids[ekeys@[j]].len()
                    ==> cm.errataid_to_repoids.contains_key(cm.pkgid_to_errataids[ekeys@[j]][i])
                    && cm.errataid_to_name.contains_key(cm.pkgid_to_errataids[ekeys@[j]][i]),
        decreases n5 - t5,
    {
        let pk = ekeys[t5];
        proof {
            assert(ekeys@[t5 as int] == pk);
            assert(ekeys@.contains(pk));
        }
        if !cache.pkgid_to_repoids.contains_key(pk) {
            return false;
        }
        let list = match cache.pkgid_to_errataids.get(pk) {
            Some(l) => l,
            None => vstd::pervasive::unreached(),
        };
        if !all_keys_in(list, &cache.errataid_to_repoids) {
            return false;
        }
        if !all_keys_in(list, &cache.errataid_to_name) {
            return false;
        }
        proof {
            assert(cm.pkgid_to_errataids[pk] == list@);
        }
        t5 = t5 + 1;
    }
    proof {
        assert forall|p: u64| #[trigger]
            cm.pkgid_to_errataids.contains_key(p) implies cm.pkgid_to_repoids.contains_key(p) by {
            assert(ekeys@.contains(p));
            let j = choose|j: int| 0 <= j < ekeys@.len() && ekeys@[j] == p;
            assert(cm.pkgid_to_repoids.contains_key(ekeys@[j]));
        }
        assert forall|p: u64, i: int|
            #![trigger cm.pkgid_to_errataids[p][i]]
            cm.pkgid_to_errataids.contains_key(p) && 0 <= i < cm.pkgid_to_errataids[p].len() implies
            cm.errataid_to_repoids.contains_key(cm.pkgid_to_errataids[p][i])
                && cm.errataid_to_name.contains_key(cm.pkgid_to_errataids[p][i]) by {
            assert(ekeys@.contains(p));
            let j = choose|j: int| 0 <= j < ekeys@.len() && ekeys@[j] == p;
            assert(cm.errataid_to_repoids.contains_key(cm.pkgid_to_errataids[ekeys@[j]][i])
                && cm.errataid_to_name.contains_key(cm.pkgid_to_errataids[ekeys@[j]][i]));
        }
    }
    // labelled repositories have detail rows
    let llen = cache.repolabel_to_ids.entry_len();
    let mut t6: usize = 0;
    while t6 < llen
        invariant
            0 <= t6 <= llen,
            cm == cache.model(),
            llen == cache.repolabel_to_ids.entry_seq().len(),
            forall|j: int, i: int|
                #![trigger cache.repolabel_to_ids.entry_seq()[j].1@[i]]
                0 <= j < t6 && 0 <= i < cache.repolabel_to_ids.entry_seq()[j].1@.len()
                    ==> cm.repo_detail.contains_key(cache.repolabel_to_ids.entry_seq()[j].1@[i]),
        decreases llen - t6,
    {
        let list = &cache.repolabel_to_ids.entry_at(t6).1;
        if !all_keys_in(list, &cache.repo_detail) {
            return false;
        }
        t6 = t6 + 1;
    }
    proof {
        cache.repolabel_to_ids.lemma_entry_vals();
        assert forall|l: Seq<char>, i: int|
            #![trigger cm.repolabel_to_ids[l][i]]
            cm.repolabel_to_ids.contains_key(l) && 0 <= i < cm.repolabel_to_ids[l].len() implies
            cm.repo_detail.contains_key(cm.repolabel_to_ids[l][i]) by {
            let j = choose|j: int|
                0 <= j < cache.repolabel_to_ids.entry_seq().len() && (
                #[trigger] cache.repolabel_to_ids.entry_seq()[j]).0@ == l
                    && cache.repolabel_to_ids.entry_seq()[j].1 == cache.repolabel_to_ids@[l];
            assert(cm.repolabel_to_ids[l] == cache.repolabel_to_ids.entry_seq()[j].1@);
            assert(cm.repo_detail.contains_key(cache.repolabel_to_ids.entry_seq()[j].1@[i]));
        }
    }
    // a build's repositories have detail rows
    let rkeys = cache.pkgid_to_repoids.keys();
    let n7 = rkeys.len();
    let mut t7: usize = 0;
    while t7 < n7
        invariant
            0 <= t7 <= n7,
            cm == cache.model(),
            n7 == rkeys@.len(),
            forall|k: u64| rkeys@.contains(k) <==> cache.pkgid_to_repoids@.contains_key(k),
            forall|j: int, i: int|
                #![trigger cm.pkgid_to_repoids[rkeys@[j]][i]]
                0 <= j < t7 && 0 <= i < cm.pkgid_to_repoids[rkeys@[j]].len()
                    ==> cm.repo_detail.contains_key(cm.pkgid_to_repoids[rkeys@[j]][i]),
        decreases n7 - t7,
    {
        let pk = rkeys[t7];
        proof {
            assert(rkeys@[t7 as int] == pk);
            assert(rkeys@.contains(pk));
        }
        let list = match cache.pkgid_to_repoids.get(pk) {
            Some(l) => l,
            None => vstd::pervasive::unreached(),
        };
        if !all_keys_in(list, &cache.repo_detail) {
            return false;
        }
        proof {
            assert(cm.pkgid_to_repoids[pk] == list@);
        }
        t7 = t7 + 1;
    }
    proof {
        assert forall|p: u64, i: int|
            #![trigger cm.pkgid_to_repoids[p][i]]
            cm.pkgid_to_repoids.contains_key(p) && 0 <= i < cm.pkgid_to_repoids[p].len() implies
            cm.repo_detail.contains_key(cm.pkgid_to_repoids[p][i]) by {
            assert(rkeys@.contains(p));
            let j = choose|j: int| 0 <= j < rkeys@.len() && rkeys@[j] == p;
            assert(cm.repo_detail.contains_key(cm.pkgid_to_repoids[rkeys@[j]][i]));
        }
    }
    true
}

/// Resolves one requested package against the cache.
fn resolve_one(cache: &Cache, nevra: &Nevra, avail: &IdSet) -> (r: Result<
    Option<UpdatesPkgDetail>,
    CoreError,
>)
    requires
        engine_wf(cache.model()),
        forall|id: u64| #[trigger]
            avail@.contains(id) ==> cache.model().repo_detail.contains_key(id),
        cache.model().name_to_id.contains_key(nevra@.name)
            ==> cache.model().updates_index.contains_key(
            cache.model().name_to_id[nevra@.name],
        ),
    ensures
        r is Err ==> resolve_package(cache.model(), avail@, nevra@) == Err::<
            Option<UpdatesPkgDetailModel>,
            CoreError,
        >(r->Err_0),
        r is Ok ==> resolve_package(cache.model(), avail@, nevra@) is Ok && (match r->Ok_0 {
            Some(d) => resolve_package(cache.model(), avail@, nevra@)->Ok_0 is Some && d@
                == resolve_package(cache.model(), avail@, nevra@)->Ok_0->0,
            None => resolve_package(cache.model(), avail@, nevra@)->Ok_0 is None,
        }),
{
    let ghost cm = cache.model();
    let name_id = match cache.name_to_id.get(&nevra.name) {
        Some(x) => *x,
        None => {
            return Ok(None);
        },
    };
    let arch_id = match cache.arch_to_id.get(&nevra.arch) {
        Some(x) => *x,
        None => {
            return Err(CoreError::ArchNotFound);
        },
    };
    let evr = nevra.evr();
    let ui = match cache.updates_index.get(name_id) {
        Some(ui) => ui,
        None => vstd::pervasive::unreached(),
    };
    let idxs = match cache.evr_to_id.get(&evr) {
        Some(eid) => match ui.data.get(eid) {
            Some(v) => v,
            None => {
                return Ok(None);
            },
        },
        None => {
            return Ok(None);
        },
    };
    proof {
        assert(idxs@ == cm.updates_index[name_id][cm.evr_to_id[evr_of(nevra@)]]);
    }
    if idxs.len() == 0 {
        return Ok(None);
    }
    let chain = match cache.updates.get(name_id) {
        Some(c) => c,
        None => vstd::pervasive::unreached(),
    };
    let ghost chain_s = cm.updates[name_id];
    let ghost idxs_s = idxs@;
    proof {
        assert(chain_s == chain@);
    }
    let m = idxs.len();
    let n_chain = chain.len();
    let mut anchor_opt: Option<u64> = None;
    let mut t: usize = 0;
    while anchor_opt.is_none() && t < m
        invariant
            0 <= t <= m,
            m == idxs_s.len(),
            m >= 1,
            cm == cache.model(),
            engine_wf(cm),
            chain_s == chain@,
            idxs_s == idxs@,
            n_chain == chain_s.len(),
            cm.updates.contains_key(name_id),
            chain_s == cm.updates[name_id],
            cm.updates_index.contains_key(name_id),
            cm.updates_index[name_id].contains_key(cm.evr_to_id[evr_of(nevra@)]),
            idxs_s == cm.updates_index[name_id][cm.evr_to_id[evr_of(nevra@)]],
            match anchor_opt {
                Some(a) => anchor_from(cm, chain_s, idxs_s, arch_id, 0) == Some(a)
                    && cm.pkg_details.contains_key(a) && chain_s.contains(a),
                None => anchor_from(cm, chain_s, idxs_s, arch_id, 0) == anchor_from(
                    cm,
                    chain_s,
                    idxs_s,
                    arch_id,
                    t as int,
                ),
            },
        decreases m - t + (if anchor_opt is Some { 0int } else { 1int }),
    {
        let pos = idxs[t];
        proof {
            assert(cm.updates_index[name_id][cm.evr_to_id[evr_of(nevra@)]][t as int] == pos);
            assert((pos as int) < chain_s.len());
        }
        let pkg_id = chain[pos as usize];
        proof {
            assert(cm.updates[name_id][pos as int] == pkg_id);
            assert(cm.pkg_details.contains_key(pkg_id));
        }
        let pd = match cache.pkg_details.get(pkg_id) {
            Some(p) => p,
            None => vstd::pervasive::unreached(),
        };
        if pd.arch_id == arch_id {
            anchor_opt = Some(pkg_id);
            proof {
                assert(chain_s[pos as int] == pkg_id);
                assert(chain_s.contains(pkg_id));
            }
        } else {
            t = t + 1;
        }
    }
    let anchor = match anchor_opt {
        Some(a) => a,
        None => {
            return Ok(None);
        },
    };
    let pd2 = match cache.pkg_details.get(anchor) {
        Some(p) => p,
        None => vstd::pervasive::unreached(),
    };
    let summary = clone_opt_string(&pd2.summary);
    let description = clone_opt_string(&pd2.desc);
    proof {
        assert(cm.updates_index[name_id][cm.evr_to_id[evr_of(nevra@)]][0] == idxs_s[0]);
        assert((idxs_s[0] as int) < chain_s.len());
    }
    if chain[n_chain - 1] == anchor {
        let detail = UpdatesPkgDetail { summary, description, available_updates: Vec::new() };
        proof {
            assert(detail@.available_updates =~= Seq::<PkgUpdateModel>::empty());
        }
        return Ok(Some(detail));
    }
    // the repositories carrying the anchor build
    let mut origin = IdSet::new();
    match cache.pkgid_to_repoids.get(anchor) {
        Some(rs) => {
            let rn = rs.len();
            let mut j: usize = 0;
            while j < rn
                invariant
                    0 <= j <= rn,
                    rn == rs@.len(),
                    origin.inv(),
                    forall|id: u64| #[trigger]
                        origin@.contains(id) <==> rs@.take(j as int).contains(id),
                decreases rn - j,
            {
                origin.insert(rs[j]);
                proof {
                    crate::tables::lemma_take_step(rs@, j as int);
                }
                j = j + 1;
            }
            proof {
                assert(rs@.take(rn as int) =~= rs@);
                assert(origin@ =~= origin_set(cm, anchor));
            }
        },
        None => {
            proof {
                assert(origin@ =~= origin_set(cm, anchor));
            }
        },
    }
    proof {
        assert forall|id: u64| #[trigger]
            origin@.contains(id) implies cm.repo_detail.contains_key(id) by {
            let u = choose|u: int|
                0 <= u < cm.pkgid_to_repoids[anchor].len() && (
                #[trigger] cm.pkgid_to_repoids[anchor][u]) == id;
            assert(cm.repo_detail.contains_key(cm.pkgid_to_repoids[anchor][u]));
        }
    }
    let product_ids = UpdatesApi::related_products(cache, &origin);
    let valid_rv = UpdatesApi::valid_releasevers(cache, &origin);
    proof {
        assert(valid_rv@ =~= valid_rv_set(cm, anchor));
    }
    let last_idx = idxs[m - 1];
    proof {
        assert(cm.updates_index[name_id][cm.evr_to_id[evr_of(nevra@)]][m - 1] == last_idx);
        assert((last_idx as int) < chain_s.len());
    }
    let start = (last_idx as usize) + 1;
    let ghost vrv = valid_rv_set(cm, anchor);
    let mut found: Vec<PkgUpdate> = Vec::new();
    let mut t2: usize = start;
    proof {
        assert(found@.map_values(|x: PkgUpdate| x@) =~= emits_for_candidates(
            cm,
            avail@,
            vrv,
            arch_id,
            chain_s,
            start as int,
            0,
        ));
        assert(cm.arch_to_id.contains_key(nevra@.arch) && cm.arch_to_id[nevra@.arch] == arch_id);
        assert(cm.arch_compat.contains_key(arch_id));
    }
    while t2 < n_chain
        invariant
            start <= t2 <= n_chain,
            cm == cache.model(),
            engine_wf(cm),
            chain_s == chain@,
            n_chain == chain_s.len(),
            cm.updates.contains_key(name_id),
            chain_s == cm.updates[name_id],
            cm.arch_compat.contains_key(arch_id),
            valid_rv@ == vrv,
            forall|id: u64| #[trigger] avail@.contains(id) ==> cm.repo_detail.contains_key(id),
            found@.map_values(|x: PkgUpdate| x@) == emits_for_candidates(
                cm,
                avail@,
                vrv,
                arch_id,
                chain_s,
                start as int,
                t2 - start,
            ),
        decreases n_chain - t2,
    {
        let u = chain[t2];
        proof {
            assert(cm.updates[name_id][t2 as int] == u);
            assert(cm.pkg_details.contains_key(u));
        }
        let mut skip = true;
        match cache.pkgid_to_errataids.get(u) {
            Some(eids) => {
                let pd3 = match cache.pkg_details.get(u) {
                    Some(p) => p,
                    None => vstd::pervasive::unreached(),
                };
                let arch_ok: bool;
                if pd3.arch_id == arch_id {
                    arch_ok = true;
                } else {
                    let compat = match cache.arch_compat.get(arch_id) {
                        Some(c) => c,
                        None => vstd::pervasive::unreached(),
                    };
                    arch_ok = vec_contains(compat, pd3.arch_id);
                }
                proof {
                    assert(arch_ok == (cm.pkg_details[u].arch_id == arch_id
                        || cm.arch_compat[arch_id].contains(cm.pkg_details[u].arch_id)));
                }
                if arch_ok {
                    skip = false;
                    let nev = UpdatesApi::build_nevra(cache, u);
                    let mut part = emit_candidate(
                        cache,
                        &nev,
                        u,
                        eids,
                        &product_ids,
                        avail,
                        &valid_rv,
                    );
                    let ghost found_pre = found@;
                    let ghost part_s = part@;
                    found.append(&mut part);
                    proof {
                        assert(cand_ok(cm, arch_id, u));
                        assert(found@.map_values(|x: PkgUpdate| x@) =~= found_pre.map_values(
                            |x: PkgUpdate| x@,
                        ) + part_s.map_values(|x: PkgUpdate| x@));
                        assert(found@.map_values(|x: PkgUpdate| x@) =~= emits_for_candidates(
                            cm,
                            avail@,
                            vrv,
                            arch_id,
                            chain_s,
                            start as int,
                            t2 + 1 - start,
                        ));
                    }
                }
            },
            None => {},
        }
        if skip {
            proof {
                assert(!cand_ok(cm, arch_id, chain_s[t2 as int]));
                assert(found@.map_values(|x: PkgUpdate| x@) =~= emits_for_candidates(
                    cm,
                    avail@,
                    vrv,
                    arch_id,
                    chain_s,
                    start as int,
                    t2 + 1 - start,
                ));
            }
        }
        t2 = t2 + 1;
    }
    Ok(Some(UpdatesPkgDetail { summary, description, available_updates: found }))
}

/// Some entry of the pair list already carries this key.
pub open spec fn has_pkg_key(pre: Seq<(Seq<char>, NevraModel)>, s: Seq<char>) -> bool {
    exists|j: int| 0 <= j < pre.len() && (#[trigger] pre[j]).0 == s
}

/// The surviving requested packages among the first `n`: each string is
/// parsed, kept only when its name is indexed in the update chains, and
/// only at its first occurrence.
pub open spec fn select_packages(cm: CacheModel, pl: Seq<Seq<char>>, n: int) -> Seq<
    (Seq<char>, NevraModel),
>
    decreases n,
{
    if n <= 0 {
        Seq::empty()
    } else {
        let pre = select_packages(cm, pl, n - 1);
        let s = pl[n - 1];
        let m = crate::nevra::nevra_parse(s)->0;
        if cm.name_to_id.contains_key(m.name) && cm.updates_index.contains_key(
            cm.name_to_id[m.name],
        ) && !has_pkg_key(pre, s) {
            pre.push((s, m))
        } else {
            pre
        }
    }
}

/// The answer map after resolving the first `n` surviving packages, or the
/// first request-fatal error.
pub open spec fn process_pkgs(
    cm: CacheModel,
    avail: Set<u64>,
    pkgs: Seq<(Seq<char>, NevraModel)>,
    base: Map<Seq<char>, UpdatesPkgDetailModel>,
    n: int,
) -> Result<Map<Seq<char>, UpdatesPkgDetailModel>, CoreError>
    decreases n,
{
    if n <= 0 {
        Ok(base)
    } else {
        match process_pkgs(cm, avail, pkgs, base, n - 1) {
            Err(e) => Err(e),
            Ok(acc) => match resolve_package(cm, avail, pkgs[n - 1].1) {
                Err(e) => Err(e),
                Ok(None) => Ok(acc),
                Ok(Some(d)) => Ok(acc.insert(pkgs[n - 1].0, d)),
            },
        }
    }
}

/// The whole request's answer: the update map over the surviving packages
/// within the repository scope, with the request's filters echoed back.
pub open spec fn resolve_request(cm: CacheModel, req: UpdatesReqModel) -> Result<
    UpdatesDataModel,
    CoreError,
> {
    let avail = Set::new(|id: u64| repo_in_scope(cm, req, id));
    let pkgs = select_packages(cm, req.package_list, req.package_list.len() as int);
    match process_pkgs(cm, avail, pkgs, Map::empty(), pkgs.len() as int) {
        Err(e) => Err(e),
        Ok(ul) => Ok(
            UpdatesDataModel {
                update_list: ul,
                repository_list: req.repository_list,
                releasever: req.releasever,
                basearch: req.basearch,
            },
        ),
    }
}

impl UpdatesApi {
    /// Parses the requested packages and keeps those whose names the
    /// update-chain index knows, each under its first occurrence.
    pub fn process_input_packages(cache: &Cache, data: &UpdatesReq) -> (r: Vec<(String, Nevra)>)
        requires
            forall|i: int|
                0 <= i < data@.package_list.len() ==> crate::nevra::nevra_parse(
                    #[trigger] data@.package_list[i],
                ) is Some,
        ensures
            r@.map_values(|p: (String, Nevra)| (p.0@, p.1@)) == select_packages(
                cache.model(),
                data@.package_list,
                data@.package_list.len() as int,
            ),
            forall|k: int|
                0 <= k < r@.len() ==> (cache.model().name_to_id.contains_key(
                    (#[trigger] r@[k]).1@.name,
                ) && cache.model().updates_index.contains_key(
                    cache.model().name_to_id[r@[k].1@.name],
                )),
    {
        let ghost cm = cache.model();
        let ghost pl = data@.package_list;
        let mut out: Vec<(String, Nevra)> = Vec::new();
        let n = data.package_list.len();
        let mut i: usize = 0;
        proof {
            assert(out@.map_values(|p: (String, Nevra)| (p.0@, p.1@)) =~= select_packages(
                cm,
                pl,
                0,
            ));
        }
        while i < n
            invariant
                0 <= i <= n,
                n == pl.len(),
                cm == cache.model(),
                pl == data@.package_list,
                forall|j: int|
                    0 <= j < pl.len() ==> crate::nevra::nevra_parse(#[trigger] pl[j]) is Some,
                out@.map_values(|p: (String, Nevra)| (p.0@, p.1@)) == select_packages(
                    cm,
                    pl,
                    i as int,
                ),
                forall|k: int|
                    0 <= k < out@.len() ==> (cm.name_to_id.contains_key(
                        (#[trigger] out@[k]).1@.name,
                    ) && cm.updates_index.contains_key(cm.name_to_id[out@[k].1@.name])),
            decreases n - i,
        {
            let pkg = &data.package_list[i];
            proof {
                assert(pl[i as int] == pkg@);
            }
            let nevra = match Nevra::parse(pkg.as_str()) {
                Some(nv) => nv,
                None => vstd::pervasive::unreached(),
            };
            let mut keep = false;
            match cache.name_to_id.get(&nevra.name) {
                Some(id) => {
                    if cache.updates_index.contains_key(*id) {
                        keep = true;
                    }
                },
                None => {},
            }
            if keep {
                // keep only the first occurrence of a package string
                let mut dup = false;
                let rn = out.len();
                let mut u: usize = 0;
                while u < rn
                    invariant
                        0 <= u <= rn,
                        rn == out@.len(),
                        dup ==> has_pkg_key(
                            out@.map_values(|p: (String, Nevra)| (p.0@, p.1@)),
                            pkg@,
                        ),
                        !dup ==> forall|j: int| 0 <= j < u ==> (#[trigger] out@[j]).0@ != pkg@,
                    decreases rn - u,
                {
                    if out[u].0.eq(pkg) {
                        proof {
                            assert(out@.map_values(|p: (String, Nevra)| (p.0@, p.1@))[u as int].0
                                == pkg@);
                        }
                        dup = true;
                    }
                    u = u + 1;
                }
                proof {
                    if !dup {
                        let os = out@.map_values(|p: (String, Nevra)| (p.0@, p.1@));
                        assert forall|j: int| 0 <= j < os.len() implies (#[trigger] os[j]).0
                            != pkg@ by {
                            assert(os[j].0 == out@[j].0@);
                        }
                    }
                }
                if !dup {
                    out.push((pkg.clone(), nevra));
                    proof {
                        assert(out@.map_values(|p: (String, Nevra)| (p.0@, p.1@))
                            =~= select_packages(cm, pl, i as int + 1));
                    }
                } else {
                    proof {
                        assert(out@.map_values(|p: (String, Nevra)| (p.0@, p.1@))
                            =~= select_packages(cm, pl, i as int + 1));
                    }
                }
            } else {
                proof {
                    let m = crate::nevra::nevra_parse(pl[i as int])->0;
                    assert(nevra@ == m);
                    assert(out@.map_values(|p: (String, Nevra)| (p.0@, p.1@)) =~= select_packages(
                        cm,
                        pl,
                        i as int + 1,
                    ));
                }
            }
            i = i + 1;
        }
        out
    }

    /// Resolves each surviving package and fills its answer entry; a
    /// package whose architecture is unknown fails the request.
    pub fn process_updates(
        cache: &Cache,
        packages_to_process: &Vec<(String, Nevra)>,
        available_repo_ids: &IdSet,
        response: &mut UpdatesData,
    ) -> (r: Result<(), CoreError>)
        requires
            engine_wf(cache.model()),
            forall|id: u64| #[trigger]
                available_repo_ids@.contains(id) ==> cache.model().repo_detail.contains_key(id),
            forall|k: int|
                0 <= k < packages_to_process@.len() ==> (cache.model().name_to_id.contains_key(
                    (#[trigger] packages_to_process@[k]).1@.name,
                ) ==> cache.model().updates_index.contains_key(
                    cache.model().name_to_id[packages_to_process@[k].1@.name],
                )),
        ensures
            ({
                let pkgs = packages_to_process@.map_values(|p: (String, Nevra)| (p.0@, p.1@));
                let outcome = process_pkgs(
                    cache.model(),
                    available_repo_ids@,
                    pkgs,
                    old(response)@.update_list,
                    pkgs.len() as int,
                );
                match r {
                    Ok(_) => outcome == Ok::<Map<Seq<char>, UpdatesPkgDetailModel>, CoreError>(
                        final(response)@.update_list,
                    ),
                    Err(e) => outcome == Err::<Map<Seq<char>, UpdatesPkgDetailModel>, CoreError>(
                        e,
                    ),
                }
            }),
            r is Ok ==> final(response)@.repository_list == old(response)@.repository_list
                && final(response)@.releasever == old(response)@.releasever
                && final(response)@.basearch == old(response)@.basearch,
    {
        let ghost cm = cache.model();
        let ghost pkgs = packages_to_process@.map_values(|p: (String, Nevra)| (p.0@, p.1@));
        let n = packages_to_process.len();
        let mut i: usize = 0;
        while i < n
            invariant
                0 <= i <= n,
                n == pkgs.len(),
                cm == cache.model(),
                engine_wf(cm),
                pkgs == packages_to_process@.map_values(|p: (String, Nevra)| (p.0@, p.1@)),
                forall|id: u64| #[trigger]
                    available_repo_ids@.contains(id) ==> cm.repo_detail.contains_key(id),
                forall|k: int|
                    0 <= k < packages_to_process@.len() ==> (cm.name_to_id.contains_key(
                        (#[trigger] packages_to_process@[k]).1@.name,
                    ) ==> cm.updates_index.contains_key(
                        cm.name_to_id[packages_to_process@[k].1@.name],
                    )),
                process_pkgs(cm, available_repo_ids@, pkgs, old(response)@.update_list, i as int)
                    == Ok::<Map<Seq<char>, UpdatesPkgDetailModel>, CoreError>(
                    response@.update_list,
                ),
                response@.repository_list == old(response)@.repository_list,
                response@.releasever == old(response)@.releasever,
                response@.basearch == old(response)@.basearch,
            decreases n - i,
        {
            let entry = &packages_to_process[i];
            proof {
                assert(pkgs[i as int] == (entry.0@, entry.1@));
            }
            match resolve_one(cache, &entry.1, available_repo_ids) {
                Ok(Some(detail)) => {
                    let ghost before = response.update_list@;
                    let ghost dv = detail@;
                    response.update_list.insert(entry.0.clone(), detail);
                    proof {
                        crate::cache::lemma_lift_vals_insert(
                            before,
                            entry.0@,
                            response.update_list@[entry.0@],
                        );
                    }
                },
                Ok(None) => {},
                Err(e) => {
                    proof {
                        lemma_process_pkgs_err(
                            cm,
                            available_repo_ids@,
                            pkgs,
                            old(response)@.update_list,
                            i as int + 1,
                            n as int,
                        );
                    }
                    return Err(e);
                },
            }
            i = i + 1;
        }
        Ok(())
    }

    /// Answers one update query: resolves the repository scope, selects
    /// the known packages, and fills one answer entry per resolved
    /// package.
    pub fn process_list(cache: &Cache, data: UpdatesReq) -> (r: Result<UpdatesData, CoreError>)
        requires
            engine_wf(cache.model()),
            forall|i: int|
                0 <= i < data@.package_list.len() ==> crate::nevra::nevra_parse(
                    #[trigger] data@.package_list[i],
                ) is Some,
        ensures
            r is Ok <==> resolve_request(cache.model(), data@) is Ok,
            r is Ok ==> (r->Ok_0)@ == resolve_request(cache.model(), data@)->Ok_0,
            r is Err ==> r->Err_0 == resolve_request(cache.model(), data@)->Err_0,
    {
        let ghost cm = cache.model();
        let mut response = UpdatesData::new();
        let available_repo_ids = Self::process_repositories(cache, &data, &mut response);
        proof {
            assert(available_repo_ids@ =~= Set::new(|id: u64| repo_in_scope(cm, data@, id)));
        }
        let packages_to_process = Self::process_input_packages(cache, &data);
        let res = Self::process_updates(
            cache,
            &packages_to_process,
            &available_repo_ids,
            &mut response,
        );
        match res {
            Ok(_) => {
                proof {
                    assert(response@.repository_list == data@.repository_list);
                    assert(response@.releasever == data@.releasever);
                    assert(response@.basearch == data@.basearch);
                }
                Ok(response)
            },
            Err(e) => Err(e),
        }
    }
}

/// The anchor a request resolves a package to, independent of the
/// repository scope.
pub open spec fn anchor_of(cm: CacheModel, m: NevraModel) -> Option<u64> {
    if !cm.name_to_id.contains_key(m.name) || !cm.arch_to_id.contains_key(m.arch) {
        None
    } else {
        let name_id = cm.name_to_id[m.name];
        let arch_id = cm.arch_to_id[m.arch];
        let evr = evr_of(m);
        let idxs = if cm.evr_to_id.contains_key(evr) && cm.updates_index[name_id].contains_key(
            cm.evr_to_id[evr],
        ) {
            cm.updates_index[name_id][cm.evr_to_id[evr]]
        } else {
            Seq::empty()
        };
        if idxs.len() == 0 {
            None
        } else {
            anchor_from(cm, cm.updates[name_id], idxs, arch_id, 0)
        }
    }
}

/// Any anchor the search returns carries exactly the requested
/// architecture.
pub proof fn lemma_anchor_from_exact(
    cm: CacheModel,
    chain: Seq<u64>,
    idxs: Seq<u64>,
    arch_id: u64,
    i: int,
)
    requires
        anchor_from(cm, chain, idxs, arch_id, i) is Some,
    ensures
        cm.pkg_details[anchor_from(cm, chain, idxs, arch_id, i)->0].arch_id == arch_id,
    decreases idxs.len() - i,
{
    if 0 <= i < idxs.len() {
        let pkg = chain[idxs[i] as int];
        if cm.pkg_details[pkg].arch_id == arch_id {
        } else {
            lemma_anchor_from_exact(cm, chain, idxs, arch_id, i + 1);
        }
    }
}

/// Anchor exactness: whatever build a package is anchored to has exactly
/// the requested architecture; no cross-architecture anchor is ever
/// chosen.
pub proof fn lemma_anchor_exact(cm: CacheModel, m: NevraModel, a: u64)
    requires
        anchor_of(cm, m) == Some(a),
    ensures
        cm.arch_to_id.contains_key(m.arch),
        cm.pkg_details[a].arch_id == cm.arch_to_id[m.arch],
{
    let name_id = cm.name_to_id[m.name];
    let arch_id = cm.arch_to_id[m.arch];
    let evr = evr_of(m);
    let idxs = if cm.evr_to_id.contains_key(evr) && cm.updates_index[name_id].contains_key(
        cm.evr_to_id[evr],
    ) {
        cm.updates_index[name_id][cm.evr_to_id[evr]]
    } else {
        Seq::empty()
    };
    lemma_anchor_from_exact(cm, cm.updates[name_id], idxs, arch_id, 0);
}

/// Resolving the same request twice against the same snapshot yields, for
/// every package, set-equal available updates and the same metadata.
pub proof fn lemma_resolution_idempotent(
    cm: CacheModel,
    req: UpdatesReqModel,
    d1: UpdatesDataModel,
    d2: UpdatesDataModel,
    pkg: Seq<char>,
)
    requires
        resolve_request(cm, req) == Ok::<UpdatesDataModel, CoreError>(d1),
        resolve_request(cm, req) == Ok::<UpdatesDataModel, CoreError>(d2),
        d1.update_list.contains_key(pkg),
    ensures
        d2.update_list.contains_key(pkg),
        d1.update_list[pkg].available_updates.to_multiset()
            == d2.update_list[pkg].available_updates.to_multiset(),
        d1.update_list[pkg].summary == d2.update_list[pkg].summary,
        d1.update_list[pkg].description == d2.update_list[pkg].description,
{
}

/// No package of an all-unknown request survives selection.
proof fn lemma_select_unknown_empty(cm: CacheModel, pl: Seq<Seq<char>>, n: int)
    requires
        0 <= n <= pl.len(),
        forall|i: int|
            0 <= i < pl.len() ==> !(cm.name_to_id.contains_key(
                (#[trigger] crate::nevra::nevra_parse(pl[i]))->0.name,
            ) && cm.updates_index.contains_key(
                cm.name_to_id[crate::nevra::nevra_parse(pl[i])->0.name],
            )),
    ensures
        select_packages(cm, pl, n) == Seq::<(Seq<char>, NevraModel)>::empty(),
    decreases n,
{
    if n > 0 {
        lemma_select_unknown_empty(cm, pl, n - 1);
    }
}

/// Unknown name is invisible: a request whose package names are all
/// absent from the update-chain index answers with an empty update list.
pub proof fn lemma_unknown_name_invisible(cm: CacheModel, req: UpdatesReqModel)
    requires
        forall|i: int|
            0 <= i < req.package_list.len() ==> !(cm.name_to_id.contains_key(
                (#[trigger] crate::nevra::nevra_parse(req.package_list[i]))->0.name,
            ) && cm.updates_index.contains_key(
                cm.name_to_id[crate::nevra::nevra_parse(req.package_list[i])->0.name],
            )),
    ensures
        resolve_request(cm, req) is Ok,
        resolve_request(cm, req)->Ok_0.update_list == Map::<
            Seq<char>,
            UpdatesPkgDetailModel,
        >::empty(),
{
    lemma_select_unknown_empty(cm, req.package_list, req.package_list.len() as int);
}

/// Newest is silent: when the anchor is the last element of its name's
/// update chain, the package's entry carries no updates, yet its summary
/// and description are the anchor's.
pub proof fn lemma_newest_is_silent(
    cm: CacheModel,
    avail: Set<u64>,
    m: NevraModel,
    a: u64,
    d: UpdatesPkgDetailModel,
)
    requires
        anchor_of(cm, m) == Some(a),
        cm.updates[cm.name_to_id[m.name]].len() > 0,
        cm.updates[cm.name_to_id[m.name]].last() == a,
        resolve_package(cm, avail, m) == Ok::<Option<UpdatesPkgDetailModel>, CoreError>(Some(d)),
    ensures
        d.available_updates.len() == 0,
        d.summary == cm.pkg_details[a].summary,
        d.description == cm.pkg_details[a].desc,
{
}

/// Every record of one erratum's emission names the candidate's identity.
proof fn lemma_updates_of_repos_package(
    cm: CacheModel,
    nev: NevraModel,
    e: u64,
    rids: Seq<u64>,
    j: int,
)
    requires
        0 <= j < updates_of_repos(cm, nev, e, rids).len(),
    ensures
        updates_of_repos(cm, nev, e, rids)[j].package == nev,
    decreases rids.len(),
{
    if rids.len() > 0 && j < updates_of_repos(cm, nev, e, rids).len() - 1 {
        lemma_updates_of_repos_package(cm, nev, e, rids.drop_last(), j);
    }
}

/// Every record of one candidate's emission names the candidate's
/// identity.
proof fn lemma_emits_for_errata_package(
    cm: CacheModel,
    avail: Set<u64>,
    valid_rv: Set<Seq<char>>,
    u: u64,
    nev: NevraModel,
    eids: Seq<u64>,
    n: int,
    j: int,
)
    requires
        0 <= j < emits_for_errata(cm, avail, valid_rv, u, nev, eids, n).len(),
    ensures
        emits_for_errata(cm, avail, valid_rv, u, nev, eids, n)[j].package == nev,
    decreases n,
{
    if n > 0 {
        let pre = emits_for_errata(cm, avail, valid_rv, u, nev, eids, n - 1);
        if j < pre.len() {
            lemma_emits_for_errata_package(cm, avail, valid_rv, u, nev, eids, n - 1, j);
        } else {
            lemma_updates_of_repos_package(
                cm,
                nev,
                eids[n - 1],
                filter_repos(
                    cm,
                    seq![eids[n - 1]],
                    avail,
                    valid_rv,
                    cm.pkgid_to_repoids[u],
                    cm.pkgid_to_repoids[u].len() as int,
                ),
                j - pre.len(),
            );
        }
    }
}

/// Arch-compat closure: every emitted update names a candidate whose
/// architecture equals the requested one or is listed compatible with it;
/// an incompatible candidate never appears, for any compatibility table.
pub proof fn lemma_arch_compat_closure(
    cm: CacheModel,
    avail: Set<u64>,
    valid_rv: Set<Seq<char>>,
    arch_id: u64,
    chain: Seq<u64>,
    start: int,
    n: int,
    j: int,
)
    requires
        0 <= j < emits_for_candidates(cm, avail, valid_rv, arch_id, chain, start, n).len(),
    ensures
        exists|u: u64|
            #[trigger] cand_ok(cm, arch_id, u) && emits_for_candidates(
                cm,
                avail,
                valid_rv,
                arch_id,
                chain,
                start,
                n,
            )[j].package == built_nevra(cm, u),
    decreases n,
{
    if n > 0 {
        let pre = emits_for_candidates(cm, avail, valid_rv, arch_id, chain, start, n - 1);
        if j < pre.len() {
            lemma_arch_compat_closure(cm, avail, valid_rv, arch_id, chain, start, n - 1, j);
            let u0 = choose|u0: u64|
                #[trigger] cand_ok(cm, arch_id, u0) && pre[j].package == built_nevra(cm, u0);
            assert(emits_for_candidates(cm, avail, valid_rv, arch_id, chain, start, n)[j]
                == pre[j]);
        } else {
            let u = chain[start + n - 1];
            assert(cand_ok(cm, arch_id, u));
            lemma_emits_for_errata_package(
                cm,
                avail,
                valid_rv,
                u,
                built_nevra(cm, u),
                cm.pkgid_to_errataids[u],
                cm.pkgid_to_errataids[u].len() as int,
                j - pre.len(),
            );
        }
    }
}

/// The surviving-repository list never repeats an id.
proof fn lemma_filter_repos_nodup(
    cm: CacheModel,
    eids: Seq<u64>,
    avail: Set<u64>,
    valid_rv: Set<Seq<char>>,
    src: Seq<u64>,
    n: int,
)
    ensures
        filter_repos(cm, eids, avail, valid_rv, src, n).no_duplicates(),
    decreases n,
{
    if n > 0 {
        lemma_filter_repos_nodup(cm, eids, avail, valid_rv, src, n - 1);
        let pre = filter_repos(cm, eids, avail, valid_rv, src, n - 1);
        let cur = filter_repos(cm, eids, avail, valid_rv, src, n);
        if cur != pre {
            assert forall|i: int, j: int|
                0 <= i < j < cur.len() implies cur[i] != cur[j] by {
                if j == cur.len() - 1 {
                    assert(cur[i] == pre[i]);
                    assert(pre.contains(pre[i]));
                }
            }
        }
    }
}

/// Narrowing the scope never lengthens the surviving-repository list.
proof fn lemma_filter_repos_mono(
    cm: CacheModel,
    eids: Seq<u64>,
    avail1: Set<u64>,
    avail2: Set<u64>,
    valid_rv: Set<Seq<char>>,
    src: Seq<u64>,
    n: int,
)
    requires
        0 <= n <= src.len(),
        avail2.subset_of(avail1),
    ensures
        filter_repos(cm, eids, avail2, valid_rv, src, n).len() <= filter_repos(
            cm,
            eids,
            avail1,
            valid_rv,
            src,
            n,
        ).len(),
    decreases n,
{
    broadcast use vstd::seq_lib::seq_to_set_is_finite;

    let f1 = filter_repos(cm, eids, avail1, valid_rv, src, n);
    let f2 = filter_repos(cm, eids, avail2, valid_rv, src, n);
    lemma_filter_repos_nodup(cm, eids, avail1, valid_rv, src, n);
    lemma_filter_repos_nodup(cm, eids, avail2, valid_rv, src, n);
    lemma_filter_repos_elems(cm, eids, avail1, valid_rv, src, n);
    lemma_filter_repos_elems(cm, eids, avail2, valid_rv, src, n);
    f1.unique_seq_to_set();
    f2.unique_seq_to_set();
    assert forall|x: u64| f2.to_set().contains(x) implies f1.to_set().contains(x) by {
        assert(f2.contains(x));
        assert(f1.contains(x));
    }
    vstd::set_lib::lemma_len_subset(f2.to_set(), f1.to_set());
}

/// One record per surviving repository.
proof fn lemma_updates_of_repos_len(cm: CacheModel, nev: NevraModel, e: u64, rids: Seq<u64>)
    ensures
        updates_of_repos(cm, nev, e, rids).len() == rids.len(),
    decreases rids.len(),
{
    if rids.len() > 0 {
        lemma_updates_of_repos_len(cm, nev, e, rids.drop_last());
    }
}

/// Narrowing the scope never lengthens one candidate's emission.
proof fn lemma_emits_for_errata_mono(
    cm: CacheModel,
    avail1: Set<u64>,
    avail2: Set<u64>,
    valid_rv: Set<Seq<char>>,
    u: u64,
    nev: NevraModel,
    eids: Seq<u64>,
    n: int,
)
    requires
        avail2.subset_of(avail1),
    ensures
        emits_for_errata(cm, avail2, valid_rv, u, nev, eids, n).len() <= emits_for_errata(
            cm,
            avail1,
            valid_rv,
            u,
            nev,
            eids,
            n,
        ).len(),
    decreases n,
{
    if n > 0 {
        lemma_emits_for_errata_mono(cm, avail1, avail2, valid_rv, u, nev, eids, n - 1);
        let src = cm.pkgid_to_repoids[u];
        lemma_filter_repos_mono(cm, seq![eids[n - 1]], avail1, avail2, valid_rv, src, src.len() as int);
        lemma_updates_of_repos_len(
            cm,
            nev,
            eids[n - 1],
            filter_repos(cm, seq![eids[n - 1]], avail2, valid_rv, src, src.len() as int),
        );
        lemma_updates_of_repos_len(
            cm,
            nev,
            eids[n - 1],
            filter_repos(cm, seq![eids[n - 1]], avail1, valid_rv, src, src.len() as int),
        );
    }
}

/// Narrowing the scope never lengthens a chain suffix's emission.
proof fn lemma_emits_for_candidates_mono(
    cm: CacheModel,
    avail1: Set<u64>,
    avail2: Set<u64>,
    valid_rv: Set<Seq<char>>,
    arch_id: u64,
    chain: Seq<u64>,
    start: int,
    n: int,
)
    requires
        avail2.subset_of(avail1),
    ensures
        emits_for_candidates(cm, avail2, valid_rv, arch_id, chain, start, n).len()
            <= emits_for_candidates(cm, avail1, valid_rv, arch_id, chain, start, n).len(),
    decreases n,
{
    if n > 0 {
        lemma_emits_for_candidates_mono(cm, avail1, avail2, valid_rv, arch_id, chain, start, n - 1);
        let u = chain[start + n - 1];
        if cand_ok(cm, arch_id, u) {
            lemma_emits_for_errata_mono(
                cm,
                avail1,
                avail2,
                valid_rv,
                u,
                built_nevra(cm, u),
                cm.pkgid_to_errataids[u],
                cm.pkgid_to_errataids[u].len() as int,
            );
        }
    }
}

/// Narrowing the scope keeps the same per-package outcome shape and never
/// adds updates.
proof fn lemma_resolve_package_mono(cm: CacheModel, avail1: Set<u64>, avail2: Set<u64>, m: NevraModel)
    requires
        avail2.subset_of(avail1),
    ensures
        resolve_package(cm, avail2, m) is Ok <==> resolve_package(cm, avail1, m) is Ok,
        resolve_package(cm, avail2, m) is Err ==> resolve_package(cm, avail2, m)
            == resolve_package(cm, avail1, m),
        resolve_package(cm, avail2, m) is Ok ==> (resolve_package(cm, avail2, m)->Ok_0 is Some
            <==> resolve_package(cm, avail1, m)->Ok_0 is Some),
        resolve_package(cm, avail2, m) is Ok && resolve_package(cm, avail2, m)->Ok_0 is Some
            ==> (resolve_package(cm, avail2, m)->Ok_0->0).available_updates.len() <= (
        resolve_package(cm, avail1, m)->Ok_0->0).available_updates.len(),
{
    if cm.name_to_id.contains_key(m.name) && cm.arch_to_id.contains_key(m.arch) {
        let name_id = cm.name_to_id[m.name];
        let arch_id = cm.arch_to_id[m.arch];
        let evr = evr_of(m);
        let idxs = if cm.evr_to_id.contains_key(evr) && cm.updates_index[name_id].contains_key(
            cm.evr_to_id[evr],
        ) {
            cm.updates_index[name_id][cm.evr_to_id[evr]]
        } else {
            Seq::<u64>::empty()
        };
        if idxs.len() > 0 {
            let chain = cm.updates[name_id];
            match anchor_from(cm, chain, idxs, arch_id, 0) {
                None => {},
                Some(anchor) => {
                    if !(chain.len() > 0 && chain.last() == anchor) {
                        let start = idxs.last() + 1;
                        lemma_emits_for_candidates_mono(
                            cm,
                            avail1,
                            avail2,
                            valid_rv_set(cm, anchor),
                            arch_id,
                            chain,
                            start as int,
                            chain.len() - start,
                        );
                    }
                },
            }
        }
    }
}

/// Scope monotonicity over the package fold: narrowing the scope keeps
/// the same answer keys and never increases any package's update count.
proof fn lemma_process_pkgs_mono(
    cm: CacheModel,
    avail1: Set<u64>,
    avail2: Set<u64>,
    pkgs: Seq<(Seq<char>, NevraModel)>,
    n: int,
    pkg: Seq<char>,
)
    requires
        0 <= n <= pkgs.len(),
        avail2.subset_of(avail1),
        process_pkgs(cm, avail2, pkgs, Map::empty(), n) is Ok,
        process_pkgs(cm, avail2, pkgs, Map::empty(), n)->Ok_0.contains_key(pkg),
    ensures
        process_pkgs(cm, avail1, pkgs, Map::empty(), n) is Ok,
        process_pkgs(cm, avail1, pkgs, Map::empty(), n)->Ok_0.contains_key(pkg),
        process_pkgs(cm, avail2, pkgs, Map::empty(), n)->Ok_0[pkg].available_updates.len()
            <= process_pkgs(cm, avail1, pkgs, Map::empty(), n)->Ok_0[pkg].available_updates.len(),
    decreases n,
{
    if n > 0 {
        let m = pkgs[n - 1].1;
        lemma_resolve_package_mono(cm, avail1, avail2, m);
        let prev2 = process_pkgs(cm, avail2, pkgs, Map::empty(), n - 1);
        assert(prev2 is Ok);
        match resolve_package(cm, avail2, m) {
            Err(_) => {},
            Ok(None) => {
                lemma_process_pkgs_mono(cm, avail1, avail2, pkgs, n - 1, pkg);
            },
            Ok(Some(_)) => {
                if pkgs[n - 1].0 == pkg {
                    if prev2->Ok_0.contains_key(pkg) {
                        lemma_process_pkgs_mono(cm, avail1, avail2, pkgs, n - 1, pkg);
                    } else {
                        lemma_process_pkgs_err_ok(cm, avail1, avail2, pkgs, n - 1);
                    }
                } else {
                    lemma_process_pkgs_mono(cm, avail1, avail2, pkgs, n - 1, pkg);
                }
            },
        }
    }
}

/// If the narrow fold succeeds, so does the wide one.
proof fn lemma_process_pkgs_err_ok(
    cm: CacheModel,
    avail1: Set<u64>,
    avail2: Set<u64>,
    pkgs: Seq<(Seq<char>, NevraModel)>,
    n: int,
)
    requires
        0 <= n <= pkgs.len(),
        avail2.subset_of(avail1),
        process_pkgs(cm, avail2, pkgs, Map::empty(), n) is Ok,
    ensures
        process_pkgs(cm, avail1, pkgs, Map::empty(), n) is Ok,
    decreases n,
{
    if n > 0 {
        lemma_process_pkgs_err_ok(cm, avail1, avail2, pkgs, n - 1);
        lemma_resolve_package_mono(cm, avail1, avail2, pkgs[n - 1].1);
    }
}

/// Scope monotonicity: narrowing the repository list to a subset never
/// increases the number of emitted update records for any package.
pub proof fn lemma_scope_monotonic(
    cm: CacheModel,
    req1: UpdatesReqModel,
    req2: UpdatesReqModel,
    pkg: Seq<char>,
)
    requires
        req2.package_list == req1.package_list,
        req2.releasever == req1.releasever,
        req2.basearch == req1.basearch,
        req1.repository_list is Some ==> req2.repository_list is Some && (forall|i: int|
            0 <= i < (req2.repository_list->0).len() ==> req1.repository_list->0.contains(
                #[trigger] (req2.repository_list->0)[i],
            )),
        resolve_request(cm, req2) is Ok,
        resolve_request(cm, req2)->Ok_0.update_list.contains_key(pkg),
    ensures
        resolve_request(cm, req1) is Ok,
        resolve_request(cm, req1)->Ok_0.update_list.contains_key(pkg),
        resolve_request(cm, req2)->Ok_0.update_list[pkg].available_updates.len()
            <= resolve_request(cm, req1)->Ok_0.update_list[pkg].available_updates.len(),
{
    let avail1 = Set::new(|id: u64| repo_in_scope(cm, req1, id));
    let avail2 = Set::new(|id: u64| repo_in_scope(cm, req2, id));
    assert forall|id: u64| avail2.contains(id) implies avail1.contains(id) by {
        if req1.repository_list is Some {
            let labels2 = req2.repository_list->0;
            let labels1 = req1.repository_list->0;
            let i = choose|i: int|
                0 <= i < labels2.len() && cm.repolabel_to_ids.contains_key(#[trigger] labels2[i])
                    && cm.repolabel_to_ids[labels2[i]].contains(id);
            assert(labels1.contains(labels2[i]));
            let j = choose|j: int| 0 <= j < labels1.len() && labels1[j] == labels2[i];
            assert(cm.repolabel_to_ids.contains_key(labels1[j])
                && cm.repolabel_to_ids[labels1[j]].contains(id));
        }
    }
    assert(avail2.subset_of(avail1));
    let pkgs1 = select_packages(cm, req1.package_list, req1.package_list.len() as int);
    let pkgs2 = select_packages(cm, req2.package_list, req2.package_list.len() as int);
    assert(pkgs1 == pkgs2);
    lemma_process_pkgs_mono(cm, avail1, avail2, pkgs2, pkgs2.len() as int, pkg);
}

/// A request-fatal error never heals: every longer prefix fails the same
/// way.
proof fn lemma_process_pkgs_err(
    cm: CacheModel,
    avail: Set<u64>,
    pkgs: Seq<(Seq<char>, NevraModel)>,
    base: Map<Seq<char>, UpdatesPkgDetailModel>,
    m: int,
    n: int,
)
    requires
        0 <= m <= n,
        process_pkgs(cm, avail, pkgs, base, m) is Err,
    ensures
        process_pkgs(cm, avail, pkgs, base, n) == process_pkgs(cm, avail, pkgs, base, m),
    decreases n - m,
{
    if m < n {
        lemma_process_pkgs_err(cm, avail, pkgs, base, m + 1, n);
    }
}

/// Clones a vector of strings, value for value.
fn clone_string_vec(v: &Vec<String>) -> (r: Vec<String>)
    ensures
        r@ == v@,
{
    let mut r: Vec<String> = Vec::new();
    let n = v.len();
    let mut i: usize = 0;
    while i < n
        invariant
            0 <= i <= n,
            n == v@.len(),
            r@ == v@.take(i as int),
        decreases n - i,
    {
        r.push(v[i].clone());
        proof {
            assert(r@ =~= v@.take(i + 1));
        }
        i = i + 1;
    }
    proof {
        assert(v@.take(n as int) =~= v@);
    }
    r
}

/// Clones an optional string, value for value.
fn clone_opt_string(v: &Option<String>) -> (r: Option<String>)
    ensures
        r == *v,
{
    match v {
        Some(s) => Some(s.clone()),
        None => None,
    }
}

} // verus!

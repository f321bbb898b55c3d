//! Canonical package-identity handling: the NEVRA string form
//! `name-[epoch:]version-release.arch`, its parser and its formatter.

use vstd::prelude::*;
use crate::cache::{Evr, EvrModel};
use crate::strutil::{
    all_digits, dec_digits, dec_val, digit_prefix, digit_prefix_len, is_digit,
    lemma_digit_prefix_props, lemma_rfind_props, parse_u64, rfind, u64_to_string,
};
use crate::cache::rfind_in_prefix;

verus! {

/// Request paging parameters (accepted by list endpoints).
#[derive(Debug, Clone, Copy, PartialEq, Eq, Structural)]
pub struct PagingInfo {
    pub page: usize,
    pub page_size: usize,
}

/// Mathematical value of a [`Nevra`].
pub ghost struct NevraModel {
    pub name: Seq<char>,
    pub epoch: Option<Seq<char>>,
    pub version: Seq<char>,
    pub release: Seq<char>,
    pub arch: Seq<char>,
}

/// A parsed package identity: name, optional epoch, version, release and
/// architecture.
#[derive(Debug)]
pub struct Nevra {
    pub name: String,
    pub epoch: Option<String>,
    pub version: String,
    pub release: String,
    pub arch: String,
}

impl View for Nevra {
    type V = NevraModel;

    open spec fn view(&self) -> NevraModel {
        NevraModel {
            name: self.name@,
            epoch: match self.epoch {
                Some(e) => Some(e@),
                None => None,
            },
            version: self.version@,
            release: self.release@,
            arch: self.arch@,
        }
    }
}

/// A character an architecture token may hold: a lowercase letter, a digit
/// or an underscore.
pub open spec fn is_arch_char(c: char) -> bool {
    (97 <= c as u32 <= 122) || is_digit(c) || c as u32 == 95
}

/// Every character of `s` may stand in an architecture token.
pub open spec fn all_arch_chars(s: Seq<char>) -> bool {
    forall|i: int| 0 <= i < s.len() ==> is_arch_char(#[trigger] s[i])
}

/// Whether every character may stand in an architecture token.
fn check_arch_chars(a: &str) -> (r: bool)
    ensures
        r == all_arch_chars(a@),
{
    let n = a.unicode_len();
    let mut i: usize = 0;
    while i < n
        invariant
            0 <= i <= n,
            n == a@.len(),
            forall|j: int| 0 <= j < i ==> is_arch_char(#[trigger] a@[j]),
        decreases n - i,
    {
        let c = a.get_char(i) as u32;
        if !((97 <= c && c <= 122) || (48 <= c && c <= 57) || c == 95) {
            proof {
                assert(!is_arch_char(a@[i as int]));
            }
            return false;
        }
        i = i + 1;
    }
    true
}

/// The decomposition of a NEVRA string.
///
/// The name is everything before the second-to-last hyphen (greedy), the
/// version and release lie between the last two hyphens and the final dot,
/// the architecture follows the final dot, and an epoch is split off the
/// version exactly when the segment starts with digits followed by a colon
/// and a non-empty remainder.
pub open spec fn nevra_parse(s: Seq<char>) -> Option<NevraModel> {
    let h1 = rfind(s, '-');
    if h1 < 0 {
        None
    } else {
        let h2 = rfind(s.take(h1), '-');
        if h2 < 0 {
            None
        } else {
            let mid = s.subrange(h2 + 1, h1);
            let tail = s.subrange(h1 + 1, s.len() as int);
            if mid.len() == 0 {
                None
            } else {
                let p = rfind(tail, '.');
                if p < 1 {
                    None
                } else {
                    let arch = tail.subrange(p + 1, tail.len() as int);
                    if arch.len() == 0 || !all_arch_chars(arch) {
                        None
                    } else {
                        let d = digit_prefix_len(mid);
                        if 1 <= d && d + 1 < mid.len() && mid[d] == ':' {
                            Some(NevraModel {
                                name: s.take(h2),
                                epoch: Some(mid.take(d)),
                                version: mid.subrange(d + 1, mid.len() as int),
                                release: tail.take(p),
                                arch: arch,
                            })
                        } else {
                            Some(NevraModel {
                                name: s.take(h2),
                                epoch: None,
                                version: mid,
                                release: tail.take(p),
                                arch: arch,
                            })
                        }
                    }
                }
            }
        }
    }
}

/// Field shapes the grammar guarantees: non-empty version and release
/// without hyphens, a non-empty lowercase architecture token, and an
/// all-digit epoch when one is present.
pub open spec fn nevra_wf(m: NevraModel) -> bool {
    &&& m.version.len() >= 1 && !m.version.contains('-')
    &&& m.release.len() >= 1 && !m.release.contains('-')
    &&& m.arch.len() >= 1 && all_arch_chars(m.arch)
    &&& match m.epoch {
        Some(e) => e.len() >= 1 && all_digits(e),
        None => true,
    }
}

/// Soundness of the parser: whatever it accepts is well-formed and
/// reassembles, through the canonical string form, to the exact input.
pub proof fn lemma_nevra_parse_sound(s: Seq<char>, m: NevraModel)
    requires
        nevra_parse(s) == Some(m),
    ensures
        nevra_wf(m),
        nevra_str(m) == s,
{
    let h1 = rfind(s, '-');
    let h2 = rfind(s.take(h1), '-');
    let mid = s.subrange(h2 + 1, h1);
    let tail = s.subrange(h1 + 1, s.len() as int);
    let p = rfind(tail, '.');
    let arch = tail.subrange(p + 1, tail.len() as int);
    let d = digit_prefix_len(mid);
    lemma_rfind_props(s, '-');
    lemma_rfind_props(s.take(h1), '-');
    lemma_rfind_props(tail, '.');
    lemma_digit_prefix_props(mid);
    assert(s[h1] == '-');
    assert(s.take(h1)[h2] == '-');
    assert(s[h2] == '-');
    assert(tail[p] == '.');
    // no hyphen strictly between the separators, nor after the last one
    assert forall|j: int| h2 < j < h1 implies s[j] != '-' by {
        assert(s.take(h1)[j] == s[j]);
    }
    assert forall|j: int| 0 <= j < mid.len() implies mid[j] != '-' by {
        assert(mid[j] == s[h2 + 1 + j]);
    }
    assert forall|j: int| 0 <= j < tail.len() implies tail[j] != '-' by {
        assert(tail[j] == s[h1 + 1 + j]);
    }
    assert(!m.release.contains('-')) by {
        if m.release.contains('-') {
            let k = choose|k: int| 0 <= k < m.release.len() && m.release[k] == '-';
            assert(tail[k] == '-');
        }
    }
    if 1 <= d && d + 1 < mid.len() && mid[d] == ':' {
        // the epoch splits off the middle segment
        assert(m.version == mid.subrange(d + 1, mid.len() as int));
        assert(!m.version.contains('-')) by {
            if m.version.contains('-') {
                let k = choose|k: int| 0 <= k < m.version.len() && m.version[k] == '-';
                assert(mid[d + 1 + k] == '-');
            }
        }
        assert(nevra_str(m) =~= s) by {
            assert forall|i: int| 0 <= i < s.len() implies nevra_str(m)[i] == s[i] by {
                let e = m.epoch->0;
                if i < h2 {
                    assert(nevra_str(m)[i] == m.name[i]);
                    assert(m.name[i] == s[i]);
                } else if i == h2 {
                    assert(nevra_str(m)[i] == '-');
                } else if i < h2 + 1 + d {
                    assert(nevra_str(m)[i] == e[i - h2 - 1]);
                    assert(e[i - h2 - 1] == mid[i - h2 - 1]);
                    assert(mid[i - h2 - 1] == s[i]);
                } else if i == h2 + 1 + d {
                    assert(nevra_str(m)[i] == ':');
                    assert(mid[d] == s[i]);
                } else if i < h1 {
                    assert(nevra_str(m)[i] == m.version[i - (h2 + 1 + d + 1)]);
                    assert(m.version[i - (h2 + 1 + d + 1)] == mid[i - h2 - 1]);
                    assert(mid[i - h2 - 1] == s[i]);
                } else if i == h1 {
                    assert(nevra_str(m)[i] == '-');
                } else if i < h1 + 1 + p {
                    assert(nevra_str(m)[i] == m.release[i - h1 - 1]);
                    assert(m.release[i - h1 - 1] == tail[i - h1 - 1]);
                    assert(tail[i - h1 - 1] == s[i]);
                } else if i == h1 + 1 + p {
                    assert(nevra_str(m)[i] == '.');
                    assert(tail[p] == s[i]);
                } else {
                    assert(nevra_str(m)[i] == m.arch[i - (h1 + 1 + p + 1)]);
                    assert(m.arch[i - (h1 + 1 + p + 1)] == tail[i - h1 - 1]);
                    assert(tail[i - h1 - 1] == s[i]);
                }
            }
        }
    } else {
        assert(m.version == mid);
        assert(nevra_str(m) =~= s) by {
            assert forall|i: int| 0 <= i < s.len() implies nevra_str(m)[i] == s[i] by {
                if i < h2 {
                    assert(nevra_str(m)[i] == m.name[i]);
                    assert(m.name[i] == s[i]);
                } else if i == h2 {
                    assert(nevra_str(m)[i] == '-');
                } else if i < h1 {
                    assert(nevra_str(m)[i] == m.version[i - h2 - 1]);
                    assert(m.version[i - h2 - 1] == s[i]);
                } else if i == h1 {
                    assert(nevra_str(m)[i] == '-');
                } else if i < h1 + 1 + p {
                    assert(nevra_str(m)[i] == m.release[i - h1 - 1]);
                    assert(m.release[i - h1 - 1] == tail[i - h1 - 1]);
                    assert(tail[i - h1 - 1] == s[i]);
                } else if i == h1 + 1 + p {
                    assert(nevra_str(m)[i] == '.');
                    assert(tail[p] == s[i]);
                } else {
                    assert(nevra_str(m)[i] == m.arch[i - (h1 + 1 + p + 1)]);
                    assert(m.arch[i - (h1 + 1 + p + 1)] == tail[i - h1 - 1]);
                    assert(tail[i - h1 - 1] == s[i]);
                }
            }
        }
    }
}

/// The epoch part of the canonical string: `epoch:` or nothing.
pub open spec fn opt_epoch_str(e: Option<Seq<char>>) -> Seq<char> {
    match e {
        Some(x) => x + seq![':'],
        None => Seq::empty(),
    }
}

/// The canonical string form `name-[epoch:]version-release.arch`.
pub open spec fn nevra_str(m: NevraModel) -> Seq<char> {
    m.name + seq!['-'] + opt_epoch_str(m.epoch) + m.version + seq!['-'] + m.release + seq!['.']
        + m.arch
}

/// The (epoch, version, release) tuple a [`Nevra`] denotes: a numeric epoch
/// is read from its digit string, anything else counts as zero.
pub open spec fn evr_of(m: NevraModel) -> EvrModel {
    EvrModel {
        epoch: match m.epoch {
            Some(e) => if e.len() > 0 && all_digits(e) && dec_val(e) <= u64::MAX {
                dec_val(e) as u64
            } else {
                0
            },
            None => 0,
        },
        version: m.version,
        release: m.release,
    }
}

impl Clone for Nevra {
    /// A clone carries the same five fields.
    fn clone(&self) -> (r: Nevra)
        ensures
            r@ == self@,
    {
        Nevra {
            name: self.name.clone(),
            epoch: match &self.epoch {
                Some(e) => Some(e.clone()),
                None => None,
            },
            version: self.version.clone(),
            release: self.release.clone(),
            arch: self.arch.clone(),
        }
    }
}

impl Nevra {
    /// Parses the canonical NEVRA string form.
    pub fn parse(s: &str) -> (r: Option<Nevra>)
        ensures
            r is Some <==> nevra_parse(s@) is Some,
            r is Some ==> (r->0)@ == nevra_parse(s@)->0,
    {
        let n = s.unicode_len();
        proof {
            assert(s@.take(n as int) =~= s@);
        }
        let h1 = match rfind_in_prefix(s, '-', n) {
            Some(i) => i,
            None => {
                return None;
            },
        };
        let h2 = match rfind_in_prefix(s, '-', h1) {
            Some(i) => i,
            None => {
                return None;
            },
        };
        if h1 - h2 <= 1 {
            // empty segment between the last two hyphens
            proof {
                assert(s@.subrange(h2 + 1, h1 as int).len() == 0);
            }
            return None;
        }
        let mid = s.substring_char(h2 + 1, h1);
        let tail = s.substring_char(h1 + 1, n);
        let ghost tail_s = s@.subrange(h1 + 1, s@.len() as int);
        let tn = tail.unicode_len();
        proof {
            assert(tail@.take(tn as int) =~= tail_s);
        }
        let p = match rfind_in_prefix(tail, '.', tn) {
            Some(i) => i,
            None => {
                return None;
            },
        };
        if p == 0 {
            return None;
        }
        let arch = tail.substring_char(p + 1, tn);
        let an = arch.unicode_len();
        if an == 0 {
            return None;
        }
        if !check_arch_chars(arch) {
            return None;
        }
        let mn = mid.unicode_len();
        let d = digit_prefix(mid);
        let release = tail.substring_char(0, p);
        let name = s.substring_char(0, h2);
        if 1 <= d && d + 1 < mn && mid.get_char(d) == ':' {
            let epoch = mid.substring_char(0, d);
            let version = mid.substring_char(d + 1, mn);
            Some(Nevra {
                name: name.to_owned(),
                epoch: Some(epoch.to_owned()),
                version: version.to_owned(),
                release: release.to_owned(),
                arch: arch.to_owned(),
            })
        } else {
            Some(Nevra {
                name: name.to_owned(),
                epoch: None,
                version: mid.to_owned(),
                release: release.to_owned(),
                arch: arch.to_owned(),
            })
        }
    }

    /// Builds the identity of a known build from its interned parts; the
    /// epoch is always present, rendered in decimal.
    pub fn from_name_evr_arch(name: String, evr: Evr, arch: String) -> (r: Nevra)
        ensures
            r@ == (NevraModel {
                name: name@,
                epoch: Some(dec_digits(evr.0 as nat)),
                version: evr@.version,
                release: evr@.release,
                arch: arch@,
            }),
    {
        let Evr(epoch, version, release) = evr;
        Nevra { name, epoch: Some(u64_to_string(epoch)), version, release, arch }
    }

    /// The (epoch, version, release) tuple of this identity.
    pub fn evr(&self) -> (r: Evr)
        ensures
            r@ == evr_of(self@),
    {
        let epoch: u64 = match &self.epoch {
            Some(e) => match parse_u64(e.as_str()) {
                Some(v) => v,
                None => 0,
            },
            None => 0,
        };
        Evr(epoch, self.version.clone(), self.release.clone())
    }

    /// The canonical string form `name-[epoch:]version-release.arch`.
    pub fn to_string(&self) -> (r: String)
        ensures
            r@ == nevra_str(self@),
    {
        proof {
            reveal_strlit("-");
            reveal_strlit(":");
            reveal_strlit(".");
        }
        let mut r = String::new();
        r.append(self.name.as_str());
        r.append("-");
        match &self.epoch {
            Some(e) => {
                r.append(e.as_str());
                r.append(":");
            },
            None => {},
        }
        r.append(self.version.as_str());
        r.append("-");
        r.append(self.release.as_str());
        r.append(".");
        r.append(self.arch.as_str());
        proof {
            assert(r@ =~= nevra_str(self@));
        }
        r
    }
}

} // verus!

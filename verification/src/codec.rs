//! The row codec: a self-describing text encoding for snapshot row values.
//!
//! A row is a sequence of colon-terminated tokens: a number is its decimal
//! digits, a string is a length token followed by its characters, an absent
//! optional field is `-`, and a list or table is a count token followed by
//! its elements. Every row type round-trips through this codec.

use vstd::prelude::*;
use crate::cache::{Evr, Package, Repo, UpdatesIndex};
use crate::strutil::{dec_digits, dec_val, digit_prefix, digit_prefix_len, u64_to_string};
use crate::tables::IdMap;

verus! {

/// Reads one number token (digits then `:`) at position `i`.
pub open spec fn tok_u64(s: Seq<char>, i: int) -> Option<(u64, int)> {
    let rest = s.subrange(i, s.len() as int);
    let d = digit_prefix_len(rest);
    if 1 <= d && i + d < s.len() && s[i + d] == ':' && dec_val(rest.take(d)) <= u64::MAX {
        Some(((dec_val(rest.take(d)) as u64), i + d + 1))
    } else {
        None
    }
}

/// Reads one string token (length, then characters, then `:`).
pub open spec fn tok_str(s: Seq<char>, i: int) -> Option<(Seq<char>, int)> {
    match tok_u64(s, i) {
        None => None,
        Some((len, j)) => if j + len + 1 <= s.len() && s[j + len] == ':' {
            Some((s.subrange(j, j + len), j + len + 1))
        } else {
            None
        },
    }
}

/// Reads one optional number token: `-:` stands for absent.
pub open spec fn tok_opt_u64(s: Seq<char>, i: int) -> Option<(Option<u64>, int)> {
    if 0 <= i && i + 2 <= s.len() && s[i] == '-' && s[i + 1] == ':' {
        Some((None, i + 2))
    } else {
        match tok_u64(s, i) {
            None => None,
            Some((v, j)) => Some((Some(v), j)),
        }
    }
}

/// Reads one optional string token: `-:` stands for absent.
pub open spec fn tok_opt_str(s: Seq<char>, i: int) -> Option<(Option<Seq<char>>, int)> {
    if 0 <= i && i + 2 <= s.len() && s[i] == '-' && s[i + 1] == ':' {
        Some((None, i + 2))
    } else {
        match tok_str(s, i) {
            None => None,
            Some((v, j)) => Some((Some(v), j)),
        }
    }
}

/// Reads `count` number tokens in a row.
pub open spec fn tok_u64_seq(s: Seq<char>, i: int, count: int) -> Option<(Seq<u64>, int)>
    decreases count,
{
    if count <= 0 {
        Some((Seq::empty(), i))
    } else {
        match tok_u64(s, i) {
            None => None,
            Some((v, j)) => match tok_u64_seq(s, j, count - 1) {
                None => None,
                Some((vs, k)) => Some((seq![v] + vs, k)),
            },
        }
    }
}

/// Reads a count-prefixed list of numbers.
pub open spec fn tok_u64_list(s: Seq<char>, i: int) -> Option<(Seq<u64>, int)> {
    match tok_u64(s, i) {
        None => None,
        Some((count, j)) => tok_u64_seq(s, j, count as int),
    }
}

/// Extending a token run by one token appends its value.
#[verifier::rlimit(100)]
#[verifier::spinoff_prover]
proof fn lemma_tok_u64_seq_snoc(s: Seq<char>, i: int, count: int)
    requires
        count >= 0,
    ensures
        match tok_u64_seq(s, i, count) {
            Some((vs, k)) => match tok_u64(s, k) {
                Some((v, k2)) => tok_u64_seq(s, i, count + 1) == Some((vs.push(v), k2)),
                None => tok_u64_seq(s, i, count + 1) is None,
            },
            None => tok_u64_seq(s, i, count + 1) is None,
        },
    decreases count,
{
    reveal_with_fuel(tok_u64_seq, 3);
    if count == 0 {
        match tok_u64(s, i) {
            Some((v, k2)) => {
                assert(seq![v] + Seq::<u64>::empty() =~= Seq::<u64>::empty().push(v));
            },
            None => {},
        }
    } else {
        match tok_u64(s, i) {
            None => {},
            Some((v, j)) => {
                lemma_tok_u64_seq_snoc(s, j, count - 1);
                match tok_u64_seq(s, j, count - 1) {
                    None => {},
                    Some((vs, k)) => {
                        match tok_u64(s, k) {
                            Some((w, k2)) => {
                                assert(seq![v] + vs.push(w) =~= (seq![v] + vs).push(w));
                            },
                            None => {},
                        }
                    },
                }
            },
        }
    }
}

/// Reads one number token.
pub fn read_u64(s: &str, pos: usize) -> (r: Option<(u64, usize)>)
    requires
        pos <= s@.len(),
    ensures
        match r {
            Some(p) => tok_u64(s@, pos as int) == Some((p.0, p.1 as int)) && pos < p.1 <= s@.len(),
            None => tok_u64(s@, pos as int) is None,
        },
{
    let n = s.unicode_len();
    let rest = s.substring_char(pos, n);
    let d = digit_prefix(rest);
    if d == 0 {
        return None;
    }
    if pos + d >= n {
        return None;
    }
    if s.get_char(pos + d) != ':' {
        return None;
    }
    let num = rest.substring_char(0, d);
    proof {
        assert(num@ =~= rest@.take(d as int));
        crate::strutil::lemma_digit_prefix_props(rest@);
        assert(crate::strutil::all_digits(num@));
    }
    match crate::strutil::parse_u64(num) {
        Some(v) => Some((v, pos + d + 1)),
        None => None,
    }
}

/// Reads one string token.
pub fn read_str(s: &str, pos: usize) -> (r: Option<(String, usize)>)
    requires
        pos <= s@.len(),
    ensures
        match r {
            Some(p) => {
                &&& tok_str(s@, pos as int) is Some
                &&& p.0@ == (tok_str(s@, pos as int)->0).0
                &&& p.1 as int == (tok_str(s@, pos as int)->0).1
                &&& pos < p.1 <= s@.len()
            },
            None => tok_str(s@, pos as int) is None,
        },
{
    let n = s.unicode_len();
    let (len, j) = match read_u64(s, pos) {
        Some(p) => p,
        None => {
            return None;
        },
    };
    let rem = (n - j) as u64;
    if len >= rem {
        return None;
    }
    let k = j + (len as usize);
    if s.get_char(k) != ':' {
        return None;
    }
    let v = s.substring_char(j, k);
    Some((v.to_owned(), k + 1))
}

/// Reads one optional number token.
pub fn read_opt_u64(s: &str, pos: usize) -> (r: Option<(Option<u64>, usize)>)
    requires
        pos <= s@.len(),
    ensures
        match r {
            Some(p) => tok_opt_u64(s@, pos as int) == Some((p.0, p.1 as int)) && pos < p.1
                <= s@.len(),
            None => tok_opt_u64(s@, pos as int) is None,
        },
{
    let n = s.unicode_len();
    if n - pos >= 2 {
        if s.get_char(pos) == '-' && s.get_char(pos + 1) == ':' {
            return Some((None, pos + 2));
        }
    }
    match read_u64(s, pos) {
        Some((v, j)) => Some((Some(v), j)),
        None => None,
    }
}

/// Reads one optional string token.
pub fn read_opt_str(s: &str, pos: usize) -> (r: Option<(Option<String>, usize)>)
    requires
        pos <= s@.len(),
    ensures
        match r {
            Some(p) => {
                &&& tok_opt_str(s@, pos as int) is Some
                &&& (match p.0 {
                    Some(v) => (tok_opt_str(s@, pos as int)->0).0 is Some && v@ == ((tok_opt_str(
                        s@,
                        pos as int,
                    )->0).0)->0,
                    None => (tok_opt_str(s@, pos as int)->0).0 is None,
                })
                &&& p.1 as int == (tok_opt_str(s@, pos as int)->0).1
                &&& pos < p.1 <= s@.len()
            },
            None => tok_opt_str(s@, pos as int) is None,
        },
{
    let n = s.unicode_len();
    if n - pos >= 2 {
        if s.get_char(pos) == '-' && s.get_char(pos + 1) == ':' {
            return Some((None, pos + 2));
        }
    }
    match read_str(s, pos) {
        Some((v, j)) => Some((Some(v), j)),
        None => None,
    }
}

/// Reads a count-prefixed list of numbers.
pub fn read_u64_list(s: &str, pos: usize) -> (r: Option<(Vec<u64>, usize)>)
    requires
        pos <= s@.len(),
    ensures
        match r {
            Some(p) => {
                &&& tok_u64_list(s@, pos as int) is Some
                &&& p.0@ == (tok_u64_list(s@, pos as int)->0).0
                &&& p.1 as int == (tok_u64_list(s@, pos as int)->0).1
                &&& pos < p.1 <= s@.len()
            },
            None => tok_u64_list(s@, pos as int) is None,
        },
{
    let (count, start) = match read_u64(s, pos) {
        Some(p) => p,
        None => {
            return None;
        },
    };
    let mut out: Vec<u64> = Vec::new();
    let mut cur: usize = start;
    let mut t: u64 = 0;
    while t < count
        invariant
            0 <= t <= count,
            start <= cur <= s@.len(),
            tok_u64_seq(s@, start as int, t as int) == Some((out@, cur as int)),
            tok_u64(s@, pos as int) == Some((count, start as int)),
            pos < start <= s@.len(),
        decreases count - t,
    {
        proof {
            lemma_tok_u64_seq_snoc(s@, start as int, t as int);
        }
        match read_u64(s, cur) {
            Some((v, j)) => {
                out.push(v);
                cur = j;
            },
            None => {
                proof {
                    lemma_tok_seq_err_propagates(s@, start as int, t as int + 1, count as int);
                }
                return None;
            },
        }
        t = t + 1;
    }
    Some((out, cur))
}

/// Once a token run fails, every longer run fails too.
proof fn lemma_tok_seq_err_propagates(s: Seq<char>, i: int, m: int, count: int)
    requires
        0 <= m <= count,
        tok_u64_seq(s, i, m) is None,
    ensures
        tok_u64_seq(s, i, count) is None,
    decreases count - m,
{
    if m < count {
        lemma_tok_u64_seq_snoc(s, i, m);
        lemma_tok_seq_err_propagates(s, i, m + 1, count);
    }
}

/// A whole row holding one number.
pub open spec fn dec_u64_row(s: Seq<char>) -> Option<u64> {
    match tok_u64(s, 0) {
        Some((v, j)) => if j == s.len() {
            Some(v)
        } else {
            None
        },
        None => None,
    }
}

/// Decodes a whole row holding one number.
pub fn decode_u64_row(s: &str) -> (r: Option<u64>)
    ensures
        r == dec_u64_row(s@),
{
    let n = s.unicode_len();
    match read_u64(s, 0) {
        Some((v, j)) => if j == n {
            Some(v)
        } else {
            None
        },
        None => None,
    }
}

/// A whole row holding one string.
pub open spec fn dec_str_row(s: Seq<char>) -> Option<Seq<char>> {
    match tok_str(s, 0) {
        Some((v, j)) => if j == s.len() {
            Some(v)
        } else {
            None
        },
        None => None,
    }
}

/// Decodes a whole row holding one string.
pub fn decode_str_row(s: &str) -> (r: Option<String>)
    ensures
        r is Some <==> dec_str_row(s@) is Some,
        r is Some ==> (r->0)@ == dec_str_row(s@)->0,
{
    let n = s.unicode_len();
    match read_str(s, 0) {
        Some((v, j)) => if j == n {
            Some(v)
        } else {
            None
        },
        None => None,
    }
}

/// A whole row holding a list of numbers.
pub open spec fn dec_u64_list_row(s: Seq<char>) -> Option<Seq<u64>> {
    match tok_u64_list(s, 0) {
        Some((vs, j)) => if j == s.len() {
            Some(vs)
        } else {
            None
        },
        None => None,
    }
}

/// Decodes a whole row holding a list of numbers.
pub fn decode_u64_list_row(s: &str) -> (r: Option<Vec<u64>>)
    ensures
        r is Some <==> dec_u64_list_row(s@) is Some,
        r is Some ==> (r->0)@ == dec_u64_list_row(s@)->0,
{
    let n = s.unicode_len();
    match read_u64_list(s, 0) {
        Some((vs, j)) => if j == n {
            Some(vs)
        } else {
            None
        },
        None => None,
    }
}

/// A whole row holding an (epoch, version, release) tuple.
pub open spec fn dec_evr_row(s: Seq<char>) -> Option<crate::cache::EvrModel> {
    match tok_u64(s, 0) {
        None => None,
        Some((ep, i1)) => match tok_str(s, i1) {
            None => None,
            Some((ver, i2)) => match tok_str(s, i2) {
                None => None,
                Some((rel, i3)) => if i3 == s.len() {
                    Some(crate::cache::EvrModel { epoch: ep, version: ver, release: rel })
                } else {
                    None
                },
            },
        },
    }
}

/// Decodes a whole row holding an (epoch, version, release) tuple.
pub fn decode_evr_row(s: &str) -> (r: Option<Evr>)
    ensures
        r is Some <==> dec_evr_row(s@) is Some,
        r is Some ==> (r->0)@ == dec_evr_row(s@)->0,
{
    let n = s.unicode_len();
    let (ep, i1) = match read_u64(s, 0) {
        Some(p) => p,
        None => {
            return None;
        },
    };
    let (ver, i2) = match read_str(s, i1) {
        Some(p) => p,
        None => {
            return None;
        },
    };
    let (rel, i3) = match read_str(s, i2) {
        Some(p) => p,
        None => {
            return None;
        },
    };
    if i3 != n {
        return None;
    }
    Some(Evr(ep, ver, rel))
}

/// A whole row holding a package record.
pub open spec fn dec_package_row(s: Seq<char>) -> Option<crate::cache::PackageModel> {
    match tok_u64(s, 0) {
        None => None,
        Some((name_id, i1)) => match tok_u64(s, i1) {
            None => None,
            Some((evr_id, i2)) => match tok_u64(s, i2) {
                None => None,
                Some((arch_id, i3)) => match tok_opt_u64(s, i3) {
                    None => None,
                    Some((source_pkg_id, i4)) => match tok_opt_str(s, i4) {
                        None => None,
                        Some((summary, i5)) => match tok_opt_str(s, i5) {
                            None => None,
                            Some((desc, i6)) => if i6 == s.len() {
                                Some(crate::cache::PackageModel {
                                    name_id,
                                    evr_id,
                                    arch_id,
                                    summary,
                                    desc,
                                    source_pkg_id,
                                })
                            } else {
                                None
                            },
                        },
                    },
                },
            },
        },
    }
}

/// Decodes a whole row holding a package record.
pub fn decode_package_row(s: &str) -> (r: Option<Package>)
    ensures
        r is Some <==> dec_package_row(s@) is Some,
        r is Some ==> (r->0)@ == dec_package_row(s@)->0,
{
    let n = s.unicode_len();
    let (name_id, i1) = match read_u64(s, 0) {
        Some(p) => p,
        None => {
            return None;
        },
    };
    let (evr_id, i2) = match read_u64(s, i1) {
        Some(p) => p,
        None => {
            return None;
        },
    };
    let (arch_id, i3) = match read_u64(s, i2) {
        Some(p) => p,
        None => {
            return None;
        },
    };
    let (source_pkg_id, i4) = match read_opt_u64(s, i3) {
        Some(p) => p,
        None => {
            return None;
        },
    };
    let (summary, i5) = match read_opt_str(s, i4) {
        Some(p) => p,
        None => {
            return None;
        },
    };
    let (desc, i6) = match read_opt_str(s, i5) {
        Some(p) => p,
        None => {
            return None;
        },
    };
    if i6 != n {
        return None;
    }
    Some(Package { name_id, evr_id, arch_id, summary, desc, source_pkg_id })
}

/// A whole row holding a repository record.
pub open spec fn dec_repo_row(s: Seq<char>) -> Option<crate::cache::RepoModel> {
    match tok_str(s, 0) {
        None => None,
        Some((label, i1)) => match tok_str(s, i1) {
            None => None,
            Some((name, i2)) => match tok_str(s, i2) {
                None => None,
                Some((url, i3)) => match tok_opt_str(s, i3) {
                    None => None,
                    Some((basearch, i4)) => match tok_opt_str(s, i4) {
                        None => None,
                        Some((releasever, i5)) => match tok_opt_str(s, i5) {
                            None => None,
                            Some((product, i6)) => match tok_opt_u64(s, i6) {
                                None => None,
                                Some((product_id, i7)) => if i7 == s.len() {
                                    Some(crate::cache::RepoModel {
                                        label,
                                        name,
                                        url,
                                        basearch,
                                        releasever,
                                        product,
                                        product_id,
                                    })
                                } else {
                                    None
                                },
                            },
                        },
                    },
                },
            },
        },
    }
}

/// Decodes a whole row holding a repository record.
pub fn decode_repo_row(s: &str) -> (r: Option<Repo>)
    ensures
        r is Some <==> dec_repo_row(s@) is Some,
        r is Some ==> (r->0)@ == dec_repo_row(s@)->0,
{
    let n = s.unicode_len();
    let (label, i1) = match read_str(s, 0) {
        Some(p) => p,
        None => {
            return None;
        },
    };
    let (name, i2) = match read_str(s, i1) {
        Some(p) => p,
        None => {
            return None;
        },
    };
    let (url, i3) = match read_str(s, i2) {
        Some(p) => p,
        None => {
            return None;
        },
    };
    let (basearch, i4) = match read_opt_str(s, i3) {
        Some(p) => p,
        None => {
            return None;
        },
    };
    let (releasever, i5) = match read_opt_str(s, i4) {
        Some(p) => p,
        None => {
            return None;
        },
    };
    let (product, i6) = match read_opt_str(s, i5) {
        Some(p) => p,
        None => {
            return None;
        },
    };
    let (product_id, i7) = match read_opt_u64(s, i6) {
        Some(p) => p,
        None => {
            return None;
        },
    };
    if i7 != n {
        return None;
    }
    Some(Repo { label, name, url, basearch, releasever, product, product_id })
}

/// Reads `count` (key, id list) entries in a row.
pub open spec fn tok_index_entries(s: Seq<char>, i: int, count: int) -> Option<
    (Seq<(u64, Seq<u64>)>, int),
>
    decreases count,
{
    if count <= 0 {
        Some((Seq::empty(), i))
    } else {
        match tok_u64(s, i) {
            None => None,
            Some((k, j)) => match tok_u64_list(s, j) {
                None => None,
                Some((vs, j2)) => match tok_index_entries(s, j2, count - 1) {
                    None => None,
                    Some((es, j3)) => Some((seq![(k, vs)] + es, j3)),
                },
            },
        }
    }
}

/// Extending an entry run by one entry appends it.
#[verifier::rlimit(100)]
#[verifier::spinoff_prover]
proof fn lemma_tok_index_entries_snoc(s: Seq<char>, i: int, count: int)
    requires
        count >= 0,
    ensures
        match tok_index_entries(s, i, count) {
            Some(p) => match tok_u64(s, p.1) {
                Some((k, j)) => match tok_u64_list(s, j) {
                    Some((vs, j2)) => tok_index_entries(s, i, count + 1) == Some(
                        (p.0.push((k, vs)), j2),
                    ),
                    None => tok_index_entries(s, i, count + 1) is None,
                },
                None => tok_index_entries(s, i, count + 1) is None,
            },
            None => tok_index_entries(s, i, count + 1) is None,
        },
    decreases count,
{
    reveal_with_fuel(tok_index_entries, 3);
    if count == 0 {
        match tok_u64(s, i) {
            Some((k, j)) => match tok_u64_list(s, j) {
                Some((vs, j2)) => {
                    assert(seq![(k, vs)] + Seq::<(u64, Seq<u64>)>::empty() =~= Seq::<
                        (u64, Seq<u64>),
                    >::empty().push((k, vs)));
                },
                None => {},
            },
            None => {},
        }
    } else {
        match tok_u64(s, i) {
            None => {},
            Some((k0, j0)) => {
                match tok_u64_list(s, j0) {
                    None => {},
                    Some((vs0, j1)) => {
                        lemma_tok_index_entries_snoc(s, j1, count - 1);
                        match tok_index_entries(s, j1, count - 1) {
                            None => {},
                            Some((es, j2)) => {
                                match tok_u64(s, j2) {
                                    None => {},
                                    Some((k, j3)) => match tok_u64_list(s, j3) {
                                        None => {},
                                        Some((vs, j4)) => {
                                            assert(seq![(k0, vs0)] + es.push((k, vs)) =~= (seq![
                                                (k0, vs0),
                                            ] + es).push((k, vs)));
                                        },
                                    },
                                }
                            },
                        }
                    },
                }
            },
        }
    }
}

/// Once an entry run fails, every longer run fails too.
proof fn lemma_tok_index_err_propagates(s: Seq<char>, i: int, m: int, count: int)
    requires
        0 <= m <= count,
        tok_index_entries(s, i, m) is None,
    ensures
        tok_index_entries(s, i, count) is None,
    decreases count - m,
{
    if m < count {
        lemma_tok_index_entries_snoc(s, i, m);
        lemma_tok_index_err_propagates(s, i, m + 1, count);
    }
}

/// The map the entry list denotes: later entries shadow earlier ones.
pub open spec fn index_entries_model(es: Seq<(u64, Seq<u64>)>) -> Map<u64, Seq<u64>>
    decreases es.len(),
{
    if es.len() == 0 {
        Map::empty()
    } else {
        index_entries_model(es.drop_last()).insert(es.last().0, es.last().1)
    }
}

/// A whole row holding an update-chain position index.
pub open spec fn dec_index_row(s: Seq<char>) -> Option<Map<u64, Seq<u64>>> {
    match tok_u64(s, 0) {
        None => None,
        Some((count, j)) => match tok_index_entries(s, j, count as int) {
            None => None,
            Some((es, k)) => if k == s.len() {
                Some(index_entries_model(es))
            } else {
                None
            },
        },
    }
}

/// Decodes a whole row holding an update-chain position index.
pub fn decode_index_row(s: &str) -> (r: Option<UpdatesIndex>)
    ensures
        r is Some <==> dec_index_row(s@) is Some,
        r is Some ==> (r->0)@ == dec_index_row(s@)->0,
{
    let n = s.unicode_len();
    let (count, start) = match read_u64(s, 0) {
        Some(p) => p,
        None => {
            return None;
        },
    };
    let mut data: IdMap<Vec<u64>> = IdMap::new();
    let mut cur: usize = start;
    let mut t: u64 = 0;
    let ghost sv = s@;
    proof {
        assert(crate::cache::vec_map_view(data@) =~= index_entries_model(Seq::empty()));
    }
    while t < count
        invariant
            0 <= t <= count,
            start <= cur <= sv.len(),
            sv == s@,
            tok_u64(sv, 0) == Some((count, start as int)),
            tok_index_entries(sv, start as int, t as int) is Some,
            (tok_index_entries(sv, start as int, t as int)->0).1 == cur as int,
            crate::cache::vec_map_view(data@) == index_entries_model(
                (tok_index_entries(sv, start as int, t as int)->0).0,
            ),
        decreases count - t,
    {
        proof {
            lemma_tok_index_entries_snoc(sv, start as int, t as int);
        }
        let (k, j) = match read_u64(s, cur) {
            Some(p) => p,
            None => {
                proof {
                    lemma_tok_index_err_propagates(sv, start as int, t as int + 1, count as int);
                }
                return None;
            },
        };
        let (vs, j2) = match read_u64_list(s, j) {
            Some(p) => p,
            None => {
                proof {
                    lemma_tok_index_err_propagates(sv, start as int, t as int + 1, count as int);
                }
                return None;
            },
        };
        let ghost prev = data@;
        let ghost es_prev = (tok_index_entries(sv, start as int, t as int)->0).0;
        data.insert(k, vs);
        proof {
            crate::cache::lemma_vec_map_view_insert(prev, k, vs);
            assert(es_prev.push((k, vs@)).drop_last() =~= es_prev);
        }
        cur = j2;
        t = t + 1;
    }
    if cur != n {
        return None;
    }
    Some(UpdatesIndex { data })
}

/// The encoding of one number token.
pub open spec fn enc_u64(v: u64) -> Seq<char> {
    dec_digits(v as nat).push(':')
}

/// The encoding of one string token.
pub open spec fn enc_str(s: Seq<char>) -> Seq<char> {
    enc_u64(s.len() as u64) + s + seq![':']
}

/// The encoding of one optional number token.
pub open spec fn enc_opt_u64(v: Option<u64>) -> Seq<char> {
    match v {
        Some(x) => enc_u64(x),
        None => seq!['-', ':'],
    }
}

/// The encoding of one optional string token.
pub open spec fn enc_opt_str(v: Option<Seq<char>>) -> Seq<char> {
    match v {
        Some(x) => enc_str(x),
        None => seq!['-', ':'],
    }
}

/// Appends one number token.
pub fn write_u64(out: &mut String, v: u64)
    ensures
        final(out)@ == old(out)@ + enc_u64(v),
{
    proof {
        reveal_strlit(":");
    }
    let d = u64_to_string(v);
    out.append(d.as_str());
    out.append(":");
    proof {
        assert(out@ =~= old(out)@ + enc_u64(v));
    }
}

/// Appends one string token.
pub fn write_str(out: &mut String, s: &str)
    ensures
        final(out)@ == old(out)@ + enc_str(s@),
{
    proof {
        reveal_strlit(":");
    }
    let n = s.unicode_len();
    write_u64(out, n as u64);
    out.append(s);
    out.append(":");
    proof {
        assert(out@ =~= old(out)@ + enc_str(s@));
    }
}

/// Appends one optional number token.
pub fn write_opt_u64(out: &mut String, v: &Option<u64>)
    ensures
        final(out)@ == old(out)@ + enc_opt_u64(*v),
{
    proof {
        reveal_strlit("-:");
    }
    match v {
        Some(x) => write_u64(out, *x),
        None => {
            out.append("-:");
            proof {
                assert(out@ =~= old(out)@ + enc_opt_u64(None));
            }
        },
    }
}

/// Appends one optional string token.
pub fn write_opt_str(out: &mut String, v: &Option<String>)
    ensures
        final(out)@ == old(out)@ + enc_opt_str(crate::cache::opt_view(*v)),
{
    proof {
        reveal_strlit("-:");
    }
    match v {
        Some(x) => write_str(out, x.as_str()),
        None => {
            out.append("-:");
            proof {
                assert(out@ =~= old(out)@ + enc_opt_str(None));
            }
        },
    }
}

/// The encoding of a run of number tokens.
pub open spec fn enc_u64_seq(vs: Seq<u64>) -> Seq<char>
    decreases vs.len(),
{
    if vs.len() == 0 {
        Seq::empty()
    } else {
        enc_u64_seq(vs.drop_last()) + enc_u64(vs.last())
    }
}

/// The encoding of a count-prefixed number list.
pub open spec fn enc_u64_list(vs: Seq<u64>) -> Seq<char> {
    enc_u64(vs.len() as u64) + enc_u64_seq(vs)
}

/// Appends a count-prefixed number list.
pub fn write_u64_list(out: &mut String, vs: &Vec<u64>)
    ensures
        final(out)@ == old(out)@ + enc_u64_list(vs@),
{
    let n = vs.len();
    write_u64(out, n as u64);
    let mut i: usize = 0;
    while i < n
        invariant
            0 <= i <= n,
            n == vs@.len(),
            out@ == old(out)@ + enc_u64(n as u64) + enc_u64_seq(vs@.take(i as int)),
        decreases n - i,
    {
        write_u64(out, vs[i]);
        proof {
            assert(vs@.take(i + 1).drop_last() =~= vs@.take(i as int));
            assert(out@ =~= old(out)@ + enc_u64(n as u64) + enc_u64_seq(vs@.take(i + 1)));
        }
        i = i + 1;
    }
    proof {
        assert(vs@.take(n as int) =~= vs@);
        assert(out@ =~= old(out)@ + enc_u64_list(vs@));
    }
}

/// Builds the row for one number.
pub fn encode_u64_row(v: u64) -> (r: String)
    ensures
        r@ == enc_u64(v),
{
    let mut out = String::new();
    write_u64(&mut out, v);
    proof {
        assert(out@ =~= enc_u64(v));
    }
    out
}

/// Builds the row for one string.
pub fn encode_str_row(s: &str) -> (r: String)
    ensures
        r@ == enc_str(s@),
{
    let mut out = String::new();
    write_str(&mut out, s);
    proof {
        assert(out@ =~= enc_str(s@));
    }
    out
}

/// Builds the row for a list of numbers.
pub fn encode_u64_list_row(vs: &Vec<u64>) -> (r: String)
    ensures
        r@ == enc_u64_list(vs@),
{
    let mut out = String::new();
    write_u64_list(&mut out, vs);
    proof {
        assert(out@ =~= enc_u64_list(vs@));
    }
    out
}

/// The row encoding of an (epoch, version, release) tuple.
pub open spec fn enc_evr_row(m: crate::cache::EvrModel) -> Seq<char> {
    enc_u64(m.epoch) + enc_str(m.version) + enc_str(m.release)
}

/// Builds the row for an (epoch, version, release) tuple.
pub fn encode_evr_row(e: &Evr) -> (r: String)
    ensures
        r@ == enc_evr_row(e@),
{
    let mut out = String::new();
    write_u64(&mut out, e.0);
    write_str(&mut out, e.1.as_str());
    write_str(&mut out, e.2.as_str());
    proof {
        assert(out@ =~= enc_evr_row(e@));
    }
    out
}

/// The row encoding of a package record.
pub open spec fn enc_package_row(m: crate::cache::PackageModel) -> Seq<char> {
    enc_u64(m.name_id) + enc_u64(m.evr_id) + enc_u64(m.arch_id) + enc_opt_u64(m.source_pkg_id)
        + enc_opt_str(m.summary) + enc_opt_str(m.desc)
}

/// Builds the row for a package record.
pub fn encode_package_row(p: &Package) -> (r: String)
    ensures
        r@ == enc_package_row(p@),
{
    let mut out = String::new();
    write_u64(&mut out, p.name_id);
    write_u64(&mut out, p.evr_id);
    write_u64(&mut out, p.arch_id);
    write_opt_u64(&mut out, &p.source_pkg_id);
    write_opt_str(&mut out, &p.summary);
    write_opt_str(&mut out, &p.desc);
    proof {
        assert(out@ =~= enc_package_row(p@));
    }
    out
}

/// The row encoding of a repository record.
pub open spec fn enc_repo_row(m: crate::cache::RepoModel) -> Seq<char> {
    enc_str(m.label) + enc_str(m.name) + enc_str(m.url) + enc_opt_str(m.basearch) + enc_opt_str(
        m.releasever,
    ) + enc_opt_str(m.product) + enc_opt_u64(m.product_id)
}

/// Builds the row for a repository record.
pub fn encode_repo_row(p: &Repo) -> (r: String)
    ensures
        r@ == enc_repo_row(p@),
{
    let mut out = String::new();
    write_str(&mut out, p.label.as_str());
    write_str(&mut out, p.name.as_str());
    write_str(&mut out, p.url.as_str());
    write_opt_str(&mut out, &p.basearch);
    write_opt_str(&mut out, &p.releasever);
    write_opt_str(&mut out, &p.product);
    write_opt_u64(&mut out, &p.product_id);
    proof {
        assert(out@ =~= enc_repo_row(p@));
    }
    out
}

/// The encoding of a run of (key, id list) entries.
pub open spec fn enc_index_entries(es: Seq<(u64, Vec<u64>)>) -> Seq<char>
    decreases es.len(),
{
    if es.len() == 0 {
        Seq::empty()
    } else {
        enc_index_entries(es.drop_last()) + enc_u64(es.last().0) + enc_u64_list(es.last().1@)
    }
}

/// Builds the row for an update-chain position index given its entries.
pub fn encode_index_row(entries: &Vec<(u64, Vec<u64>)>) -> (r: String)
    ensures
        r@ == enc_u64(entries@.len() as u64) + enc_index_entries(entries@),
{
    let n = entries.len();
    let mut out = String::new();
    write_u64(&mut out, n as u64);
    let mut i: usize = 0;
    while i < n
        invariant
            0 <= i <= n,
            n == entries@.len(),
            out@ == enc_u64(n as u64) + enc_index_entries(entries@.take(i as int)),
        decreases n - i,
    {
        write_u64(&mut out, entries[i].0);
        write_u64_list(&mut out, &entries[i].1);
        proof {
            assert(entries@.take(i + 1).drop_last() =~= entries@.take(i as int));
            assert(out@ =~= enc_u64(n as u64) + enc_index_entries(entries@.take(i + 1)));
        }
        i = i + 1;
    }
    proof {
        assert(entries@.take(n as int) =~= entries@);
        assert(out@ =~= enc_u64(n as u64) + enc_index_entries(entries@));
    }
    out
}

/// A number token written at position `i` reads back as its value.
proof fn lemma_tok_u64_at(s: Seq<char>, i: int, v: u64)
    requires
        0 <= i,
        i + enc_u64(v).len() <= s.len(),
        s.subrange(i, i + enc_u64(v).len()) == enc_u64(v),
    ensures
        tok_u64(s, i) == Some((v, i + enc_u64(v).len())),
{
    let ds = dec_digits(v as nat);
    let dl = ds.len() as int;
    crate::strutil::lemma_dec_digits_are_digits(v as nat);
    crate::strutil::lemma_dec_digits_val(v as nat);
    let rest = s.subrange(i, s.len() as int);
    assert forall|j: int| 0 <= j < dl implies crate::strutil::is_digit(#[trigger] rest[j]) by {
        assert(rest[j] == s[i + j]);
        assert(s.subrange(i, i + enc_u64(v).len())[j] == s[i + j]);
        assert(enc_u64(v)[j] == ds[j]);
    }
    assert(rest[dl] == s[i + dl]);
    assert(s.subrange(i, i + enc_u64(v).len())[dl] == s[i + dl]);
    assert(enc_u64(v)[dl] == ':');
    assert(rest[dl] == ':');
    crate::strutil::lemma_digit_prefix_props(rest);
    let dp = crate::strutil::digit_prefix_len(rest);
    if dp < dl {
        assert(crate::strutil::is_digit(rest[dp]));
    } else if dp > dl {
        assert(crate::strutil::is_digit(rest[dl]));
    }
    assert(dp == dl);
    assert(rest.take(dl) =~= ds);
}

/// A string token written at position `i` reads back as its characters.
proof fn lemma_tok_str_at(s: Seq<char>, i: int, t: Seq<char>)
    requires
        0 <= i,
        t.len() <= u64::MAX,
        i + enc_str(t).len() <= s.len(),
        s.subrange(i, i + enc_str(t).len()) == enc_str(t),
    ensures
        tok_str(s, i) == Some((t, i + enc_str(t).len())),
{
    let lv = t.len() as u64;
    let el = enc_u64(lv).len() as int;
    let total = enc_str(t).len() as int;
    assert forall|j: int| 0 <= j < el implies s.subrange(i, i + el)[j] == enc_u64(lv)[j] by {
        assert(s.subrange(i, i + total)[j] == s[i + j]);
        assert(s.subrange(i, i + el)[j] == s[i + j]);
        assert(enc_str(t)[j] == enc_u64(lv)[j]);
    }
    assert(s.subrange(i, i + el) =~= enc_u64(lv));
    lemma_tok_u64_at(s, i, lv);
    let j = i + el;
    crate::strutil::lemma_dec_digits_val(lv as nat);
    assert(s.subrange(i, i + total)[el + t.len()] == s[j + t.len()]);
    assert(enc_str(t)[el + t.len()] == ':');
    assert(s[j + lv] == ':');
    assert forall|k: int| 0 <= k < t.len() implies s.subrange(j, j + lv)[k] == t[k] by {
        assert(s.subrange(i, i + total)[el + k] == s[j + k]);
        assert(enc_str(t)[el + k] == t[k]);
        assert(s.subrange(j, j + lv)[k] == s[j + k]);
    }
    assert(s.subrange(j, j + lv) =~= t);
}

/// A whole one-number row reads back as the number written.
pub proof fn lemma_u64_row_round_trip(v: u64)
    ensures
        dec_u64_row(enc_u64(v)) == Some(v),
{
    let s = enc_u64(v);
    assert(s.subrange(0, s.len() as int) =~= s);
    lemma_tok_u64_at(s, 0, v);
}

/// A whole one-string row reads back as the string written.
pub proof fn lemma_str_row_round_trip(t: Seq<char>)
    requires
        t.len() <= u64::MAX,
    ensures
        dec_str_row(enc_str(t)) == Some(t),
{
    let s = enc_str(t);
    assert(s.subrange(0, s.len() as int) =~= s);
    lemma_tok_str_at(s, 0, t);
}

/// An optional-number token written at position `i` reads back as its
/// value.
proof fn lemma_tok_opt_u64_at(s: Seq<char>, i: int, v: Option<u64>)
    requires
        0 <= i,
        i + enc_opt_u64(v).len() <= s.len(),
        s.subrange(i, i + enc_opt_u64(v).len()) == enc_opt_u64(v),
    ensures
        tok_opt_u64(s, i) == Some((v, i + enc_opt_u64(v).len())),
{
    match v {
        None => {
            assert(s.subrange(i, i + 2)[0] == s[i]);
            assert(s.subrange(i, i + 2)[1] == s[i + 1]);
            assert(s[i] == '-' && s[i + 1] == ':');
        },
        Some(x) => {
            lemma_tok_u64_at(s, i, x);
            crate::strutil::lemma_dec_digits_are_digits(x as nat);
            assert(s.subrange(i, i + enc_u64(x).len())[0] == s[i]);
            assert(enc_u64(x)[0] == dec_digits(x as nat)[0]);
            assert(crate::strutil::is_digit(s[i]));
            assert(s[i] != '-');
        },
    }
}

/// An optional-string token written at position `i` reads back as its
/// characters.
proof fn lemma_tok_opt_str_at(s: Seq<char>, i: int, v: Option<Seq<char>>)
    requires
        0 <= i,
        v is Some ==> v->0.len() <= u64::MAX,
        i + enc_opt_str(v).len() <= s.len(),
        s.subrange(i, i + enc_opt_str(v).len()) == enc_opt_str(v),
    ensures
        tok_opt_str(s, i) == Some((v, i + enc_opt_str(v).len())),
{
    match v {
        None => {
            assert(s.subrange(i, i + 2)[0] == s[i]);
            assert(s.subrange(i, i + 2)[1] == s[i + 1]);
            assert(s[i] == '-' && s[i + 1] == ':');
        },
        Some(t) => {
            lemma_tok_str_at(s, i, t);
            let lv = t.len() as u64;
            crate::strutil::lemma_dec_digits_are_digits(lv as nat);
            assert(s.subrange(i, i + enc_str(t).len())[0] == s[i]);
            assert(enc_str(t)[0] == dec_digits(lv as nat)[0]);
            assert(crate::strutil::is_digit(s[i]));
            assert(s[i] != '-');
        },
    }
}

/// A run of number tokens written at position `i` reads back as the
/// numbers written.
proof fn lemma_tok_u64_seq_enc(s: Seq<char>, i: int, vs: Seq<u64>)
    requires
        0 <= i,
        i + enc_u64_seq(vs).len() <= s.len(),
        s.subrange(i, i + enc_u64_seq(vs).len()) == enc_u64_seq(vs),
    ensures
        tok_u64_seq(s, i, vs.len() as int) == Some((vs, i + enc_u64_seq(vs).len())),
    decreases vs.len(),
{
    if vs.len() == 0 {
    } else {
        let w = vs.drop_last();
        let last = vs.last();
        let ew = enc_u64_seq(w);
        let el = enc_u64(last);
        assert(enc_u64_seq(vs) == ew + el);
        assert forall|j: int| 0 <= j < ew.len() implies s.subrange(i, i + ew.len())[j] == ew[j] by {
            assert(s.subrange(i, i + enc_u64_seq(vs).len())[j] == s[i + j]);
            assert(s.subrange(i, i + ew.len())[j] == s[i + j]);
            assert((ew + el)[j] == ew[j]);
        }
        assert(s.subrange(i, i + ew.len()) =~= ew);
        lemma_tok_u64_seq_enc(s, i, w);
        let k = i + ew.len();
        assert forall|j: int| 0 <= j < el.len() implies s.subrange(k, k + el.len())[j] == el[j] by {
            assert(s.subrange(i, i + enc_u64_seq(vs).len())[ew.len() + j] == s[k + j]);
            assert((ew + el)[ew.len() + j] == el[j]);
            assert(s.subrange(k, k + el.len())[j] == s[k + j]);
        }
        assert(s.subrange(k, k + el.len()) =~= el);
        lemma_tok_u64_at(s, k, last);
        lemma_tok_u64_seq_snoc(s, i, w.len() as int);
        assert(w.push(last) =~= vs);
    }
}

/// A count-prefixed number list written at position `i` reads back as the
/// numbers written.
proof fn lemma_tok_u64_list_at(s: Seq<char>, i: int, vs: Seq<u64>)
    requires
        0 <= i,
        vs.len() <= u64::MAX,
        i + enc_u64_list(vs).len() <= s.len(),
        s.subrange(i, i + enc_u64_list(vs).len()) == enc_u64_list(vs),
    ensures
        tok_u64_list(s, i) == Some((vs, i + enc_u64_list(vs).len())),
{
    let lv = vs.len() as u64;
    let a = enc_u64(lv);
    let b = enc_u64_seq(vs);
    let total = enc_u64_list(vs).len() as int;
    assert forall|j: int| 0 <= j < a.len() implies s.subrange(i, i + a.len())[j] == a[j] by {
        assert(s.subrange(i, i + total)[j] == s[i + j]);
        assert((a + b)[j] == a[j]);
        assert(s.subrange(i, i + a.len())[j] == s[i + j]);
    }
    assert(s.subrange(i, i + a.len()) =~= a);
    lemma_tok_u64_at(s, i, lv);
    let k = i + a.len();
    assert forall|j: int| 0 <= j < b.len() implies s.subrange(k, k + b.len())[j] == b[j] by {
        assert(s.subrange(i, i + total)[a.len() + j] == s[k + j]);
        assert((a + b)[a.len() + j] == b[j]);
        assert(s.subrange(k, k + b.len())[j] == s[k + j]);
    }
    assert(s.subrange(k, k + b.len()) =~= b);
    lemma_tok_u64_seq_enc(s, k, vs);
}

/// A whole number-list row reads back as the list written.
pub proof fn lemma_u64_list_row_round_trip(vs: Seq<u64>)
    requires
        vs.len() <= u64::MAX,
    ensures
        dec_u64_list_row(enc_u64_list(vs)) == Some(vs),
{
    let s = enc_u64_list(vs);
    assert(s.subrange(0, s.len() as int) =~= s);
    lemma_tok_u64_list_at(s, 0, vs);
}

/// The entry list as the parser sees it: each vector by its elements.
pub open spec fn lift_index_entries(es: Seq<(u64, Vec<u64>)>) -> Seq<(u64, Seq<u64>)> {
    es.map_values(|p: (u64, Vec<u64>)| (p.0, p.1@))
}

/// A run of (key, id list) entries written at position `i` reads back as
/// the entries written.
proof fn lemma_tok_index_entries_enc(s: Seq<char>, i: int, es: Seq<(u64, Vec<u64>)>)
    requires
        0 <= i,
        forall|k: int| 0 <= k < es.len() ==> (#[trigger] es[k]).1@.len() <= u64::MAX,
        i + enc_index_entries(es).len() <= s.len(),
        s.subrange(i, i + enc_index_entries(es).len()) == enc_index_entries(es),
    ensures
        tok_index_entries(s, i, es.len() as int) == Some(
            (lift_index_entries(es), i + enc_index_entries(es).len()),
        ),
    decreases es.len(),
{
    if es.len() == 0 {
        assert(lift_index_entries(es) =~= Seq::<(u64, Seq<u64>)>::empty());
    } else {
        let w = es.drop_last();
        let last = es.last();
        let ew = enc_index_entries(w);
        let ek = enc_u64(last.0);
        let el = enc_u64_list(last.1@);
        assert(enc_index_entries(es) == ew + ek + el);
        let total = enc_index_entries(es).len() as int;
        assert(s.subrange(i, i + total) == (ew + ek) + el);
        lemma_concat_segment(s, ew + ek, el, i);
        lemma_concat_segment(s, ew, ek, i);
        assert forall|k: int| 0 <= k < w.len() implies (#[trigger] w[k]).1@.len() <= u64::MAX by {
            assert(es[k] == w[k]);
        }
        lemma_tok_index_entries_enc(s, i, w);
        let j = i + ew.len();
        lemma_tok_u64_at(s, j, last.0);
        let j2 = j + ek.len();
        lemma_tok_u64_list_at(s, j2, last.1@);
        lemma_tok_index_entries_snoc(s, i, w.len() as int);
        assert(lift_index_entries(w).push((last.0, last.1@)) =~= lift_index_entries(es));
    }
}

/// A whole index row reads back as the table its entries denote.
pub proof fn lemma_index_row_round_trip(es: Seq<(u64, Vec<u64>)>)
    requires
        es.len() <= u64::MAX,
        forall|k: int| 0 <= k < es.len() ==> (#[trigger] es[k]).1@.len() <= u64::MAX,
    ensures
        dec_index_row(enc_u64(es.len() as u64) + enc_index_entries(es)) == Some(
            index_entries_model(lift_index_entries(es)),
        ),
{
    let s = enc_u64(es.len() as u64) + enc_index_entries(es);
    let a = enc_u64(es.len() as u64);
    let b = enc_index_entries(es);
    assert(s.subrange(0, s.len() as int) =~= s);
    lemma_concat_segment(s, a, b, 0);
    lemma_tok_u64_at(s, 0, es.len() as u64);
    lemma_tok_index_entries_enc(s, a.len() as int, es);
}

/// A whole package row reads back as the record written.
#[verifier::rlimit(100)]
#[verifier::spinoff_prover]
pub proof fn lemma_package_row_round_trip(m: crate::cache::PackageModel)
    requires
        m.summary is Some ==> m.summary->0.len() <= u64::MAX,
        m.desc is Some ==> m.desc->0.len() <= u64::MAX,
    ensures
        dec_package_row(enc_package_row(m)) == Some(m),
{
    let s = enc_package_row(m);
    let p1 = enc_u64(m.name_id);
    let p2 = enc_u64(m.evr_id);
    let p3 = enc_u64(m.arch_id);
    let p4 = enc_opt_u64(m.source_pkg_id);
    let p5 = enc_opt_str(m.summary);
    let p6 = enc_opt_str(m.desc);
    let l1 = p1.len() as int;
    let l2 = l1 + p2.len();
    let l3 = l2 + p3.len();
    let l4 = l3 + p4.len();
    let l5 = l4 + p5.len();
    let l6 = l5 + p6.len();
    assert(s.subrange(0, l1) =~= p1);
    lemma_tok_u64_at(s, 0, m.name_id);
    assert(s.subrange(l1, l2) =~= p2);
    lemma_tok_u64_at(s, l1, m.evr_id);
    assert(s.subrange(l2, l3) =~= p3);
    lemma_tok_u64_at(s, l2, m.arch_id);
    assert(s.subrange(l3, l4) =~= p4);
    lemma_tok_opt_u64_at(s, l3, m.source_pkg_id);
    assert(s.subrange(l4, l5) =~= p5);
    lemma_tok_opt_str_at(s, l4, m.summary);
    assert(s.subrange(l5, l6) =~= p6);
    lemma_tok_opt_str_at(s, l5, m.desc);
}

/// Splitting one known segment of `s` into its two halves.
proof fn lemma_concat_segment(s: Seq<char>, a: Seq<char>, b: Seq<char>, off: int)
    requires
        0 <= off,
        off + a.len() + b.len() <= s.len(),
        s.subrange(off, off + a.len() + b.len()) == a + b,
    ensures
        s.subrange(off, off + a.len()) == a,
        s.subrange(off + a.len(), off + a.len() + b.len()) == b,
{
    assert forall|j: int| 0 <= j < a.len() implies s.subrange(off, off + a.len())[j] == a[j] by {
        assert(s.subrange(off, off + a.len() + b.len())[j] == s[off + j]);
        assert((a + b)[j] == a[j]);
        assert(s.subrange(off, off + a.len())[j] == s[off + j]);
    }
    assert(s.subrange(off, off + a.len()) =~= a);
    assert forall|j: int|
        0 <= j < b.len() implies s.subrange(off + a.len(), off + a.len() + b.len())[j] == b[j] by {
        assert(s.subrange(off, off + a.len() + b.len())[a.len() + j] == s[off + a.len() + j]);
        assert((a + b)[a.len() + j] == b[j]);
        assert(s.subrange(off + a.len(), off + a.len() + b.len())[j] == s[off + a.len() + j]);
    }
    assert(s.subrange(off + a.len(), off + a.len() + b.len()) =~= b);
}

/// The seven token segments of a repository row.
#[verifier::rlimit(100)]
#[verifier::spinoff_prover]
proof fn lemma_repo_row_segments(m: crate::cache::RepoModel)
    ensures
        ({
            let s = enc_repo_row(m);
            let p1 = enc_str(m.label);
            let p2 = enc_str(m.name);
            let p3 = enc_str(m.url);
            let p4 = enc_opt_str(m.basearch);
            let p5 = enc_opt_str(m.releasever);
            let p6 = enc_opt_str(m.product);
            let p7 = enc_opt_u64(m.product_id);
            let l1 = p1.len() as int;
            let l2 = l1 + p2.len();
            let l3 = l2 + p3.len();
            let l4 = l3 + p4.len();
            let l5 = l4 + p5.len();
            let l6 = l5 + p6.len();
            let l7 = l6 + p7.len();
            &&& s.subrange(0, l1) == p1
            &&& s.subrange(l1, l2) == p2
            &&& s.subrange(l2, l3) == p3
            &&& s.subrange(l3, l4) == p4
            &&& s.subrange(l4, l5) == p5
            &&& s.subrange(l5, l6) == p6
            &&& s.subrange(l6, l7) == p7
        }),
{
    let s = enc_repo_row(m);
    let p1 = enc_str(m.label);
    let p2 = enc_str(m.name);
    let p3 = enc_str(m.url);
    let p4 = enc_opt_str(m.basearch);
    let p5 = enc_opt_str(m.releasever);
    let p6 = enc_opt_str(m.product);
    let p7 = enc_opt_u64(m.product_id);
    let l7 = p1.len() + p2.len() + p3.len() + p4.len() + p5.len() + p6.len() + p7.len();
    assert(s.subrange(0, l7 as int) =~= s);
    lemma_concat_segment(s, p1 + p2 + p3 + p4 + p5 + p6, p7, 0);
    lemma_concat_segment(s, p1 + p2 + p3 + p4 + p5, p6, 0);
    lemma_concat_segment(s, p1 + p2 + p3 + p4, p5, 0);
    lemma_concat_segment(s, p1 + p2 + p3, p4, 0);
    lemma_concat_segment(s, p1 + p2, p3, 0);
    lemma_concat_segment(s, p1, p2, 0);
}

/// A whole repository row reads back as the record written.
#[verifier::rlimit(100)]
#[verifier::spinoff_prover]
pub proof fn lemma_repo_row_round_trip(m: crate::cache::RepoModel)
    requires
        m.label.len() <= u64::MAX,
        m.name.len() <= u64::MAX,
        m.url.len() <= u64::MAX,
        m.basearch is Some ==> m.basearch->0.len() <= u64::MAX,
        m.releasever is Some ==> m.releasever->0.len() <= u64::MAX,
        m.product is Some ==> m.product->0.len() <= u64::MAX,
    ensures
        dec_repo_row(enc_repo_row(m)) == Some(m),
{
    let s = enc_repo_row(m);
    let p1 = enc_str(m.label);
    let p2 = enc_str(m.name);
    let p3 = enc_str(m.url);
    let p4 = enc_opt_str(m.basearch);
    let p5 = enc_opt_str(m.releasever);
    let p6 = enc_opt_str(m.product);
    let l1 = p1.len() as int;
    let l2 = l1 + p2.len();
    let l3 = l2 + p3.len();
    let l4 = l3 + p4.len();
    let l5 = l4 + p5.len();
    let l6 = l5 + p6.len();
    lemma_repo_row_segments(m);
    lemma_tok_str_at(s, 0, m.label);
    lemma_tok_str_at(s, l1, m.name);
    lemma_tok_str_at(s, l2, m.url);
    lemma_tok_opt_str_at(s, l3, m.basearch);
    lemma_tok_opt_str_at(s, l4, m.releasever);
    lemma_tok_opt_str_at(s, l5, m.product);
    lemma_tok_opt_u64_at(s, l6, m.product_id);
}

/// A whole (epoch, version, release) row reads back as the tuple written.
pub proof fn lemma_evr_row_round_trip(m: crate::cache::EvrModel)
    requires
        m.version.len() <= u64::MAX,
        m.release.len() <= u64::MAX,
    ensures
        dec_evr_row(enc_evr_row(m)) == Some(m),
{
    let s = enc_evr_row(m);
    let a = enc_u64(m.epoch);
    let b = enc_str(m.version);
    let c = enc_str(m.release);
    let l1 = a.len() as int;
    let l2 = b.len() as int;
    let l3 = c.len() as int;
    assert(s =~= a + b + c);
    assert forall|j: int| 0 <= j < l1 implies s.subrange(0, l1)[j] == a[j] by {
        assert(s.subrange(0, l1)[j] == s[j]);
    }
    assert(s.subrange(0, l1) =~= a);
    lemma_tok_u64_at(s, 0, m.epoch);
    assert forall|j: int| 0 <= j < l2 implies s.subrange(l1, l1 + l2)[j] == b[j] by {
        assert(s.subrange(l1, l1 + l2)[j] == s[l1 + j]);
        assert(s[l1 + j] == b[j]);
    }
    assert(s.subrange(l1, l1 + l2) =~= b);
    lemma_tok_str_at(s, l1, m.version);
    assert forall|j: int| 0 <= j < l3 implies s.subrange(l1 + l2, l1 + l2 + l3)[j] == c[j] by {
        assert(s.subrange(l1 + l2, l1 + l2 + l3)[j] == s[l1 + l2 + j]);
        assert(s[l1 + l2 + j] == c[j]);
    }
    assert(s.subrange(l1 + l2, l1 + l2 + l3) =~= c);
    lemma_tok_str_at(s, l1 + l2, m.release);
}

} // verus!

//! Cache table primitives: association maps keyed by integer ids or
//! interned strings, and duplicate-free id / string sets.
//!
//! A map is a vector of entries read under "last insertion wins", so its
//! mathematical view is the fold of `Map::insert` over the entries.

use vstd::prelude::*;

verus! {

/// View of an id-keyed entry list: later entries shadow earlier ones.
pub open spec fn id_entries_view<V>(s: Seq<(u64, V)>) -> Map<u64, V>
    decreases s.len(),
{
    if s.len() == 0 {
        Map::empty()
    } else {
        id_entries_view(s.drop_last()).insert(s.last().0, s.last().1)
    }
}

/// A key is in the view exactly when some entry carries it.
pub proof fn lemma_id_view_dom<V>(s: Seq<(u64, V)>, k: u64)
    ensures
        id_entries_view(s).contains_key(k) <==> exists|i: int|
            0 <= i < s.len() && (#[trigger] s[i]).0 == k,
    decreases s.len(),
{
    if s.len() > 0 {
        lemma_id_view_dom(s.drop_last(), k);
        if s.last().0 == k {
            assert(s[s.len() - 1].0 == k);
        } else if id_entries_view(s).contains_key(k) {
            let i = choose|i: int| 0 <= i < s.drop_last().len() && (#[trigger] s.drop_last()[i]).0 == k;
            assert(s[i].0 == k);
        } else {
            assert forall|i: int| 0 <= i < s.len() && (#[trigger] s[i]).0 == k implies false by {
                if i < s.len() - 1 {
                    assert(s.drop_last()[i].0 == k);
                }
            }
        }
    }
}

/// The view maps a key to the value of its last entry.
pub proof fn lemma_id_view_at<V>(s: Seq<(u64, V)>, i: int)
    requires
        0 <= i < s.len(),
        forall|j: int| i < j < s.len() ==> (#[trigger] s[j]).0 != s[i].0,
    ensures
        id_entries_view(s).contains_key(s[i].0),
        id_entries_view(s)[s[i].0] == s[i].1,
    decreases s.len(),
{
    if i == s.len() - 1 {
    } else {
        assert forall|j: int| i < j < s.drop_last().len() implies (#[trigger] s.drop_last()[j]).0
            != s.drop_last()[i].0 by {
            assert(s[j].0 != s[i].0);
        }
        lemma_id_view_at(s.drop_last(), i);
        assert(s.last().0 != s[i].0);
    }
}

/// An association map keyed by integer ids.
pub struct IdMap<V> {
    entries: Vec<(u64, V)>,
}

impl<V> View for IdMap<V> {
    type V = Map<u64, V>;

    closed spec fn view(&self) -> Map<u64, V> {
        id_entries_view(self.entries@)
    }
}

impl<V> IdMap<V> {
    /// The entries in insertion order (later entries shadow earlier ones).
    pub closed spec fn entry_seq(self) -> Seq<(u64, V)> {
        self.entries@
    }

    /// An empty map.
    pub fn new() -> (r: Self)
        ensures
            r@ == Map::<u64, V>::empty(),
            r.entry_seq() == Seq::<(u64, V)>::empty(),
    {
        let r = IdMap { entries: Vec::new() };
        proof {
            assert(r.entry_seq() =~= Seq::<(u64, V)>::empty());
        }
        r
    }

    /// Inserts `v` under `k`, shadowing any earlier entry for `k`.
    pub fn insert(&mut self, k: u64, v: V)
        ensures
            final(self)@ == old(self)@.insert(k, v),
            final(self).entry_seq() == old(self).entry_seq().push((k, v)),
    {
        self.entries.push((k, v));
        proof {
            assert(self.entries@.drop_last() =~= old(self).entries@);
        }
    }

    /// Looks the key up; `None` exactly when the key was never inserted.
    pub fn get(&self, k: u64) -> (r: Option<&V>)
        ensures
            match r {
                Some(v) => self@.contains_key(k) && *v == self@[k],
                None => !self@.contains_key(k),
            },
    {
        let n = self.entries.len();
        let mut i: usize = n;
        while i > 0
            invariant
                0 <= i <= n,
                n == self.entries@.len(),
                forall|j: int| i <= j < n ==> (#[trigger] self.entries@[j]).0 != k,
            decreases i,
        {
            i = i - 1;
            if self.entries[i].0 == k {
                proof {
                    lemma_id_view_at(self.entries@, i as int);
                }
                return Some(&self.entries[i].1);
            }
        }
        proof {
            lemma_id_view_dom(self.entries@, k);
        }
        None
    }

    /// Whether the key was ever inserted.
    pub fn contains_key(&self, k: u64) -> (r: bool)
        ensures
            r == self@.contains_key(k),
    {
        self.get(k).is_some()
    }

    /// The distinct keys, each exactly once, in first-insertion order.
    pub fn keys(&self) -> (r: Vec<u64>)
        ensures
            r@.no_duplicates(),
            forall|k: u64| r@.contains(k) <==> self@.contains_key(k),
    {
        let n = self.entries.len();
        let mut r: Vec<u64> = Vec::new();
        let mut i: usize = 0;
        while i < n
            invariant
                0 <= i <= n,
                n == self.entries@.len(),
                r@.no_duplicates(),
                forall|k: u64| r@.contains(k) <==> exists|j: int|
                    0 <= j < i && (#[trigger] self.entries@[j]).0 == k,
            decreases n - i,
        {
            let k = self.entries[i].0;
            let mut seen = false;
            let mut t: usize = 0;
            let rn = r.len();
            while t < rn
                invariant
                    0 <= t <= rn,
                    rn == r@.len(),
                    seen <==> exists|u: int| 0 <= u < t && r@[u] == k,
                decreases rn - t,
            {
                if r[t] == k {
                    seen = true;
                }
                t = t + 1;
            }
            let ghost prev = r@;
            proof {
                assert(seen == prev.contains(k));
            }
            if !seen {
                r.push(k);
                proof {
                    lemma_push_contains(prev, k);
                    assert forall|i0: int, j0: int|
                        0 <= i0 < j0 < r@.len() implies r@[i0] != r@[j0] by {
                        if j0 == r@.len() - 1 {
                            assert(prev[i0] == r@[i0]);
                            assert(prev.contains(r@[i0]));
                        }
                    }
                }
            }
            proof {
                assert(self.entries@[i as int].0 == k);
                assert forall|k0: u64| r@.contains(k0) implies exists|j: int|
                    0 <= j < i + 1 && (#[trigger] self.entries@[j]).0 == k0 by {
                    lemma_push_contains(prev, k);
                    if prev.contains(k0) {
                        assert(exists|j: int|
                            0 <= j < i && (#[trigger] self.entries@[j]).0 == k0);
                    } else {
                        assert(k0 == k);
                        assert(self.entries@[i as int].0 == k0);
                    }
                }
                assert forall|k0: u64| (exists|j: int|
                    0 <= j < i + 1 && (#[trigger] self.entries@[j]).0 == k0) implies r@.contains(
                    k0,
                ) by {
                    let j = choose|j: int|
                        0 <= j < i + 1 && (#[trigger] self.entries@[j]).0 == k0;
                    if j < i {
                        assert(prev.contains(k0));
                        if !seen {
                            lemma_push_contains(prev, k);
                        }
                    } else {
                        assert(k0 == k);
                        if !seen {
                            lemma_push_contains(prev, k);
                        }
                    }
                }
            }
            i = i + 1;
        }
        proof {
            assert forall|k: u64| r@.contains(k) <==> self@.contains_key(k) by {
                lemma_id_view_dom(self.entries@, k);
            }
        }
        r
    }
}

/// View of a string-keyed entry list: later entries shadow earlier ones.
pub open spec fn str_entries_view<V>(s: Seq<(String, V)>) -> Map<Seq<char>, V>
    decreases s.len(),
{
    if s.len() == 0 {
        Map::empty()
    } else {
        str_entries_view(s.drop_last()).insert(s.last().0@, s.last().1)
    }
}

/// A key is in the view exactly when some entry carries it.
pub proof fn lemma_str_view_dom<V>(s: Seq<(String, V)>, k: Seq<char>)
    ensures
        str_entries_view(s).contains_key(k) <==> exists|i: int|
            0 <= i < s.len() && (#[trigger] s[i]).0@ == k,
    decreases s.len(),
{
    if s.len() > 0 {
        lemma_str_view_dom(s.drop_last(), k);
        if s.last().0@ == k {
            assert(s[s.len() - 1].0@ == k);
        } else if str_entries_view(s).contains_key(k) {
            let i = choose|i: int|
                0 <= i < s.drop_last().len() && (#[trigger] s.drop_last()[i]).0@ == k;
            assert(s[i].0@ == k);
        } else {
            assert forall|i: int| 0 <= i < s.len() && (#[trigger] s[i]).0@ == k implies false by {
                if i < s.len() - 1 {
                    assert(s.drop_last()[i].0@ == k);
                }
            }
        }
    }
}

/// The view maps a key to the value of its last entry.
pub proof fn lemma_str_view_at<V>(s: Seq<(String, V)>, i: int)
    requires
        0 <= i < s.len(),
        forall|j: int| i < j < s.len() ==> (#[trigger] s[j]).0@ != s[i].0@,
    ensures
        str_entries_view(s).contains_key(s[i].0@),
        str_entries_view(s)[s[i].0@] == s[i].1,
    decreases s.len(),
{
    if i == s.len() - 1 {
    } else {
        assert forall|j: int| i < j < s.drop_last().len() implies (#[trigger] s.drop_last()[j]).0@
            != s.drop_last()[i].0@ by {
            assert(s[j].0@ != s[i].0@);
        }
        lemma_str_view_at(s.drop_last(), i);
        assert(s.last().0@ != s[i].0@);
    }
}

/// The view answers a key with the value of one of its entries.
pub proof fn lemma_str_view_val<V>(s: Seq<(String, V)>, k: Seq<char>)
    requires
        str_entries_view(s).contains_key(k),
    ensures
        exists|i: int|
            0 <= i < s.len() && (#[trigger] s[i]).0@ == k && s[i].1 == str_entries_view(s)[k],
    decreases s.len(),
{
    if s.len() > 0 {
        if s.last().0@ == k {
            assert((s[s.len() - 1]).0@ == k && s[s.len() - 1].1 == str_entries_view(s)[k]);
        } else {
            lemma_str_view_val(s.drop_last(), k);
            let i = choose|i: int|
                0 <= i < s.drop_last().len() && (#[trigger] s.drop_last()[i]).0@ == k
                    && s.drop_last()[i].1 == str_entries_view(s.drop_last())[k];
            assert((s[i]).0@ == k && s[i].1 == str_entries_view(s)[k]);
        }
    }
}

/// An association map keyed by interned strings.
pub struct StrMap<V> {
    entries: Vec<(String, V)>,
}

impl<V> View for StrMap<V> {
    type V = Map<Seq<char>, V>;

    closed spec fn view(&self) -> Map<Seq<char>, V> {
        str_entries_view(self.entries@)
    }
}

impl<V> StrMap<V> {
    /// An empty map.
    pub fn new() -> (r: Self)
        ensures
            r@ == Map::<Seq<char>, V>::empty(),
    {
        let r = StrMap { entries: Vec::new() };
        proof {
            assert(r.entries@ =~= Seq::<(String, V)>::empty());
        }
        r
    }

    /// Inserts `v` under `k`, shadowing any earlier entry for `k`.
    pub fn insert(&mut self, k: String, v: V)
        ensures
            final(self)@ == old(self)@.insert(k@, v),
    {
        self.entries.push((k, v));
        proof {
            assert(self.entries@.drop_last() =~= old(self).entries@);
        }
    }

    /// Looks the key up; `None` exactly when the key was never inserted.
    pub fn get(&self, k: &String) -> (r: Option<&V>)
        ensures
            match r {
                Some(v) => self@.contains_key(k@) && *v == self@[k@],
                None => !self@.contains_key(k@),
            },
    {
        let n = self.entries.len();
        let mut i: usize = n;
        while i > 0
            invariant
                0 <= i <= n,
                n == self.entries@.len(),
                forall|j: int| i <= j < n ==> (#[trigger] self.entries@[j]).0@ != k@,
            decreases i,
        {
            i = i - 1;
            if self.entries[i].0.eq(k) {
                proof {
                    lemma_str_view_at(self.entries@, i as int);
                }
                return Some(&self.entries[i].1);
            }
        }
        proof {
            lemma_str_view_dom(self.entries@, k@);
        }
        None
    }

    /// Whether the key was ever inserted.
    pub fn contains_key(&self, k: &String) -> (r: bool)
        ensures
            r == self@.contains_key(k@),
    {
        self.get(k).is_some()
    }

    /// The entries in insertion order (later entries shadow earlier ones).
    pub closed spec fn entry_seq(self) -> Seq<(String, V)> {
        self.entries@
    }

    /// The view answers each key with the value of one of the entries.
    pub proof fn lemma_entry_vals(&self)
        ensures
            forall|k: Seq<char>| #[trigger]
                self@.contains_key(k) ==> exists|i: int|
                    0 <= i < self.entry_seq().len() && (#[trigger] self.entry_seq()[i]).0@ == k
                        && self.entry_seq()[i].1 == self@[k],
    {
        assert forall|k: Seq<char>| #[trigger] self@.contains_key(k) implies exists|i: int|
            0 <= i < self.entry_seq().len() && (#[trigger] self.entry_seq()[i]).0@ == k
                && self.entry_seq()[i].1 == self@[k] by {
            lemma_str_view_val(self.entries@, k);
            let i0 = choose|i: int|
                0 <= i < self.entries@.len() && (#[trigger] self.entries@[i]).0@ == k
                    && self.entries@[i].1 == str_entries_view(self.entries@)[k];
            assert(0 <= i0 < self.entry_seq().len() && (self.entry_seq()[i0]).0@ == k
                && self.entry_seq()[i0].1 == self@[k]);
        }
    }

    /// How many entries the map holds.
    pub fn entry_len(&self) -> (r: usize)
        ensures
            r == self.entry_seq().len(),
    {
        self.entries.len()
    }

    /// Read access to one entry.
    pub fn entry_at(&self, i: usize) -> (r: &(String, V))
        requires
            i < self.entry_seq().len(),
        ensures
            *r == self.entry_seq()[i as int],
    {
        &self.entries[i]
    }
}

/// A set of integer ids held as a duplicate-free vector in insertion order.
pub struct IdSet {
    items: Vec<u64>,
}

impl View for IdSet {
    type V = Set<u64>;

    closed spec fn view(&self) -> Set<u64> {
        self.items@.to_set()
    }
}

impl IdSet {
    /// The members in first-insertion order.
    pub closed spec fn seq(self) -> Seq<u64> {
        self.items@
    }

    /// An empty set.
    pub fn new() -> (r: Self)
        ensures
            r.seq() == Seq::<u64>::empty(),
            r@ == Set::<u64>::empty(),
            r.inv(),
    {
        let r = IdSet { items: Vec::new() };
        proof {
            assert(r.items@.to_set() =~= Set::<u64>::empty());
        }
        r
    }

    /// The member vector is duplicate-free.
    pub closed spec fn inv(self) -> bool {
        self.items@.no_duplicates()
    }

    /// Membership test.
    pub fn contains(&self, k: u64) -> (r: bool)
        ensures
            r == self@.contains(k),
            r == self.seq().contains(k),
    {
        let n = self.items.len();
        let mut i: usize = 0;
        while i < n
            invariant
                0 <= i <= n,
                n == self.items@.len(),
                forall|j: int| 0 <= j < i ==> self.items@[j] != k,
            decreases n - i,
        {
            if self.items[i] == k {
                proof {
                    assert(self.items@.contains(k));
                }
                return true;
            }
            i = i + 1;
        }
        proof {
            assert(!self.items@.contains(k));
        }
        false
    }

    /// Adds `k` if it is not yet a member.
    pub fn insert(&mut self, k: u64)
        requires
            old(self).inv(),
        ensures
            final(self).inv(),
            final(self)@ == old(self)@.insert(k),
            final(self).seq() == dedup_push(old(self).seq(), k),
    {
        if !self.contains(k) {
            self.items.push(k);
            proof {
                lemma_push_contains(old(self).items@, k);
                assert(self.items@.to_set() =~= old(self).items@.to_set().insert(k));
                assert forall|i: int, j: int|
                    0 <= i < j < self.items@.len() implies self.items@[i] != self.items@[j] by {
                    if j == self.items@.len() - 1 {
                        assert(old(self).items@[i] == self.items@[i]);
                        assert(old(self).items@.contains(self.items@[i]));
                    }
                }
            }
        } else {
            proof {
                assert(self.items@.to_set() =~= old(self).items@.to_set().insert(k));
            }
        }
    }

    /// Membership in the set is membership in the member sequence.
    pub proof fn lemma_view_members(&self)
        ensures
            forall|x: u64| #[trigger] self@.contains(x) <==> self.seq().contains(x),
    {
    }

    /// Read access to the member vector.
    pub fn vec(&self) -> (r: &Vec<u64>)
        ensures
            r@ == self.seq(),
    {
        &self.items
    }
}

/// Appends `x` unless it is already present.
pub open spec fn dedup_push(s: Seq<u64>, x: u64) -> Seq<u64> {
    if s.contains(x) {
        s
    } else {
        s.push(x)
    }
}

/// Membership in a pushed sequence is membership in the old one or the
/// pushed element.
pub proof fn lemma_push_contains(s: Seq<u64>, k: u64)
    ensures
        forall|x: u64| #[trigger] s.push(k).contains(x) <==> (s.contains(x) || x == k),
{
    assert forall|x: u64| #[trigger] s.push(k).contains(x) implies (s.contains(x) || x == k) by {
        let u = choose|u: int| 0 <= u < s.push(k).len() && s.push(k)[u] == x;
        if u < s.len() {
            assert(s[u] == x);
        }
    }
    assert forall|x: u64| s.contains(x) || x == k implies #[trigger] s.push(k).contains(x) by {
        if s.contains(x) {
            let u = choose|u: int| 0 <= u < s.len() && s[u] == x;
            assert(s.push(k)[u] == x);
        } else {
            assert(s.push(k)[s.len() as int] == x);
        }
    }
}

/// Membership in a one-longer prefix is membership in the prefix or being
/// the element there.
pub proof fn lemma_take_step(s: Seq<u64>, i: int)
    requires
        0 <= i < s.len(),
    ensures
        forall|x: u64| #[trigger]
            s.take(i + 1).contains(x) <==> (s.take(i).contains(x) || x == s[i]),
{
    assert forall|x: u64| #[trigger]
        s.take(i + 1).contains(x) implies (s.take(i).contains(x) || x == s[i]) by {
        let u = choose|u: int| 0 <= u < s.take(i + 1).len() && (#[trigger] s.take(i + 1)[u]) == x;
        if u < i {
            assert(s.take(i)[u] == x);
        }
    }
    assert forall|x: u64| s.take(i).contains(x) || x == s[i] implies #[trigger] s.take(
        i + 1,
    ).contains(x) by {
        if s.take(i).contains(x) {
            let u = choose|u: int| 0 <= u < s.take(i).len() && (#[trigger] s.take(i)[u]) == x;
            assert(s.take(i + 1)[u] == x);
        } else {
            assert(s.take(i + 1)[i] == x);
        }
    }
}

/// A set of strings held as a duplicate-free vector in insertion order.
pub struct StrSet {
    items: Vec<String>,
}

impl View for StrSet {
    type V = Set<Seq<char>>;

    closed spec fn view(&self) -> Set<Seq<char>> {
        Set::new(|k: Seq<char>| exists|i: int| 0 <= i < self.items@.len()
            && (#[trigger] self.items@[i])@ == k)
    }
}

impl StrSet {
    /// An empty set.
    pub fn new() -> (r: Self)
        ensures
            r@ == Set::<Seq<char>>::empty(),
    {
        let r = StrSet { items: Vec::new() };
        proof {
            assert(r@ =~= Set::<Seq<char>>::empty());
        }
        r
    }

    /// Membership test.
    pub fn contains(&self, k: &String) -> (r: bool)
        ensures
            r == self@.contains(k@),
    {
        let n = self.items.len();
        let mut i: usize = 0;
        while i < n
            invariant
                0 <= i <= n,
                n == self.items@.len(),
                forall|j: int| 0 <= j < i ==> (#[trigger] self.items@[j])@ != k@,
            decreases n - i,
        {
            if self.items[i].eq(k) {
                proof {
                    assert((self.items@[i as int])@ == k@);
                }
                return true;
            }
            i = i + 1;
        }
        false
    }

    /// Adds `k` if it is not yet a member.
    pub fn insert(&mut self, k: String)
        ensures
            final(self)@ == old(self)@.insert(k@),
    {
        let ghost kv = k@;
        if !self.contains(&k) {
            self.items.push(k);
            proof {
                assert forall|x: Seq<char>| self@.contains(x) implies old(self)@.insert(kv).contains(
                    x,
                ) by {
                    let u = choose|u: int|
                        0 <= u < self.items@.len() && (#[trigger] self.items@[u])@ == x;
                    if u < self.items@.len() - 1 {
                        assert((old(self).items@[u])@ == x);
                    }
                }
                assert forall|x: Seq<char>| old(self)@.insert(kv).contains(x) implies self@.contains(
                    x,
                ) by {
                    if old(self)@.contains(x) {
                        let u = choose|u: int|
                            0 <= u < old(self).items@.len() && (#[trigger] old(self).items@[u])@
                                == x;
                        assert((self.items@[u])@ == x);
                    } else {
                        assert((self.items@[self.items@.len() - 1])@ == x);
                    }
                }
                assert(self@ =~= old(self)@.insert(kv));
            }
        } else {
            proof {
                assert(self@ =~= old(self)@.insert(kv));
            }
        }
    }
}

} // verus!

//! The session registry: named live sessions, one entry per alias.
//!
//! The registry is the owner of sessions. The caller that drives the I/O
//! checks a session's transport payload out for the duration of one command
//! and back in afterwards; while it is checked out the entry is busy and a
//! second checkout of the same alias fails. The caller serializes access
//! with one process-wide exclusion primitive, as the concurrency model
//! requires; the checkout discipline makes the per-alias exclusion explicit
//! and checkable here.

use vstd::prelude::*;

use crate::chars::str_eq;

verus! {

struct RegEntry<T> {
    alias: String,
    /// `None` while the transport is checked out for an in-flight command.
    payload: Option<T>,
}

/// A mapping from alias to live session payload, keys unique.
pub struct Registry<T> {
    entries: Vec<RegEntry<T>>,
}

spec fn distinct_aliases<T>(s: Seq<RegEntry<T>>) -> bool {
    forall|i: int, j: int| 0 <= i < j < s.len() ==> s[i].alias@ != s[j].alias@
}

spec fn as_map<T>(s: Seq<RegEntry<T>>) -> Map<Seq<char>, Option<T>>
    decreases s.len(),
{
    if s.len() == 0 {
        Map::empty()
    } else {
        as_map(s.drop_last()).insert(s.last().alias@, s.last().payload)
    }
}

proof fn lemma_as_map_contains<T>(s: Seq<RegEntry<T>>, k: Seq<char>)
    ensures
        as_map(s).contains_key(k) <==> exists|i: int| 0 <= i < s.len() && #[trigger] s[i].alias@
            == k,
    decreases s.len(),
{
    if s.len() > 0 {
        lemma_as_map_contains(s.drop_last(), k);
        if as_map(s).contains_key(k) && s.last().alias@ != k {
            let i = choose|i: int| 0 <= i < s.drop_last().len() && #[trigger] s.drop_last()[i].alias@
                == k;
            assert(s[i].alias@ == k);
        }
        if exists|i: int| 0 <= i < s.len() && #[trigger] s[i].alias@ == k {
            let i = choose|i: int| 0 <= i < s.len() && #[trigger] s[i].alias@ == k;
            if i < s.len() - 1 {
                assert(s.drop_last()[i].alias@ == k);
            }
        }
    }
}

proof fn lemma_as_map_index<T>(s: Seq<RegEntry<T>>, i: int)
    requires
        distinct_aliases(s),
        0 <= i < s.len(),
    ensures
        as_map(s).contains_key(s[i].alias@),
        as_map(s)[s[i].alias@] == s[i].payload,
    decreases s.len(),
{
    lemma_as_map_contains(s, s[i].alias@);
    if i < s.len() - 1 {
        assert(distinct_aliases(s.drop_last()));
        assert(s.drop_last()[i] == s[i]);
        lemma_as_map_index(s.drop_last(), i);
        assert(s[i].alias@ != s.last().alias@);
    }
}

proof fn lemma_as_map_remove<T>(s: Seq<RegEntry<T>>, i: int)
    requires
        distinct_aliases(s),
        0 <= i < s.len(),
    ensures
        as_map(s.remove(i)) == as_map(s).remove(s[i].alias@),
    decreases s.len(),
{
    let k = s[i].alias@;
    if i == s.len() - 1 {
        assert(s.remove(i) =~= s.drop_last());
        lemma_as_map_contains(s.drop_last(), k);
        assert(!as_map(s.drop_last()).contains_key(k)) by {
            if as_map(s.drop_last()).contains_key(k) {
                let j = choose|j: int|
                    0 <= j < s.drop_last().len() && #[trigger] s.drop_last()[j].alias@ == k;
                assert(s[j].alias@ == k);
            }
        }
        assert(as_map(s).remove(k) =~= as_map(s.drop_last()));
    } else {
        let dl = s.drop_last();
        assert(distinct_aliases(dl));
        assert(forall|j: int| 0 <= j < dl.len() ==> dl[j] == s[j]);
        lemma_as_map_remove(dl, i);
        assert(s.remove(i).last() == s.last());
        assert(s.remove(i).drop_last() =~= dl.remove(i));
        assert(as_map(s.remove(i)) == as_map(dl.remove(i)).insert(s.last().alias@, s.last().payload));
        assert(s.last().alias@ != k);
        assert(as_map(dl).remove(k).insert(s.last().alias@, s.last().payload) =~= as_map(
            dl,
        ).insert(s.last().alias@, s.last().payload).remove(k));
    }
}

/// The registry after a successful checkout of `a`: the entry goes busy.
pub open spec fn checkout_spec_map<T>(m: Map<Seq<char>, Option<T>>, a: Seq<char>) -> Map<
    Seq<char>,
    Option<T>,
> {
    if m.contains_key(a) && m[a] is Some {
        m.insert(a, None)
    } else {
        m
    }
}

/// What a checkout of `a` hands out: the payload, unless the alias is
/// unknown or already busy.
pub open spec fn checkout_spec_val<T>(m: Map<Seq<char>, Option<T>>, a: Seq<char>) -> Option<T> {
    if m.contains_key(a) && m[a] is Some {
        m[a]
    } else {
        None
    }
}

impl<T> Registry<T> {
    /// Keys are unique.
    pub closed spec fn wf(self) -> bool {
        distinct_aliases(self.entries@)
    }

    /// The registry as a map: alias to payload, `None` payload while a
    /// command is in flight on that alias.
    pub closed spec fn view(self) -> Map<Seq<char>, Option<T>> {
        as_map(self.entries@)
    }

    /// An empty registry.
    pub fn new() -> (r: Self)
        ensures
            r.wf(),
            r@ == Map::<Seq<char>, Option<T>>::empty(),
    {
        Registry { entries: Vec::new() }
    }

    fn find_index(&self, alias: &str) -> (r: Option<usize>)
        ensures
            match r {
                Some(i) => i < self.entries@.len() && self.entries@[i as int].alias@ == alias@,
                None => forall|i: int|
                    0 <= i < self.entries@.len() ==> #[trigger] self.entries@[i].alias@ != alias@,
            },
    {
        let n: usize = self.entries.len();
        let mut i: usize = 0;
        while i < n
            invariant
                n == self.entries@.len(),
                0 <= i <= n,
                forall|j: int| 0 <= j < i ==> #[trigger] self.entries@[j].alias@ != alias@,
            decreases n - i,
        {
            if str_eq(self.entries[i].alias.as_str(), alias) {
                return Some(i);
            }
            i += 1;
        }
        None
    }

    /// Insert a session under `alias`, replacing any session already held
    /// under that alias.
    pub fn insert(&mut self, alias: String, payload: T)
        requires
            old(self).wf(),
        ensures
            final(self).wf(),
            final(self)@ == old(self)@.insert(alias@, Some(payload)),
    {
        match self.find_index(alias.as_str()) {
            Some(i) => {
                proof {
                    lemma_as_map_remove(self.entries@, i as int);
                }
                self.entries.remove(i);
                proof {
                    assert(distinct_aliases(self.entries@)) by {
                        assert(forall|a: int, b: int|
                            0 <= a < b < self.entries@.len() ==> #[trigger] self.entries@[a].alias@
                                != #[trigger] self.entries@[b].alias@) by {
                            assert(forall|a: int|
                                0 <= a < self.entries@.len() ==> #[trigger] self.entries@[a]
                                    == old(self).entries@[if a < i { a } else { a + 1 }]);
                        }
                    }
                }
            },
            None => {},
        }
        let ghost pre = self.entries@;
        self.entries.push(RegEntry { alias, payload: Some(payload) });
        proof {
            assert(self.entries@.drop_last() =~= pre);
            lemma_as_map_contains(pre, alias@);
            assert(distinct_aliases(self.entries@)) by {
                assert(forall|a: int| 0 <= a < pre.len() ==> #[trigger] pre[a].alias@ != alias@);
                assert(forall|a: int|
                    0 <= a < pre.len() ==> #[trigger] self.entries@[a] == pre[a]);
            }
            assert(final(self)@ =~= old(self)@.insert(alias@, Some(payload)));
        }
    }

    /// Remove the entry for `alias` and hand back its payload, if the alias
    /// is known and its transport is not checked out. Unknown aliases are a
    /// no-op.
    pub fn remove(&mut self, alias: &str) -> (r: Option<T>)
        requires
            old(self).wf(),
        ensures
            final(self).wf(),
            final(self)@ == old(self)@.remove(alias@),
            r == if old(self)@.contains_key(alias@) {
                old(self)@[alias@]
            } else {
                None::<T>
            },
    {
        match self.find_index(alias) {
            Some(i) => {
                proof {
                    lemma_as_map_remove(self.entries@, i as int);
                    lemma_as_map_index(self.entries@, i as int);
                }
                let e = self.entries.remove(i);
                proof {
                    assert(distinct_aliases(self.entries@)) by {
                        assert(forall|a: int|
                            0 <= a < self.entries@.len() ==> #[trigger] self.entries@[a]
                                == old(self).entries@[if a < i { a } else { a + 1 }]);
                    }
                }
                e.payload
            },
            None => {
                proof {
                    lemma_as_map_contains(self.entries@, alias@);
                    assert(final(self)@ =~= old(self)@.remove(alias@));
                }
                None
            },
        }
    }

    /// Whether a session is held under `alias` (busy or not).
    pub fn contains(&self, alias: &str) -> (r: bool)
        requires
            self.wf(),
        ensures
            r == self@.dom().contains(alias@),
    {
        proof {
            lemma_as_map_contains(self.entries@, alias@);
        }
        match self.find_index(alias) {
            Some(_) => true,
            None => false,
        }
    }

    /// Check the transport for `alias` out for one command. Yields nothing
    /// when the alias is unknown or a command is already in flight on it.
    pub fn checkout(&mut self, alias: &str) -> (r: Option<T>)
        requires
            old(self).wf(),
        ensures
            final(self).wf(),
            final(self)@ == checkout_spec_map(old(self)@, alias@),
            r == checkout_spec_val(old(self)@, alias@),
    {
        match self.find_index(alias) {
            Some(i) => {
                proof {
                    lemma_as_map_remove(self.entries@, i as int);
                    lemma_as_map_index(self.entries@, i as int);
                }
                let e = self.entries.remove(i);
                let ghost mid = self.entries@;
                proof {
                    assert(distinct_aliases(mid)) by {
                        assert(forall|a: int|
                            0 <= a < mid.len() ==> #[trigger] mid[a] == old(self).entries@[if a < i {
                                a
                            } else {
                                a + 1
                            }]);
                    }
                }
                match e.payload {
                    Some(v) => {
                        self.entries.push(RegEntry { alias: e.alias, payload: None });
                        proof {
                            assert(self.entries@.drop_last() =~= mid);
                            lemma_as_map_contains(mid, alias@);
                            assert(distinct_aliases(self.entries@)) by {
                                assert(forall|a: int|
                                    0 <= a < mid.len() ==> #[trigger] mid[a].alias@ != alias@);
                                assert(forall|a: int|
                                    0 <= a < mid.len() ==> #[trigger] self.entries@[a] == mid[a]);
                            }
                            assert(final(self)@ =~= checkout_spec_map(old(self)@, alias@));
                        }
                        Some(v)
                    },
                    None => {
                        self.entries.push(RegEntry { alias: e.alias, payload: None });
                        proof {
                            assert(self.entries@.drop_last() =~= mid);
                            lemma_as_map_contains(mid, alias@);
                            assert(distinct_aliases(self.entries@)) by {
                                assert(forall|a: int|
                                    0 <= a < mid.len() ==> #[trigger] mid[a].alias@ != alias@);
                                assert(forall|a: int|
                                    0 <= a < mid.len() ==> #[trigger] self.entries@[a] == mid[a]);
                            }
                            assert(final(self)@ =~= checkout_spec_map(old(self)@, alias@));
                        }
                        None
                    },
                }
            },
            None => {
                proof {
                    lemma_as_map_contains(self.entries@, alias@);
                    assert(final(self)@ =~= checkout_spec_map(old(self)@, alias@));
                }
                None
            },
        }
    }

    /// Check a transport back in after a command. Succeeds exactly when the
    /// alias is known and busy.
    pub fn checkin(&mut self, alias: &str, payload: T) -> (r: bool)
        requires
            old(self).wf(),
        ensures
            final(self).wf(),
            r == (old(self)@.contains_key(alias@) && old(self)@[alias@] is None),
            r ==> final(self)@ == old(self)@.insert(alias@, Some(payload)),
            !r ==> final(self)@ == old(self)@,
    {
        match self.find_index(alias) {
            Some(i) => {
                proof {
                    lemma_as_map_remove(self.entries@, i as int);
                    lemma_as_map_index(self.entries@, i as int);
                }
                let e = self.entries.remove(i);
                let ghost mid = self.entries@;
                proof {
                    assert(distinct_aliases(mid)) by {
                        assert(forall|a: int|
                            0 <= a < mid.len() ==> #[trigger] mid[a] == old(self).entries@[if a < i {
                                a
                            } else {
                                a + 1
                            }]);
                    }
                }
                match e.payload {
                    None => {
                        self.entries.push(RegEntry { alias: e.alias, payload: Some(payload) });
                        proof {
                            assert(self.entries@.drop_last() =~= mid);
                            lemma_as_map_contains(mid, alias@);
                            assert(distinct_aliases(self.entries@)) by {
                                assert(forall|a: int|
                                    0 <= a < mid.len() ==> #[trigger] mid[a].alias@ != alias@);
                                assert(forall|a: int|
                                    0 <= a < mid.len() ==> #[trigger] self.entries@[a] == mid[a]);
                            }
                            assert(final(self)@ =~= old(self)@.insert(alias@, Some(payload)));
                        }
                        true
                    },
                    Some(v) => {
                        self.entries.push(RegEntry { alias: e.alias, payload: Some(v) });
                        proof {
                            assert(self.entries@.drop_last() =~= mid);
                            lemma_as_map_contains(mid, alias@);
                            assert(distinct_aliases(self.entries@)) by {
                                assert(forall|a: int|
                                    0 <= a < mid.len() ==> #[trigger] mid[a].alias@ != alias@);
                                assert(forall|a: int|
                                    0 <= a < mid.len() ==> #[trigger] self.entries@[a] == mid[a]);
                            }
                            assert(final(self)@ =~= old(self)@);
                        }
                        false
                    },
                }
            },
            None => {
                proof {
                    lemma_as_map_contains(self.entries@, alias@);
                }
                false
            },
        }
    }

    /// The aliases currently held, each exactly once.
    pub fn list(&self) -> (r: Vec<String>)
        requires
            self.wf(),
        ensures
            forall|i: int| 0 <= i < r@.len() ==> self@.dom().contains(#[trigger] r@[i]@),
            forall|k: Seq<char>|
                self@.dom().contains(k) ==> exists|i: int| 0 <= i < r@.len() && #[trigger] r@[i]@
                    == k,
            forall|i: int, j: int| 0 <= i < j < r@.len() ==> r@[i]@ != r@[j]@,
    {
        let n: usize = self.entries.len();
        let mut out: Vec<String> = Vec::new();
        let mut i: usize = 0;
        while i < n
            invariant
                n == self.entries@.len(),
                self.wf(),
                0 <= i <= n,
                out@.len() == i,
                forall|j: int| 0 <= j < i ==> #[trigger] out@[j]@ == self.entries@[j].alias@,
            decreases n - i,
        {
            out.push(self.entries[i].alias.clone());
            i += 1;
        }
        proof {
            assert forall|j: int| 0 <= j < out@.len() implies self@.dom().contains(
                #[trigger] out@[j]@,
            ) by {
                lemma_as_map_index(self.entries@, j);
            }
            assert forall|k: Seq<char>| self@.dom().contains(k) implies exists|j: int|
                0 <= j < out@.len() && #[trigger] out@[j]@ == k by {
                lemma_as_map_contains(self.entries@, k);
                let j = choose|j: int|
                    0 <= j < self.entries@.len() && #[trigger] self.entries@[j].alias@ == k;
                assert(out@[j]@ == k);
            }
        }
        out
    }
}

/// Law: for any one alias, at most one command is in flight. A checkout
/// that hands a transport out leaves the entry busy, and until the check-in
/// a second checkout of the same alias hands out nothing.
pub proof fn lemma_single_inflight<T>(m: Map<Seq<char>, Option<T>>, a: Seq<char>)
    ensures
        checkout_spec_val(m, a) is Some ==> checkout_spec_val(checkout_spec_map(m, a), a) is None,
{
}

/// One operation on the registry's key set, as the trace model sees it:
/// a successful connect inserts an alias, a disconnect removes one.
pub enum RegistryOp {
    Connect(Seq<char>),
    Disconnect(Seq<char>),
}

/// The key set after a trace of successful operations, starting empty.
pub open spec fn connected_after(ops: Seq<RegistryOp>) -> Set<Seq<char>>
    decreases ops.len(),
{
    if ops.len() == 0 {
        Set::empty()
    } else {
        match ops.last() {
            RegistryOp::Connect(a) => connected_after(ops.drop_last()).insert(a),
            RegistryOp::Disconnect(a) => connected_after(ops.drop_last()).remove(a),
        }
    }
}

/// Law: the registry's key set equals exactly the set of aliases for which
/// a connect succeeded with no disconnect issued afterwards. `insert` and
/// `remove` realize the two trace steps on the registry's map.
pub proof fn lemma_registry_key_set(ops: Seq<RegistryOp>)
    ensures
        forall|k: Seq<char>|
            #[trigger] connected_after(ops).contains(k) <==> exists|i: int|
                0 <= i < ops.len() && ops[i] == RegistryOp::Connect(k) && (forall|j: int|
                    i < j < ops.len() ==> ops[j] != RegistryOp::Disconnect(k)),
    decreases ops.len(),
{
    if ops.len() == 0 {
    } else {
        let front = ops.drop_last();
        let n = ops.len() as int;
        lemma_registry_key_set(front);
        assert forall|k: Seq<char>| #[trigger] connected_after(ops).contains(k) implies exists|
            i: int,
        |
            0 <= i < ops.len() && ops[i] == RegistryOp::Connect(k) && (forall|j: int|
                i < j < ops.len() ==> ops[j] != RegistryOp::Disconnect(k)) by {
            match ops.last() {
                RegistryOp::Connect(a) => {
                    if k == a {
                        assert(ops[n - 1] == RegistryOp::Connect(k));
                        assert(0 <= n - 1 < ops.len() && ops[n - 1] == RegistryOp::Connect(k) && (
                        forall|j: int| n - 1 < j < ops.len() ==> ops[j] != RegistryOp::Disconnect(
                            k,
                        )));
                    } else {
                        assert(connected_after(front).contains(k));
                        let i = choose|i: int|
                            0 <= i < front.len() && front[i] == RegistryOp::Connect(k) && (forall|
                                j: int,
                            | i < j < front.len() ==> front[j] != RegistryOp::Disconnect(k));
                        assert(ops[i] == RegistryOp::Connect(k));
                        assert forall|j: int| i < j < ops.len() implies ops[j]
                            != RegistryOp::Disconnect(k) by {
                            if j < n - 1 {
                                assert(front[j] == ops[j]);
                            }
                        }
                    }
                },
                RegistryOp::Disconnect(a) => {
                    assert(connected_after(front).contains(k) && k != a);
                    let i = choose|i: int|
                        0 <= i < front.len() && front[i] == RegistryOp::Connect(k) && (forall|
                            j: int,
                        | i < j < front.len() ==> front[j] != RegistryOp::Disconnect(k));
                    assert(ops[i] == RegistryOp::Connect(k));
                    assert forall|j: int| i < j < ops.len() implies ops[j]
                        != RegistryOp::Disconnect(k) by {
                        if j < n - 1 {
                            assert(front[j] == ops[j]);
                        }
                    }
                },
            }
        }
        assert forall|k: Seq<char>|
            (exists|i: int|
                0 <= i < ops.len() && ops[i] == RegistryOp::Connect(k) && (forall|j: int|
                    i < j < ops.len() ==> ops[j] != RegistryOp::Disconnect(
                        k,
                    ))) implies #[trigger] connected_after(ops).contains(k) by {
            let i = choose|i: int|
                0 <= i < ops.len() && ops[i] == RegistryOp::Connect(k) && (forall|j: int|
                    i < j < ops.len() ==> ops[j] != RegistryOp::Disconnect(k));
            match ops.last() {
                RegistryOp::Connect(a) => {
                    if k != a {
                        assert(i < n - 1);
                        assert(front[i] == RegistryOp::Connect(k));
                        assert(forall|j: int|
                            i < j < front.len() ==> front[j] == ops[j] && ops[j]
                                != RegistryOp::Disconnect(k));
                        assert(connected_after(front).contains(k));
                    }
                },
                RegistryOp::Disconnect(a) => {
                    assert(ops[n - 1] != RegistryOp::Connect(k));
                    assert(i < n - 1);
                    assert(ops[n - 1] != RegistryOp::Disconnect(k));
                    assert(k != a);
                    assert(front[i] == RegistryOp::Connect(k));
                    assert(forall|j: int|
                        i < j < front.len() ==> front[j] == ops[j] && ops[j]
                            != RegistryOp::Disconnect(k));
                    assert(connected_after(front).contains(k));
                },
            }
        }
    }
}

} // verus!

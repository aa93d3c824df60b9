//! Authorization cache: bounded, time-expiring allow/deny decisions per
//! `(token hash, namespace, verb)`, backed by control-plane subject-access
//! reviews that run outside.
//!
//! Only definite allow/deny decisions enter the cache — a review that fails
//! in transport is never stored, so an error can never shadow a later
//! decision.  The caller asks `authorize` what to do; on `NeedsReview` it
//! performs the review outside and stores the result with `store`.

use vstd::prelude::*;

use crate::scan;

verus! {

/// One cached decision: the key, the decision, and when it lapses.
pub struct AuthCacheEntry {
    pub token_hash: Vec<u8>,
    pub namespace: Vec<u8>,
    pub verb: Vec<u8>,
    pub allowed: bool,
    pub expires_at: i64,
    pub stored_at: i64,
}

/// The mathematical image of an entry's key.
pub open spec fn entry_key(e: AuthCacheEntry) -> (Seq<u8>, Seq<u8>, Seq<u8>) {
    (e.token_hash@, e.namespace@, e.verb@)
}

/// What the caller should do for one request.
#[derive(Debug, Clone, PartialEq)]
pub enum AuthDecision {
    Allowed,
    Denied(Vec<u8>),
    NeedsReview(Vec<u8>),
}

/// The cache of authorization decisions.
pub struct Authorizer {
    entries: Vec<AuthCacheEntry>,
    ttl_millis: i64,
    capacity: usize,
}

impl Authorizer {
    /// Entry views, in storage order.
    pub closed spec fn spec_entries(self) -> Seq<((Seq<u8>, Seq<u8>, Seq<u8>), bool, i64, i64)> {
        self.entries@.map_values(
            |e: AuthCacheEntry| (entry_key(e), e.allowed, e.expires_at, e.stored_at),
        )
    }

    /// The time a fresh decision stays valid.
    pub closed spec fn spec_ttl(self) -> i64 {
        self.ttl_millis
    }

    /// The most entries the cache holds.
    pub closed spec fn spec_capacity(self) -> int {
        self.capacity as int
    }

    /// Keys are unique and the size bound holds.
    pub closed spec fn wf(self) -> bool {
        &&& self.entries@.len() <= self.capacity
        &&& self.capacity >= 1
        &&& self.ttl_millis >= 0
        &&& forall|i: int, j: int|
            0 <= i < j < self.spec_entries().len() ==> self.spec_entries()[i].0
                != self.spec_entries()[j].0
    }

    /// The cached decision for a key at instant `now`, if one is stored and
    /// has not lapsed.
    pub open spec fn spec_lookup(
        entries: Seq<((Seq<u8>, Seq<u8>, Seq<u8>), bool, i64, i64)>,
        key: (Seq<u8>, Seq<u8>, Seq<u8>),
        now: i64,
    ) -> Option<bool>
        decreases entries.len(),
    {
        if entries.len() == 0 {
            None
        } else if entries[0].0 == key && now < entries[0].2 {
            Some(entries[0].1)
        } else if entries[0].0 == key {
            None
        } else {
            Self::spec_lookup(entries.skip(1), key, now)
        }
    }

    /// Creates an empty cache with the given entry lifetime and capacity.
    pub fn new(ttl_millis: i64, capacity: usize) -> (r: Self)
        requires
            ttl_millis >= 0,
            capacity >= 1,
        ensures
            r.wf(),
            r.spec_entries().len() == 0,
            r.spec_ttl() == ttl_millis,
            r.spec_capacity() == capacity,
    {
        let r = Authorizer { entries: Vec::new(), ttl_millis, capacity };
        proof {
            assert(r.spec_entries() =~= Seq::<
                ((Seq<u8>, Seq<u8>, Seq<u8>), bool, i64, i64),
            >::empty());
        }
        r
    }

    /// Looks up the cached decision for a key, honouring expiry.
    pub fn lookup(&self, token_hash: &[u8], namespace: &[u8], verb: &[u8], now: i64) -> (r:
        Option<bool>)
        ensures
            r == Self::spec_lookup(
                self.spec_entries(),
                (token_hash@, namespace@, verb@),
                now,
            ),
    {
        let ghost key = (token_hash@, namespace@, verb@);
        let ghost views = self.spec_entries();
        let mut i: usize = 0;
        proof {
            assert(views.skip(0) =~= views);
        }
        while i < self.entries.len()
            invariant
                i <= self.entries@.len(),
                views == self.spec_entries(),
                views.len() == self.entries@.len(),
                key == (token_hash@, namespace@, verb@),
                Self::spec_lookup(views, key, now) == Self::spec_lookup(
                    views.skip(i as int),
                    key,
                    now,
                ),
            decreases self.entries@.len() - i,
        {
            let e = &self.entries[i];
            proof {
                assert(views.skip(i as int)[0] == views[i as int]);
                assert(views.skip(i as int).skip(1) =~= views.skip(i + 1));
            }
            let key_matches = scan::bytes_eq(e.token_hash.as_slice(), token_hash)
                && scan::bytes_eq(e.namespace.as_slice(), namespace) && scan::bytes_eq(
                e.verb.as_slice(),
                verb,
            );
            if key_matches {
                if now < e.expires_at {
                    return Some(e.allowed);
                }
                return None;
            }
            i = i + 1;
        }
        proof {
            assert(views.skip(i as int).len() == 0);
        }
        None
    }

    /// Stores a definite decision under its key, replacing a stale entry for
    /// the same key, and evicting the least recently stored entry when the
    /// cache is full.  Review errors have no decision and are never stored.
    pub fn store(
        &mut self,
        token_hash: Vec<u8>,
        namespace: Vec<u8>,
        verb: Vec<u8>,
        allowed: bool,
        now: i64,
    )
        requires
            old(self).wf(),
            now <= i64::MAX - old(self).spec_ttl(),
        ensures
            final(self).wf(),
            final(self).spec_ttl() == old(self).spec_ttl(),
            final(self).spec_capacity() == old(self).spec_capacity(),
            old(self).spec_ttl() > 0 ==> Self::spec_lookup(
                final(self).spec_entries(),
                (token_hash@, namespace@, verb@),
                now,
            ) == Some(allowed),
            forall|i: int|
                0 <= i < final(self).spec_entries().len() ==> (
                #[trigger] final(self).spec_entries()[i]).0 == (token_hash@, namespace@, verb@)
                    || old(self).spec_entries().contains(final(self).spec_entries()[i]),
    {
        let expires_at = now + self.ttl_millis;
        let mut i: usize = 0;
        let mut found: Option<usize> = None;
        while i < self.entries.len()
            invariant
                i <= self.entries@.len(),
                self.entries@ == old(self).entries@,
                self.ttl_millis == old(self).ttl_millis,
                self.capacity == old(self).capacity,
                expires_at == now + old(self).ttl_millis,
                match found {
                    Some(j) => j < i && entry_key(self.entries@[j as int]) == (
                    token_hash@,
                    namespace@,
                    verb@,
                    ),
                    None => forall|j: int|
                        0 <= j < i ==> entry_key(#[trigger] self.entries@[j]) != (
                        token_hash@,
                        namespace@,
                        verb@,
                        ),
                },
            decreases self.entries@.len() - i,
        {
            let already = match found {
                Some(_) => true,
                None => false,
            };
            if !already {
                let e = &self.entries[i];
                let key_matches = scan::bytes_eq(e.token_hash.as_slice(), token_hash.as_slice())
                    && scan::bytes_eq(e.namespace.as_slice(), namespace.as_slice())
                    && scan::bytes_eq(e.verb.as_slice(), verb.as_slice());
                if key_matches {
                    found = Some(i);
                }
            }
            i = i + 1;
        }
        match found {
            Some(j) => {
                let ghost old_views = old(self).spec_entries();
                let entry = AuthCacheEntry {
                    token_hash,
                    namespace,
                    verb,
                    allowed,
                    expires_at,
                    stored_at: now,
                };
                let ghost new_view = (entry_key(entry), allowed, expires_at, now);
                self.entries.remove(j);
                self.entries.insert(j, entry);
                proof {
                    let key = new_view.0;
                    let views = self.spec_entries();
                    assert(views =~= old_views.update(j as int, new_view));
                    assert(old_views[j as int].0 == key);
                    assert forall|i: int| 0 <= i < j implies views[i].0 != key by {
                        assert(views[i] == old_views[i]);
                        assert(old_views[i].0 != old_views[j as int].0);
                    }
                    if self.ttl_millis > 0 {
                        lemma_lookup_at(views, key, now, j as int);
                    }
                    assert forall|i: int| 0 <= i < views.len() implies (#[trigger] views[i]).0
                        == key || old_views.contains(views[i]) by {
                        if i != j {
                            assert(views[i] == old_views[i]);
                        }
                    }
                }
            },
            None => {
                let ghost old_views = old(self).spec_entries();
                proof {
                    assert forall|w: int| 0 <= w < old_views.len() implies (
                    #[trigger] old_views[w]).0 != (token_hash@, namespace@, verb@) by {
                        assert(old_views[w].0 == entry_key(self.entries@[w]));
                    }
                }
                if self.entries.len() >= self.capacity {
                    let mut oldest: usize = 0;
                    let mut k: usize = 1;
                    while k < self.entries.len()
                        invariant
                            self.entries@.len() > 0,
                            1 <= k <= self.entries@.len(),
                            oldest < k,
                            self.entries@ == old(self).entries@,
                            self.ttl_millis == old(self).ttl_millis,
                            self.capacity == old(self).capacity,
                        decreases self.entries@.len() - k,
                    {
                        if self.entries[k].stored_at < self.entries[oldest].stored_at {
                            oldest = k;
                        }
                        k = k + 1;
                    }
                    proof {
                        assert(self.spec_entries() == old_views);
                    }
                    self.entries.remove(oldest);
                    proof {
                        assert(self.spec_entries() =~= old_views.remove(oldest as int));
                    }
                }
                let ghost mid_views = self.spec_entries();
                let entry = AuthCacheEntry {
                    token_hash,
                    namespace,
                    verb,
                    allowed,
                    expires_at,
                    stored_at: now,
                };
                let ghost new_view = (entry_key(entry), allowed, expires_at, now);
                self.entries.push(entry);
                proof {
                    let key = new_view.0;
                    let views = self.spec_entries();
                    assert(views =~= mid_views.push(new_view));
                    assert forall|i: int| 0 <= i < mid_views.len() implies mid_views.contains(
                        #[trigger] mid_views[i],
                    ) && old_views.contains(mid_views[i]) by {
                        if mid_views == old_views {
                        } else {
                            let oldest = choose|o: int|
                                0 <= o < old_views.len() && mid_views == old_views.remove(o);
                            if i < oldest {
                                assert(mid_views[i] == old_views[i]);
                            } else {
                                assert(mid_views[i] == old_views[i + 1]);
                            }
                        }
                    }
                    assert(key == (token_hash@, namespace@, verb@));
                    assert forall|i: int| 0 <= i < mid_views.len() implies (
                    #[trigger] mid_views[i]).0 != key by {
                        let w = choose|w: int|
                            0 <= w < old_views.len() && old_views[w] == mid_views[i];
                        assert(old_views[w].0 != key);
                    }
                    assert forall|i: int, jj: int|
                        0 <= i < jj < views.len() implies views[i].0 != views[jj].0 by {
                        if jj < mid_views.len() {
                            let wi = choose|w: int|
                                0 <= w < old_views.len() && old_views[w] == mid_views[i];
                            let wj = choose|w: int|
                                0 <= w < old_views.len() && old_views[w] == mid_views[jj];
                            if i < jj && mid_views != old_views {
                                let oldest = choose|o: int|
                                    0 <= o < old_views.len() && mid_views == old_views.remove(
                                        o,
                                    );
                                if i < oldest {
                                } else {
                                }
                                if jj < oldest {
                                    assert(mid_views[i] == old_views[i]);
                                    assert(mid_views[jj] == old_views[jj]);
                                } else if i < oldest {
                                    assert(mid_views[i] == old_views[i]);
                                    assert(mid_views[jj] == old_views[jj + 1]);
                                } else {
                                    assert(mid_views[i] == old_views[i + 1]);
                                    assert(mid_views[jj] == old_views[jj + 1]);
                                }
                            } else if i < jj {
                                assert(mid_views[i] == old_views[i]);
                                assert(mid_views[jj] == old_views[jj]);
                            }
                        } else {
                            assert(views[jj] == new_view);
                            assert(views[i] == mid_views[i]);
                        }
                    }
                    if self.ttl_millis > 0 {
                        assert forall|i: int|
                            0 <= i < mid_views.len() implies views[i].0 != key by {
                            assert(views[i] == mid_views[i]);
                        }
                        lemma_lookup_at(views, key, now, mid_views.len() as int);
                    }
                    assert forall|i: int| 0 <= i < views.len() implies (#[trigger] views[i]).0
                        == key || old_views.contains(views[i]) by {
                        if i < mid_views.len() {
                            assert(views[i] == mid_views[i]);
                        }
                    }
                }
            },
        }
    }
}

/// Looking up a key that first occurs at `j`, where it is fresh, yields the
/// decision stored there.
proof fn lemma_lookup_at(
    entries: Seq<((Seq<u8>, Seq<u8>, Seq<u8>), bool, i64, i64)>,
    key: (Seq<u8>, Seq<u8>, Seq<u8>),
    now: i64,
    j: int,
)
    requires
        0 <= j < entries.len(),
        entries[j].0 == key,
        now < entries[j].2,
        forall|i: int| 0 <= i < j ==> entries[i].0 != key,
    ensures
        Authorizer::spec_lookup(entries, key, now) == Some(entries[j].1),
    decreases j,
{
    if j == 0 {
    } else {
        assert forall|i: int| 0 <= i < j - 1 implies entries.skip(1)[i].0 != key by {
            assert(entries.skip(1)[i] == entries[i + 1]);
        }
        assert(entries.skip(1)[j - 1] == entries[j]);
        lemma_lookup_at(entries.skip(1), key, now, j - 1);
    }
}


/// A decision at the specification level.
pub enum SpecAuthDecision {
    Allowed,
    Denied(Seq<u8>),
    NeedsReview(Seq<u8>),
}

/// The mathematical image of a decision.
pub open spec fn decision_view(d: AuthDecision) -> SpecAuthDecision {
    match d {
        AuthDecision::Allowed => SpecAuthDecision::Allowed,
        AuthDecision::Denied(ns) => SpecAuthDecision::Denied(ns@),
        AuthDecision::NeedsReview(ns) => SpecAuthDecision::NeedsReview(ns@),
    }
}

/// The request's namespaces as checked: an empty set means one unnamed
/// namespace, standing for all.
pub open spec fn effective_namespaces(namespaces: Seq<Seq<u8>>) -> Seq<Seq<u8>> {
    if namespaces.len() == 0 {
        seq![Seq::<u8>::empty()]
    } else {
        namespaces
    }
}

/// The decision the cache gives for a request: the namespaces are checked
/// in order; the first one without a fresh cached decision needs a review,
/// the first cached deny denies, and a request whose namespaces all carry a
/// fresh allow is allowed.
pub open spec fn spec_authorize(
    entries: Seq<((Seq<u8>, Seq<u8>, Seq<u8>), bool, i64, i64)>,
    hash: Seq<u8>,
    list: Seq<Seq<u8>>,
    verb: Seq<u8>,
    now: i64,
) -> SpecAuthDecision
    decreases list.len(),
{
    if list.len() == 0 {
        SpecAuthDecision::Allowed
    } else {
        match Authorizer::spec_lookup(entries, (hash, list[0], verb), now) {
            None => SpecAuthDecision::NeedsReview(list[0]),
            Some(false) => SpecAuthDecision::Denied(list[0]),
            Some(true) => spec_authorize(entries, hash, list.skip(1), verb, now),
        }
    }
}

impl Authorizer {
    /// Resolves a request against the cache alone: `Allowed` when every
    /// namespace holds a fresh allow, `Denied` at the first cached deny,
    /// and `NeedsReview` at the first namespace without a fresh decision —
    /// the caller then performs the subject-access review outside and
    /// stores its outcome.
    pub fn authorize(
        &self,
        token_hash: &[u8],
        namespaces: &Vec<Vec<u8>>,
        verb: &[u8],
        now: i64,
    ) -> (r: AuthDecision)
        ensures
            decision_view(r) == spec_authorize(
                self.spec_entries(),
                token_hash@,
                effective_namespaces(namespaces@.map_values(|v: Vec<u8>| v@)),
                verb@,
                now,
            ),
    {
        let ghost list = effective_namespaces(namespaces@.map_values(|v: Vec<u8>| v@));
        if namespaces.len() == 0 {
            let empty_ns: Vec<u8> = Vec::new();
            proof {
                assert(list[0] =~= Seq::<u8>::empty());
                assert(list.skip(1) =~= Seq::<Seq<u8>>::empty());
                assert(spec_authorize(
                    self.spec_entries(),
                    token_hash@,
                    list.skip(1),
                    verb@,
                    now,
                ) == SpecAuthDecision::Allowed);
                assert(empty_ns@ =~= list[0]);
            }
            match self.lookup(token_hash, empty_ns.as_slice(), verb, now) {
                None => AuthDecision::NeedsReview(empty_ns),
                Some(false) => AuthDecision::Denied(empty_ns),
                Some(true) => AuthDecision::Allowed,
            }
        } else {
            let mut i: usize = 0;
            proof {
                assert(list.skip(0) =~= list);
            }
            while i < namespaces.len()
                invariant
                    i <= namespaces@.len(),
                    list == effective_namespaces(namespaces@.map_values(|v: Vec<u8>| v@)),
                    list == namespaces@.map_values(|v: Vec<u8>| v@),
                    spec_authorize(self.spec_entries(), token_hash@, list, verb@, now)
                        == spec_authorize(
                        self.spec_entries(),
                        token_hash@,
                        list.skip(i as int),
                        verb@,
                        now,
                    ),
                decreases namespaces@.len() - i,
            {
                let ns = &namespaces[i];
                proof {
                    assert(list.skip(i as int)[0] == list[i as int]);
                    assert(list.skip(i as int).skip(1) =~= list.skip(i + 1));
                }
                match self.lookup(token_hash, ns.as_slice(), verb, now) {
                    None => {
                        let owned = scan::copy_range(ns.as_slice(), 0, ns.len());
                        proof {
                            assert(owned@ =~= list[i as int]);
                        }
                        return AuthDecision::NeedsReview(owned);
                    },
                    Some(false) => {
                        let owned = scan::copy_range(ns.as_slice(), 0, ns.len());
                        proof {
                            assert(owned@ =~= list[i as int]);
                        }
                        return AuthDecision::Denied(owned);
                    },
                    Some(true) => {},
                }
                i = i + 1;
            }
            proof {
                assert(spec_authorize(
                    self.spec_entries(),
                    token_hash@,
                    list.skip(i as int),
                    verb@,
                    now,
                ) == SpecAuthDecision::Allowed);
            }
            AuthDecision::Allowed
        }
    }
}

/// The metadata key that carries the bearer token.
pub open spec fn authorization_key() -> Seq<u8> {
    seq![97u8, 117u8, 116u8, 104u8, 111u8, 114u8, 105u8, 122u8, 97u8, 116u8, 105u8, 111u8,
        110u8]
}

/// The bearer token of a request: the value of the first `authorization`
/// entry of its metadata, or nothing — which the caller reports as
/// unauthenticated.
pub open spec fn spec_extract_token(meta: Seq<(Seq<u8>, Seq<u8>)>) -> Option<Seq<u8>>
    decreases meta.len(),
{
    if meta.len() == 0 {
        None
    } else if meta[0].0 == authorization_key() {
        Some(meta[0].1)
    } else {
        spec_extract_token(meta.skip(1))
    }
}

/// Pulls the bearer token out of the request metadata.
pub fn extract_token(meta: &Vec<(Vec<u8>, Vec<u8>)>) -> (r: Option<Vec<u8>>)
    ensures
        ({
            let mv = meta@.map_values(|p: (Vec<u8>, Vec<u8>)| (p.0@, p.1@));
            match r {
                Some(tok) => spec_extract_token(mv) == Some(tok@),
                None => spec_extract_token(mv) is None,
            }
        }),
{
    let key: [u8; 13] = [
        97u8, 117u8, 116u8, 104u8, 111u8, 114u8, 105u8, 122u8, 97u8, 116u8, 105u8, 111u8,
        110u8,
    ];
    proof {
        assert(key@ =~= authorization_key());
    }
    let ghost mv = meta@.map_values(|p: (Vec<u8>, Vec<u8>)| (p.0@, p.1@));
    let mut i: usize = 0;
    proof {
        assert(mv.skip(0) =~= mv);
    }
    while i < meta.len()
        invariant
            i <= meta@.len(),
            mv == meta@.map_values(|p: (Vec<u8>, Vec<u8>)| (p.0@, p.1@)),
            key@ == authorization_key(),
            spec_extract_token(mv) == spec_extract_token(mv.skip(i as int)),
        decreases meta@.len() - i,
    {
        let entry = &meta[i];
        proof {
            assert(mv.skip(i as int)[0] == mv[i as int]);
            assert(mv.skip(i as int).skip(1) =~= mv.skip(i + 1));
        }
        if scan::bytes_eq(entry.0.as_slice(), key.as_slice()) {
            let tok = scan::copy_range(entry.1.as_slice(), 0, entry.1.len());
            proof {
                assert(tok@ =~= mv[i as int].1);
            }
            return Some(tok);
        }
        i = i + 1;
    }
    proof {
        assert(mv.skip(i as int).len() == 0);
    }
    None
}

} // verus!

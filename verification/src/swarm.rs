//! Bookkeeping of the swarm task's chunk fetches.
//!
//! A fetch runs in two stages: a DHT provider lookup for the chunk, then a
//! request to one provider; when that provider does not hold the chunk,
//! the request goes to the next provider the lookup found. The swarm task
//! owes each caller exactly one reply. This module holds the pending work
//! and decides, for each swarm event, who is answered and with what; the
//! task itself performs the network calls and delivers the replies.
//! Lookups and requests are identified by the numbers the network layer
//! gives them, providers by their peer-id bytes, and callers by numbers
//! this module hands out.

use vstd::prelude::*;
use std::collections::HashMap;
use crate::hex::hex_of;

verus! {

broadcast use vstd::std_specs::hash::group_hash_axioms;

/// What a provider answers to a chunk request.
#[derive(Clone, Debug)]
pub enum FetchResponse {
    Found { bytes: Vec<u8> },
    NotFound,
}

/// Why a fetch failed.
#[derive(Clone, Copy, Debug)]
pub enum FetchError {
    /// The DHT returned a key that is not a chunk hash.
    InvalidKey,
    /// The DHT knows no provider of the chunk.
    NoProviders(crate::hash::Hash),
    /// The provider lookup finished without finding a provider.
    LookupExhausted,
    /// The provider lookup failed.
    LookupFailed,
    /// The request to the provider failed.
    RequestFailed,
    /// The provider does not hold the chunk.
    NotFound,
}

/// The text of a fetch error. For the two failures reported by the
/// network layer, the layer's own description follows the colon.
pub open spec fn fetch_message(e: FetchError) -> Seq<char> {
    match e {
        FetchError::InvalidKey => "kad returned key wasn't a valid hash"@,
        FetchError::NoProviders(h) => "no providers for "@ + hex_of(h.0@),
        FetchError::LookupExhausted => "kad lookup finished with no providers"@,
        FetchError::LookupFailed => "kad get_providers error: "@,
        FetchError::RequestFailed => "fetch failed: "@,
        FetchError::NotFound => "provider returned NotFound for chunk"@,
    }
}

impl FetchError {
    /// The error's text.
    pub fn message(&self) -> (s: String)
        ensures
            s@ == fetch_message(*self),
    {
        match self {
            FetchError::InvalidKey => String::from_str("kad returned key wasn't a valid hash"),
            FetchError::NoProviders(h) => {
                let mut s = String::from_str("no providers for ");
                s.append(h.to_hex().as_str());
                s
            },
            FetchError::LookupExhausted => String::from_str("kad lookup finished with no providers"),
            FetchError::LookupFailed => String::from_str("kad get_providers error: "),
            FetchError::RequestFailed => String::from_str("fetch failed: "),
            FetchError::NotFound => String::from_str("provider returned NotFound for chunk"),
        }
    }
}

/// What to do after a provider lookup found providers.
#[derive(Debug)]
pub enum ProvidersStep {
    /// The lookup is not one a caller waits on.
    Ignore,
    /// Answer the caller with this error.
    Fail { waiter: u64, error: FetchError },
    /// Request the chunk from `provider` on behalf of the caller, then
    /// report the request with `request_sent`.
    Request { waiter: u64, hash: crate::hash::Hash, provider: Vec<u8> },
}

/// What to do after a provider answered a request.
#[derive(Debug)]
pub enum ResponseStep {
    /// The request is not one a caller waits on.
    Ignore,
    /// Answer the caller.
    Answer { waiter: u64, result: Result<Vec<u8>, FetchError> },
    /// The provider does not hold the chunk: request it from `provider`,
    /// another one the lookup found, then report the request with
    /// `request_sent`. The caller is not answered yet.
    Retry { waiter: u64, hash: crate::hash::Hash, provider: Vec<u8> },
}

/// The chunk a fetch is for, and the providers not asked yet.
#[derive(Debug)]
pub struct FetchTarget {
    pub chunk: crate::hash::Hash,
    pub untried: Vec<Vec<u8>>,
}

/// Answer to a chunk request from a peer, given what the local chunk
/// source gave for it (`None` when there is no source or it failed).
pub fn respond_to_request(local: Option<Vec<u8>>) -> (r: FetchResponse)
    ensures
        local matches Some(b) ==> r matches FetchResponse::Found { bytes } && bytes@ == b@,
        local is None ==> r is NotFound,
{
    match local {
        Some(bytes) => FetchResponse::Found { bytes },
        None => FetchResponse::NotFound,
    }
}

/// Some key of `m` maps to `w`.
pub open spec fn has_value(m: Map<u64, u64>, w: u64) -> bool {
    exists|k: u64| #[trigger] m.contains_key(k) && m[k] == w
}

/// No two keys of `m` map to the same value.
pub open spec fn injective(m: Map<u64, u64>) -> bool {
    forall|a: u64, b: u64|
        #[trigger] m.contains_key(a) && #[trigger] m.contains_key(b) && a != b ==> m[a] != m[b]
}

proof fn lemma_remove_value(m: Map<u64, u64>, k: u64, w: u64)
    requires
        injective(m),
    ensures
        injective(m.remove(k)),
        has_value(m.remove(k), w) <==> (has_value(m, w) && !(m.contains_key(k) && m[k] == w)),
{
    if has_value(m.remove(k), w) {
        let j = choose|j: u64| #[trigger] m.remove(k).contains_key(j) && m.remove(k)[j] == w;
        assert(m.contains_key(j));
    }
    if has_value(m, w) && !(m.contains_key(k) && m[k] == w) {
        let j = choose|j: u64| #[trigger] m.contains_key(j) && m[j] == w;
        assert(m.remove(k).contains_key(j));
    }
}

proof fn lemma_insert_value(m: Map<u64, u64>, k: u64, v: u64, w: u64)
    requires
        injective(m),
        !has_value(m, v),
    ensures
        injective(m.insert(k, v)),
        has_value(m.insert(k, v), w) <==> (w == v || (has_value(m, w) && !(m.contains_key(k)
            && m[k] == w))),
{
    let n = m.insert(k, v);
    assert forall|a: u64, b: u64| #[trigger] n.contains_key(a) && #[trigger] n.contains_key(b) && a
        != b implies n[a] != n[b] by {
        if a == k {
            assert(m.contains_key(b));
        } else if b == k {
            assert(m.contains_key(a));
        }
    }
    assert(n.contains_key(k));
    if has_value(n, w) && w != v {
        let j = choose|j: u64| #[trigger] n.contains_key(j) && n[j] == w;
        assert(j != k);
        assert(m.contains_key(j));
    }
    if has_value(m, w) && !(m.contains_key(k) && m[k] == w) {
        let j = choose|j: u64| #[trigger] m.contains_key(j) && m[j] == w;
        assert(n.contains_key(j));
    }
}

/// The pending fetches of the swarm task.
pub struct FetchTracker {
    /// Provider lookups a caller waits on: lookup -> caller.
    pending_kad_lookups: HashMap<u64, u64>,
    /// Callers whose chunk request is due to go out: caller -> target.
    awaiting_send: HashMap<u64, FetchTarget>,
    /// Chunk requests a caller waits on: request -> caller.
    pending_fetches: HashMap<u64, u64>,
    /// The chunk each pending request is for, and the providers left to
    /// re-issue it to if the provider asked says it does not hold it.
    fetch_targets: HashMap<u64, FetchTarget>,
    /// The number the next caller gets.
    next_waiter: u64,
}

impl FetchTracker {
    pub closed spec fn lookups(&self) -> Map<u64, u64> {
        self.pending_kad_lookups@
    }

    pub closed spec fn awaiting(&self) -> Map<u64, FetchTarget> {
        self.awaiting_send@
    }

    pub closed spec fn requests(&self) -> Map<u64, u64> {
        self.pending_fetches@
    }

    pub closed spec fn targets(&self) -> Map<u64, FetchTarget> {
        self.fetch_targets@
    }

    pub closed spec fn next(&self) -> u64 {
        self.next_waiter
    }

    /// Caller `w` still waits for its reply.
    pub open spec fn is_waiting(&self, w: u64) -> bool {
        ||| has_value(self.lookups(), w)
        ||| self.awaiting().contains_key(w)
        ||| has_value(self.requests(), w)
    }

    /// Every pending request has a target and only those; every waiting
    /// caller waits in exactly one place (one lookup, one due request or
    /// one request); every caller number handed out is below `next`.
    pub open spec fn wf(&self) -> bool {
        &&& self.requests().dom() == self.targets().dom()
        &&& injective(self.lookups())
        &&& injective(self.requests())
        &&& forall|q: u64, r: u64|
            #[trigger] self.lookups().contains_key(q) && #[trigger] self.requests().contains_key(r)
                ==> self.lookups()[q] != self.requests()[r]
        &&& forall|q: u64|
            #[trigger] self.lookups().contains_key(q) ==> !self.awaiting().contains_key(
                self.lookups()[q],
            ) && self.lookups()[q] < self.next()
        &&& forall|r: u64|
            #[trigger] self.requests().contains_key(r) ==> !self.awaiting().contains_key(
                self.requests()[r],
            ) && self.requests()[r] < self.next()
        &&& forall|w: u64| #[trigger] self.awaiting().contains_key(w) ==> w < self.next()
    }

    /// After an answer to `w`, `w` no longer waits and every other caller
    /// waits as before.
    pub open spec fn answered(old: &Self, new: &Self, w: u64) -> bool {
        &&& old.is_waiting(w)
        &&& !new.is_waiting(w)
        &&& forall|x: u64| x != w ==> (#[trigger] new.is_waiting(x) <==> old.is_waiting(x))
    }

    /// The same callers wait before and after.
    pub open spec fn same_waiting(old: &Self, new: &Self) -> bool {
        forall|x: u64| #[trigger] new.is_waiting(x) <==> old.is_waiting(x)
    }

    /// The number the next caller will get.
    pub fn next_waiter(&self) -> (n: u64)
        ensures
            n == self.next(),
    {
        self.next_waiter
    }

    pub fn new() -> (t: Self)
        ensures
            t.wf(),
            t.lookups() == Map::<u64, u64>::empty(),
            t.awaiting() == Map::<u64, FetchTarget>::empty(),
            t.requests() == Map::<u64, u64>::empty(),
            t.targets() == Map::<u64, FetchTarget>::empty(),
            t.next() == 0,
            forall|x: u64| !#[trigger] t.is_waiting(x),
    {
        FetchTracker {
            pending_kad_lookups: HashMap::new(),
            awaiting_send: HashMap::new(),
            pending_fetches: HashMap::new(),
            fetch_targets: HashMap::new(),
            next_waiter: 0,
        }
    }

    /// A provider lookup `query` was issued for a new caller; returns the
    /// caller's number, and the caller of an earlier lookup with the same
    /// number, who thereby loses its lookup.
    pub fn lookup_started(&mut self, query: u64) -> (r: (u64, Option<u64>))
        requires
            old(self).wf(),
            old(self).next() < u64::MAX,
        ensures
            final(self).wf(),
            r.0 == old(self).next(),
            final(self).next() == old(self).next() + 1,
            final(self).lookups() == old(self).lookups().insert(query, r.0),
            final(self).awaiting() == old(self).awaiting(),
            final(self).requests() == old(self).requests(),
            final(self).targets() == old(self).targets(),
            old(self).lookups().contains_key(query) ==> r.1 == Some(old(self).lookups()[query]),
            !old(self).lookups().contains_key(query) ==> r.1 is None,
            !old(self).is_waiting(r.0),
            final(self).is_waiting(r.0),
            forall|x: u64|
                x != r.0 ==> (#[trigger] final(self).is_waiting(x) <==> (old(self).is_waiting(x)
                    && r.1 != Some(x))),
    {
        let waiter = self.next_waiter;
        let ghost old_t = *self;
        let displaced = self.pending_kad_lookups.insert(query, waiter);
        self.next_waiter = waiter + 1;
        proof {
            let m = old_t.lookups();
            assert(!has_value(m, waiter)) by {
                if has_value(m, waiter) {
                    let j = choose|j: u64| #[trigger] m.contains_key(j) && m[j] == waiter;
                }
            }
            assert(!has_value(old_t.requests(), waiter)) by {
                if has_value(old_t.requests(), waiter) {
                    let j = choose|j: u64|
                        #[trigger] old_t.requests().contains_key(j) && old_t.requests()[j] == waiter;
                }
            }
            lemma_insert_value(m, query, waiter, waiter);
            assert forall|x: u64| x != waiter implies (#[trigger] self.is_waiting(x) <==> (
            old_t.is_waiting(x) && displaced != Some(x))) by {
                lemma_insert_value(m, query, waiter, x);
                if has_value(old_t.requests(), x) && m.contains_key(query) && m[query] == x {
                    let j = choose|j: u64|
                        #[trigger] old_t.requests().contains_key(j) && old_t.requests()[j] == x;
                }
            }
            assert forall|q: u64, r: u64|
                #[trigger] self.lookups().contains_key(q) && #[trigger] self.requests().contains_key(
                    r,
                ) implies self.lookups()[q] != self.requests()[r] by {
                if q != query {
                    assert(m.contains_key(q));
                }
            }
            assert(!old_t.awaiting().contains_key(waiter));
            assert forall|q: u64| #[trigger] self.lookups().contains_key(q) implies !self.awaiting().contains_key(
                self.lookups()[q],
            ) && self.lookups()[q] < self.next() by {
                if q != query {
                    assert(m.contains_key(q));
                }
            }
            assert forall|r: u64| #[trigger] self.requests().contains_key(r) implies !self.awaiting().contains_key(
                self.requests()[r],
            ) && self.requests()[r] < self.next() by {
                assert(old_t.requests().contains_key(r));
            }
            assert forall|w: u64| #[trigger] self.awaiting().contains_key(w) implies w < self.next() by {
                assert(old_t.awaiting().contains_key(w));
            }
        }
        (waiter, displaced)
    }

    /// A provider lookup found `providers` (in the order the network layer
    /// lists them) for the DHT key `key`. The lookup stops being pending;
    /// its caller is failed, or a request to the first provider is due.
    pub fn providers_found(&mut self, query: u64, key: &[u8], providers: Vec<Vec<u8>>) -> (step:
        ProvidersStep)
        requires
            old(self).wf(),
        ensures
            final(self).wf(),
            final(self).lookups() == old(self).lookups().remove(query),
            final(self).requests() == old(self).requests(),
            final(self).targets() == old(self).targets(),
            final(self).next() == old(self).next(),
            !old(self).lookups().contains_key(query) ==> step is Ignore,
            !(step is Request) ==> final(self).awaiting() == old(self).awaiting(),
            step is Ignore ==> Self::same_waiting(old(self), final(self)),
            step matches ProvidersStep::Fail { waiter, .. } ==> Self::answered(
                old(self),
                final(self),
                waiter,
            ),
            step is Request ==> Self::same_waiting(old(self), final(self)),
            old(self).lookups().contains_key(query) ==> {
                let w = old(self).lookups()[query];
                &&& key@.len() != 32 ==> step == (ProvidersStep::Fail {
                    waiter: w,
                    error: FetchError::InvalidKey,
                })
                &&& key@.len() == 32 && providers@.len() == 0 ==> (step matches ProvidersStep::Fail {
                    waiter,
                    error: FetchError::NoProviders(h),
                } && waiter == w && h.0@ == key@)
                &&& key@.len() == 32 && providers@.len() > 0 ==> (step matches ProvidersStep::Request {
                    waiter,
                    hash,
                    provider,
                } && waiter == w && hash.0@ == key@ && provider == providers@[0]
                    && final(self).awaiting() == old(self).awaiting().insert(
                    w,
                    final(self).awaiting()[w],
                ) && final(self).awaiting()[w].chunk == hash
                    && final(self).awaiting()[w].untried@ == providers@.skip(1))
            },
    {
        let ghost old_t = *self;
        let waiter = match self.pending_kad_lookups.remove(&query) {
            Some(w) => w,
            None => {
                proof {
                    assert(self.lookups() =~= old_t.lookups().remove(query));
                    assert(self.lookups() =~= old_t.lookups());
                    assert forall|x: u64| #[trigger] self.awaiting().contains_key(x) implies x < self.next() by {
                        assert(old_t.awaiting().contains_key(x));
                    }
                }
                return ProvidersStep::Ignore;
            },
        };
        proof {
            lemma_remove_value(old_t.lookups(), query, waiter);
            assert forall|x: u64| x != waiter implies (#[trigger] self.is_waiting(x)
                <==> old_t.is_waiting(x)) by {
                lemma_remove_value(old_t.lookups(), query, x);
            }
            assert(!has_value(old_t.requests(), waiter)) by {
                if has_value(old_t.requests(), waiter) {
                    let j = choose|j: u64|
                        #[trigger] old_t.requests().contains_key(j) && old_t.requests()[j] == waiter;
                }
            }
            assert(!self.is_waiting(waiter));
        }
        let hex = crate::hex::encode(key);
        proof {
            crate::hash::lemma_hex_of_index(key@);
            if key@.len() == 32 {
                crate::hash::lemma_unhex_hex(key@);
            }
        }
        let chunk_hash = match crate::hash::Hash::from_hex(hex.as_str()) {
            Ok(h) => h,
            Err(_) => return ProvidersStep::Fail { waiter, error: FetchError::InvalidKey },
        };
        if providers.len() == 0 {
            return ProvidersStep::Fail { waiter, error: FetchError::NoProviders(chunk_hash) };
        }
        let mut untried = providers;
        let provider = untried.remove(0);
        self.awaiting_send.insert(waiter, FetchTarget { chunk: chunk_hash, untried });
        proof {
            assert(self.awaiting() =~= old_t.awaiting().insert(waiter, self.awaiting()[waiter]));
            assert forall|x: u64| #[trigger] self.is_waiting(x) <==> old_t.is_waiting(x) by {
                if x != waiter {
                    lemma_remove_value(old_t.lookups(), query, x);
                }
            }
        }
        ProvidersStep::Request { waiter, hash: chunk_hash, provider }
    }

    /// The request due for `waiter` went out as `request`. Returns the
    /// caller of an earlier request with the same number, who thereby loses
    /// its request. Nothing changes when no request is due for `waiter`.
    pub fn request_sent(&mut self, request: u64, waiter: u64) -> (displaced: Option<u64>)
        requires
            old(self).wf(),
        ensures
            final(self).wf(),
            final(self).lookups() == old(self).lookups(),
            final(self).next() == old(self).next(),
            !old(self).awaiting().contains_key(waiter) ==> {
                &&& displaced is None
                &&& final(self).awaiting() == old(self).awaiting()
                &&& final(self).requests() == old(self).requests()
                &&& final(self).targets() == old(self).targets()
            },
            old(self).awaiting().contains_key(waiter) ==> {
                &&& final(self).awaiting() == old(self).awaiting().remove(waiter)
                &&& final(self).requests() == old(self).requests().insert(request, waiter)
                &&& final(self).targets() == old(self).targets().insert(
                    request,
                    old(self).awaiting()[waiter],
                )
                &&& old(self).requests().contains_key(request) ==> displaced == Some(
                    old(self).requests()[request],
                )
                &&& !old(self).requests().contains_key(request) ==> displaced is None
            },
            forall|x: u64|
                #[trigger] final(self).is_waiting(x) <==> (old(self).is_waiting(x) && displaced
                    != Some(x)),
    {
        let ghost old_t = *self;
        let target = match self.awaiting_send.remove(&waiter) {
            Some(t) => t,
            None => {
                proof {
                    assert(self.awaiting() =~= old_t.awaiting());
                }
                return None;
            },
        };
        let displaced = self.pending_fetches.insert(request, waiter);
        self.fetch_targets.insert(request, target);
        proof {
            let m = old_t.requests();
            assert(!has_value(m, waiter)) by {
                if has_value(m, waiter) {
                    let j = choose|j: u64| #[trigger] m.contains_key(j) && m[j] == waiter;
                }
            }
            lemma_insert_value(m, request, waiter, waiter);
            assert(!has_value(old_t.lookups(), waiter)) by {
                if has_value(old_t.lookups(), waiter) {
                    let j = choose|j: u64|
                        #[trigger] old_t.lookups().contains_key(j) && old_t.lookups()[j] == waiter;
                }
            }
            assert forall|x: u64| #[trigger] self.is_waiting(x) <==> (old_t.is_waiting(x)
                && displaced != Some(x)) by {
                lemma_insert_value(m, request, waiter, x);
                if has_value(old_t.lookups(), x) && m.contains_key(request) && m[request] == x {
                    let j = choose|j: u64|
                        #[trigger] old_t.lookups().contains_key(j) && old_t.lookups()[j] == x;
                }
            }
            assert forall|q: u64, r: u64|
                #[trigger] self.lookups().contains_key(q) && #[trigger] self.requests().contains_key(
                    r,
                ) implies self.lookups()[q] != self.requests()[r] by {
                if r != request {
                    assert(m.contains_key(r));
                }
            }
            assert(self.requests().dom() =~= self.targets().dom());
        }
        displaced
    }

    /// Remove lookup `query`, answering its caller (if any) with `error`.
    fn end_lookup(&mut self, query: u64, error: FetchError) -> (r: Option<(u64, FetchError)>)
        requires
            old(self).wf(),
        ensures
            final(self).wf(),
            final(self).lookups() == old(self).lookups().remove(query),
            final(self).awaiting() == old(self).awaiting(),
            final(self).requests() == old(self).requests(),
            final(self).targets() == old(self).targets(),
            final(self).next() == old(self).next(),
            old(self).lookups().contains_key(query) ==> r == Some((old(self).lookups()[query], error)),
            !old(self).lookups().contains_key(query) ==> r is None,
            r matches Some((w, _)) ==> Self::answered(old(self), final(self), w),
            r is None ==> Self::same_waiting(old(self), final(self)),
    {
        let ghost old_t = *self;
        match self.pending_kad_lookups.remove(&query) {
            Some(w) => {
                proof {
                    lemma_remove_value(old_t.lookups(), query, w);
                    assert forall|x: u64| x != w implies (#[trigger] self.is_waiting(x)
                        <==> old_t.is_waiting(x)) by {
                        lemma_remove_value(old_t.lookups(), query, x);
                    }
                    assert(!has_value(old_t.requests(), w)) by {
                        if has_value(old_t.requests(), w) {
                            let j = choose|j: u64|
                                #[trigger] old_t.requests().contains_key(j) && old_t.requests()[j]
                                    == w;
                        }
                    }
                    assert(old_t.is_waiting(w)) by {
                        assert(old_t.lookups().contains_key(query));
                    }
                    assert forall|q: u64| #[trigger] self.lookups().contains_key(q) implies old_t.lookups().contains_key(q)
                        && self.lookups()[q] == old_t.lookups()[q] by {}
                    assert forall|q: u64, r: u64|
                        #[trigger] self.lookups().contains_key(q) && #[trigger] self.requests().contains_key(
                            r,
                        ) implies self.lookups()[q] != self.requests()[r] by {
                        assert(old_t.lookups().contains_key(q));
                    }
                    assert forall|x: u64| #[trigger] self.awaiting().contains_key(x) implies x < self.next() by {
                        assert(old_t.awaiting().contains_key(x));
                    }
                }
                Some((w, error))
            },
            None => {
                proof {
                    assert(self.lookups() =~= old_t.lookups().remove(query));
                    assert(self.lookups() =~= old_t.lookups());
                    assert forall|x: u64| #[trigger] self.awaiting().contains_key(x) implies x < self.next() by {
                        assert(old_t.awaiting().contains_key(x));
                    }
                }
                None
            },
        }
    }

    /// A provider lookup finished without providers: its caller, if any,
    /// is answered with an error.
    pub fn lookup_finished(&mut self, query: u64) -> (r: Option<(u64, FetchError)>)
        requires
            old(self).wf(),
        ensures
            final(self).wf(),
            final(self).lookups() == old(self).lookups().remove(query),
            final(self).awaiting() == old(self).awaiting(),
            final(self).requests() == old(self).requests(),
            final(self).targets() == old(self).targets(),
            final(self).next() == old(self).next(),
            old(self).lookups().contains_key(query) ==> r == Some(
                (old(self).lookups()[query], FetchError::LookupExhausted),
            ),
            !old(self).lookups().contains_key(query) ==> r is None,
            r matches Some((w, _)) ==> Self::answered(old(self), final(self), w),
            r is None ==> Self::same_waiting(old(self), final(self)),
    {
        self.end_lookup(query, FetchError::LookupExhausted)
    }

    /// A provider lookup failed: its caller, if any, is answered with an
    /// error.
    pub fn lookup_failed(&mut self, query: u64) -> (r: Option<(u64, FetchError)>)
        requires
            old(self).wf(),
        ensures
            final(self).wf(),
            final(self).lookups() == old(self).lookups().remove(query),
            final(self).awaiting() == old(self).awaiting(),
            final(self).requests() == old(self).requests(),
            final(self).targets() == old(self).targets(),
            final(self).next() == old(self).next(),
            old(self).lookups().contains_key(query) ==> r == Some(
                (old(self).lookups()[query], FetchError::LookupFailed),
            ),
            !old(self).lookups().contains_key(query) ==> r is None,
            r matches Some((w, _)) ==> Self::answered(old(self), final(self), w),
            r is None ==> Self::same_waiting(old(self), final(self)),
    {
        self.end_lookup(query, FetchError::LookupFailed)
    }

    /// Remove request `request`, handing back its caller and target.
    fn take_request(&mut self, request: u64) -> (r: Option<(u64, FetchTarget)>)
        requires
            old(self).wf(),
        ensures
            final(self).wf(),
            final(self).lookups() == old(self).lookups(),
            final(self).awaiting() == old(self).awaiting(),
            final(self).requests() == old(self).requests().remove(request),
            final(self).targets() == old(self).targets().remove(request),
            final(self).next() == old(self).next(),
            old(self).requests().contains_key(request) ==> (r matches Some((w, t)) && w == old(
                self,
            ).requests()[request] && t == old(self).targets()[request]),
            !old(self).requests().contains_key(request) ==> r is None,
            r matches Some((w, _)) ==> (Self::answered(old(self), final(self), w) && w < final(self).next()
                && !final(self).awaiting().contains_key(w)),
            r is None ==> Self::same_waiting(old(self), final(self)),
    {
        let ghost old_t = *self;
        match self.pending_fetches.remove(&request) {
            Some(w) => {
                let t = match self.fetch_targets.remove(&request) {
                    Some(t) => t,
                    None => {
                        assert(false);
                        return None;
                    },
                };
                proof {
                    assert(self.requests().dom() =~= self.targets().dom());
                    lemma_remove_value(old_t.requests(), request, w);
                    assert forall|x: u64| x != w implies (#[trigger] self.is_waiting(x)
                        <==> old_t.is_waiting(x)) by {
                        lemma_remove_value(old_t.requests(), request, x);
                    }
                    assert(!has_value(old_t.lookups(), w)) by {
                        if has_value(old_t.lookups(), w) {
                            let j = choose|j: u64|
                                #[trigger] old_t.lookups().contains_key(j) && old_t.lookups()[j]
                                    == w;
                        }
                    }
                    assert(old_t.is_waiting(w)) by {
                        assert(old_t.requests().contains_key(request));
                    }
                    assert forall|q: u64, r: u64|
                        #[trigger] self.lookups().contains_key(q) && #[trigger] self.requests().contains_key(
                            r,
                        ) implies self.lookups()[q] != self.requests()[r] by {
                        assert(old_t.requests().contains_key(r));
                    }
                    assert forall|r: u64| #[trigger] self.requests().contains_key(r) implies !self.awaiting().contains_key(
                        self.requests()[r],
                    ) && self.requests()[r] < self.next() by {
                        assert(old_t.requests().contains_key(r));
                    }
                    assert(!self.awaiting().contains_key(w));
                    assert forall|x: u64| #[trigger] self.awaiting().contains_key(x) implies x < self.next() by {
                        assert(old_t.awaiting().contains_key(x));
                    }
                }
                Some((w, t))
            },
            None => {
                proof {
                    assert(self.requests() =~= old_t.requests().remove(request));
                    assert(self.requests() =~= old_t.requests());
                    assert(self.fetch_targets@.remove(request) =~= self.fetch_targets@);
                    assert forall|x: u64| #[trigger] self.awaiting().contains_key(x) implies x < self.next() by {
                        assert(old_t.awaiting().contains_key(x));
                    }
                }
                None
            },
        }
    }

    /// A provider answered a request. Its caller, if any, gets the bytes;
    /// where the provider does not hold the chunk, the request is due again
    /// to the next provider not yet asked, and only when none is left is
    /// the caller answered with an error.
    pub fn response_received(&mut self, request: u64, response: FetchResponse) -> (step:
        ResponseStep)
        requires
            old(self).wf(),
        ensures
            final(self).wf(),
            final(self).lookups() == old(self).lookups(),
            final(self).requests() == old(self).requests().remove(request),
            final(self).targets() == old(self).targets().remove(request),
            final(self).next() == old(self).next(),
            !old(self).requests().contains_key(request) ==> step is Ignore,
            !(step is Retry) ==> final(self).awaiting() == old(self).awaiting(),
            step is Ignore ==> Self::same_waiting(old(self), final(self)),
            step matches ResponseStep::Answer { waiter, .. } ==> Self::answered(
                old(self),
                final(self),
                waiter,
            ),
            step is Retry ==> Self::same_waiting(old(self), final(self)),
            old(self).requests().contains_key(request) ==> {
                let w = old(self).requests()[request];
                let t = old(self).targets()[request];
                match response {
                    FetchResponse::Found { bytes } => step matches ResponseStep::Answer {
                        waiter,
                        result: Ok(b),
                    } && waiter == w && b@ == bytes@,
                    FetchResponse::NotFound => if t.untried@.len() == 0 {
                        step == (ResponseStep::Answer {
                            waiter: w,
                            result: Err(FetchError::NotFound),
                        })
                    } else {
                        step matches ResponseStep::Retry { waiter, hash, provider } && waiter == w
                            && hash == t.chunk && provider == t.untried@[0]
                            && final(self).awaiting() == old(self).awaiting().insert(
                            w,
                            final(self).awaiting()[w],
                        ) && final(self).awaiting()[w].chunk == t.chunk
                            && final(self).awaiting()[w].untried@ == t.untried@.skip(1)
                    },
                }
            },
    {
        let ghost old_t = *self;
        let (w, t) = match self.take_request(request) {
            Some(x) => x,
            None => return ResponseStep::Ignore,
        };
        match response {
            FetchResponse::Found { bytes } => ResponseStep::Answer { waiter: w, result: Ok(bytes) },
            FetchResponse::NotFound => {
                if t.untried.len() == 0 {
                    ResponseStep::Answer { waiter: w, result: Err(FetchError::NotFound) }
                } else {
                    let ghost mid = *self;
                    let chunk = t.chunk;
                    let mut untried = t.untried;
                    let provider = untried.remove(0);
                    self.awaiting_send.insert(w, FetchTarget { chunk, untried });
                    proof {
                        assert(self.awaiting() =~= old_t.awaiting().insert(w, self.awaiting()[w]));
                        assert(self.awaiting().contains_key(w));
                        assert forall|x: u64| #[trigger] self.is_waiting(x) <==> old_t.is_waiting(x)
                            by {
                            if x != w {
                                assert(mid.is_waiting(x) <==> old_t.is_waiting(x));
                            }
                        }
                        assert forall|q: u64| #[trigger] self.lookups().contains_key(q) implies !self.awaiting().contains_key(
                            self.lookups()[q],
                        ) && self.lookups()[q] < self.next() by {
                            if self.lookups()[q] == w {
                                assert(has_value(old_t.lookups(), w));
                            }
                        }
                        assert forall|r: u64| #[trigger] self.requests().contains_key(r) implies !self.awaiting().contains_key(
                            self.requests()[r],
                        ) && self.requests()[r] < self.next() by {
                            if self.requests()[r] == w {
                                assert(has_value(mid.requests(), w));
                            }
                        }
                    }
                    ResponseStep::Retry { waiter: w, hash: chunk, provider }
                }
            },
        }
    }

    /// A request to a provider failed: its caller, if any, is answered
    /// with an error.
    pub fn request_failed(&mut self, request: u64) -> (r: Option<(u64, FetchError)>)
        requires
            old(self).wf(),
        ensures
            final(self).wf(),
            final(self).lookups() == old(self).lookups(),
            final(self).awaiting() == old(self).awaiting(),
            final(self).requests() == old(self).requests().remove(request),
            final(self).targets() == old(self).targets().remove(request),
            final(self).next() == old(self).next(),
            old(self).requests().contains_key(request) ==> r == Some(
                (old(self).requests()[request], FetchError::RequestFailed),
            ),
            !old(self).requests().contains_key(request) ==> r is None,
            r matches Some((w, _)) ==> Self::answered(old(self), final(self), w),
            r is None ==> Self::same_waiting(old(self), final(self)),
    {
        match self.take_request(request) {
            Some((w, _)) => Some((w, FetchError::RequestFailed)),
            None => None,
        }
    }
}

/// Caller numbers are never reused: every caller that waits has a number
/// below `next`, and `lookup_started` hands out `next` itself and raises it.
/// With the steps' own contracts (an answered caller stops waiting, every
/// other caller's state is kept or moved, never duplicated), each caller is
/// answered at most once and waits in one place at a time.
pub proof fn law_waiting_callers_below_next(t: FetchTracker, w: u64)
    requires
        t.wf(),
        t.is_waiting(w),
    ensures
        w < t.next(),
{
    if has_value(t.lookups(), w) {
        let q = choose|q: u64| #[trigger] t.lookups().contains_key(q) && t.lookups()[q] == w;
    } else if has_value(t.requests(), w) {
        let r = choose|r: u64| #[trigger] t.requests().contains_key(r) && t.requests()[r] == w;
    }
}

} // verus!

//! Bootstrap list handling.
//!
//! On startup the node fetches the published bootstrap list and merges
//! it with its hardcoded list; if the fetch fails it uses the hardcoded
//! list alone. The fetch itself is network I/O done by the caller; this
//! module turns the fetched list into addresses and does the merge.

use vstd::prelude::*;

verus! {

/// Where the published bootstrap list lives.
pub const DEFAULT_BOOTSTRAP_URL: &'static str = "https://c0mpute.com/bootstrap.json";

/// libp2p's multiaddress type, carried opaquely.
#[verifier::external_type_specification]
#[verifier::external_body]
pub struct ExMultiaddr(libp2p::Multiaddr);

/// The published bootstrap list.
#[derive(Clone, Debug)]
pub struct BootstrapFile {
    pub version: u32,
    pub protocol_id: Option<String>,
    pub peers: Vec<BootstrapPeer>,
}

/// One seed peer: its peer id and the addresses it listens on.
#[derive(Clone, Debug)]
pub struct BootstrapPeer {
    pub id: String,
    pub addrs: Vec<String>,
    pub operator: Option<String>,
    pub region: Option<String>,
}

/// What parsing a string as a `Multiaddr` gives: the address, or `None`
/// where the string is not one.
pub uninterp spec fn multiaddr_of(s: Seq<char>) -> Option<libp2p::Multiaddr>;

/// Calls `str::parse::<Multiaddr>` (the `FromStr` impl of the `multiaddr`
/// crate that libp2p re-exports) and keeps the address where it parsed.
/// The result is a function of the string alone; its source also shows
/// that a non-empty string not starting with `/` never parses.
#[verifier::external_body]
fn parse_multiaddr(s: &str) -> (r: Option<libp2p::Multiaddr>)
    ensures
        r == multiaddr_of(s@),
        r is Some ==> s@.len() == 0 || s@[0] == '/',
{
    s.parse::<libp2p::Multiaddr>().ok()
}

/// Calls the derived `PartialEq` of `Multiaddr`, which compares the
/// encoded bytes, so two addresses compare equal exactly when they are the
/// same address.
#[verifier::external_body]
fn multiaddr_eq(a: &libp2p::Multiaddr, b: &libp2p::Multiaddr) -> (r: bool)
    ensures
        r == (*a == *b),
{
    *a == *b
}

/// `<addr>/p2p/<peer id>` for every address of one peer, in order.
pub open spec fn peer_candidates(p: BootstrapPeer) -> Seq<Seq<char>> {
    p.addrs@.map_values(|a: String| a@ + "/p2p/"@ + p.id@)
}

/// The candidate address strings of all peers, peer by peer.
pub open spec fn candidates(peers: Seq<BootstrapPeer>) -> Seq<Seq<char>>
    decreases peers.len(),
{
    if peers.len() == 0 {
        Seq::empty()
    } else {
        candidates(peers.drop_last()) + peer_candidates(peers.last())
    }
}

/// The addresses among `cs` that parse, in order.
pub open spec fn parsed(cs: Seq<Seq<char>>) -> Seq<libp2p::Multiaddr>
    decreases cs.len(),
{
    if cs.len() == 0 {
        Seq::empty()
    } else {
        parsed(cs.drop_last()) + match multiaddr_of(cs.last()) {
            Some(m) => seq![m],
            None => Seq::empty(),
        }
    }
}

proof fn lemma_parsed_concat(a: Seq<Seq<char>>, b: Seq<Seq<char>>)
    ensures
        parsed(a + b) == parsed(a) + parsed(b),
    decreases b.len(),
{
    if b.len() == 0 {
        assert(a + b =~= a);
        assert(parsed(a) + parsed(b) =~= parsed(a));
    } else {
        assert((a + b).drop_last() =~= a + b.drop_last());
        assert((a + b).last() == b.last());
        lemma_parsed_concat(a, b.drop_last());
        let tail = match multiaddr_of(b.last()) {
            Some(m) => seq![m],
            None => Seq::<libp2p::Multiaddr>::empty(),
        };
        assert(parsed(a) + parsed(b.drop_last()) + tail =~= parsed(a) + (parsed(b.drop_last())
            + tail));
    }
}

proof fn lemma_parsed_contains(cs: Seq<Seq<char>>, k: int)
    requires
        0 <= k < cs.len(),
        multiaddr_of(cs[k]) is Some,
    ensures
        parsed(cs).contains(multiaddr_of(cs[k])->0),
    decreases cs.len(),
{
    let m = multiaddr_of(cs[k])->0;
    if k == cs.len() - 1 {
        let pre = parsed(cs.drop_last());
        assert(parsed(cs) == pre + seq![m]);
        assert(parsed(cs)[pre.len() as int] == m);
    } else {
        assert(cs.drop_last()[k] == cs[k]);
        lemma_parsed_contains(cs.drop_last(), k);
        let pre = parsed(cs.drop_last());
        let t = choose|t: int| 0 <= t < pre.len() && pre[t] == m;
        assert(parsed(cs)[t] == pre[t]);
    }
}

proof fn lemma_parsed_origin(cs: Seq<Seq<char>>, m: libp2p::Multiaddr)
    requires
        parsed(cs).contains(m),
    ensures
        exists|k: int| 0 <= k < cs.len() && multiaddr_of(#[trigger] cs[k]) == Some(m),
    decreases cs.len(),
{
    if cs.len() > 0 {
        let pre = parsed(cs.drop_last());
        let t = choose|t: int| 0 <= t < parsed(cs).len() && parsed(cs)[t] == m;
        if t < pre.len() {
            assert(pre[t] == m);
            lemma_parsed_origin(cs.drop_last(), m);
            let k = choose|k: int|
                0 <= k < cs.drop_last().len() && multiaddr_of(#[trigger] cs.drop_last()[k]) == Some(
                    m,
                );
            assert(cs[k] == cs.drop_last()[k]);
        } else {
            assert(multiaddr_of(cs[cs.len() - 1]) == Some(m));
        }
    }
}

proof fn lemma_candidates_has(peers: Seq<BootstrapPeer>, p: int, a: int)
    requires
        0 <= p < peers.len(),
        0 <= a < peers[p].addrs@.len(),
    ensures
        exists|k: int|
            0 <= k < candidates(peers).len() && #[trigger] candidates(peers)[k] == peers[p].addrs@[a]@
                + "/p2p/"@ + peers[p].id@,
    decreases peers.len(),
{
    let pre = candidates(peers.drop_last());
    if p == peers.len() - 1 {
        let k = pre.len() + a;
        assert(candidates(peers)[k] == peer_candidates(peers.last())[a]);
    } else {
        assert(peers.drop_last()[p] == peers[p]);
        lemma_candidates_has(peers.drop_last(), p, a);
        let k = choose|k: int|
            0 <= k < pre.len() && #[trigger] pre[k] == peers[p].addrs@[a]@ + "/p2p/"@ + peers[p].id@;
        assert(candidates(peers)[k] == pre[k]);
    }
}

proof fn lemma_candidates_origin(peers: Seq<BootstrapPeer>, k: int)
    requires
        0 <= k < candidates(peers).len(),
    ensures
        exists|p: int, a: int|
            0 <= p < peers.len() && 0 <= a < peers[p].addrs@.len() && candidates(peers)[k]
                == #[trigger] seed_addr(peers[p], a),
    decreases peers.len(),
{
    let pre = candidates(peers.drop_last());
    if k < pre.len() {
        assert(candidates(peers)[k] == pre[k]);
        lemma_candidates_origin(peers.drop_last(), k);
        let (p, a) = choose|p: int, a: int|
            0 <= p < peers.drop_last().len() && 0 <= a < peers.drop_last()[p].addrs@.len()
                && pre[k] == #[trigger] seed_addr(peers.drop_last()[p], a);
        assert(peers.drop_last()[p] == peers[p]);
    } else {
        let a = k - pre.len();
        assert(candidates(peers)[k] == peer_candidates(peers.last())[a]);
        assert(peers[peers.len() - 1] == peers.last());
        assert(candidates(peers)[k] == seed_addr(peers[peers.len() - 1], a));
    }
}

/// The address string `<addr>/p2p/<id>` for address `a` of a peer.
pub open spec fn seed_addr(peer: BootstrapPeer, a: int) -> Seq<char> {
    peer.addrs@[a]@ + "/p2p/"@ + peer.id@
}

/// The candidates of one peer are its addresses, in order, each followed by
/// `/p2p/` and the peer's id.
pub proof fn law_peer_candidates(peer: BootstrapPeer)
    ensures
        peer_candidates(peer).len() == peer.addrs@.len(),
        forall|a: int|
            0 <= a < peer.addrs@.len() ==> #[trigger] peer_candidates(peer)[a] == peer.addrs@[a]@
                + "/p2p/"@ + peer.id@,
{
}

/// The candidates of a list are those of its peers one after the other:
/// the flattening of each peer's candidates, in list order.
pub proof fn law_candidates_flatten(peers: Seq<BootstrapPeer>)
    ensures
        candidates(peers) == peers.map_values(|q: BootstrapPeer| peer_candidates(q)).flatten(),
    decreases peers.len(),
{
    let f = |q: BootstrapPeer| peer_candidates(q);
    if peers.len() == 0 {
        assert(peers.map_values(f) =~= Seq::<Seq<Seq<char>>>::empty());
    } else {
        law_candidates_flatten(peers.drop_last());
        assert(peers.map_values(f) =~= peers.drop_last().map_values(f).push(peer_candidates(
            peers.last(),
        )));
        peers.drop_last().map_values(f).lemma_flatten_push(peer_candidates(peers.last()));
    }
}

/// Parsing keeps the order of the strings: parsing two runs of strings one
/// after the other gives the two results one after the other, and a single
/// string gives its address, or nothing where it does not parse.
pub proof fn law_parsed_concat(a: Seq<Seq<char>>, b: Seq<Seq<char>>, s: Seq<char>)
    ensures
        parsed(a + b) == parsed(a) + parsed(b),
        parsed(seq![s]) == match multiaddr_of(s) {
            Some(m) => seq![m],
            None => Seq::<libp2p::Multiaddr>::empty(),
        },
{
    lemma_parsed_concat(a, b);
    assert(seq![s].drop_last() =~= Seq::<Seq<char>>::empty());
    assert(parsed(Seq::<Seq<char>>::empty()) + match multiaddr_of(s) {
        Some(m) => seq![m],
        None => Seq::<libp2p::Multiaddr>::empty(),
    } =~= match multiaddr_of(s) {
        Some(m) => seq![m],
        None => Seq::<libp2p::Multiaddr>::empty(),
    });
}

/// Parsing keeps, in order, the address of each string that parses.
pub proof fn law_parsed_filter_map(cs: Seq<Seq<char>>)
    ensures
        parsed(cs) == cs.filter_map(|c: Seq<char>| multiaddr_of(c)),
    decreases cs.len(),
{
    if cs.len() > 0 {
        law_parsed_filter_map(cs.drop_last());
        match multiaddr_of(cs.last()) {
            Some(m) => {},
            None => {
                assert(parsed(cs.drop_last()) + Seq::<libp2p::Multiaddr>::empty() =~= parsed(
                    cs.drop_last(),
                ));
            },
        }
    }
}

/// Adding a seed peer at the end of the list adds exactly that peer's
/// parsed addresses at the end of the result: the addresses of the list
/// with `q` appended are those of the list, followed by `q`'s.
pub proof fn law_addrs_append(peers: Seq<BootstrapPeer>, q: BootstrapPeer)
    ensures
        parsed(candidates(peers.push(q))) == parsed(candidates(peers)) + parsed(peer_candidates(q)),
{
    assert(peers.push(q).drop_last() =~= peers);
    lemma_parsed_concat(candidates(peers), peer_candidates(q));
}

/// Every address of every seed peer that parses, with the peer id
/// appended, is among the parsed candidates; and every parsed candidate is
/// such an address.
pub proof fn law_addrs_cover_every_peer(peers: Seq<BootstrapPeer>)
    ensures
        forall|p: int, a: int|
            0 <= p < peers.len() && 0 <= a < peers[p].addrs@.len() && (#[trigger] multiaddr_of(
                seed_addr(peers[p], a),
            )) is Some ==> parsed(candidates(peers)).contains(
                multiaddr_of(seed_addr(peers[p], a))->0,
            ),
        forall|m: libp2p::Multiaddr|
            #[trigger] parsed(candidates(peers)).contains(m) ==> exists|p: int, a: int|
                0 <= p < peers.len() && 0 <= a < peers[p].addrs@.len() && #[trigger] multiaddr_of(
                    seed_addr(peers[p], a),
                ) == Some(m),
{
    let cs = candidates(peers);
    assert forall|p: int, a: int|
        0 <= p < peers.len() && 0 <= a < peers[p].addrs@.len() && (#[trigger] multiaddr_of(
            seed_addr(peers[p], a),
        )) is Some implies parsed(cs).contains(multiaddr_of(seed_addr(peers[p], a))->0) by {
        lemma_candidates_has(peers, p, a);
        let k = choose|k: int|
            0 <= k < cs.len() && #[trigger] cs[k] == peers[p].addrs@[a]@ + "/p2p/"@ + peers[p].id@;
        lemma_parsed_contains(cs, k);
    }
    assert forall|m: libp2p::Multiaddr| #[trigger] parsed(cs).contains(m) implies exists|
        p: int,
        a: int,
    |
        0 <= p < peers.len() && 0 <= a < peers[p].addrs@.len() && #[trigger] multiaddr_of(
            seed_addr(peers[p], a),
        ) == Some(m) by {
        lemma_parsed_origin(cs, m);
        let k = choose|k: int| 0 <= k < cs.len() && multiaddr_of(#[trigger] cs[k]) == Some(m);
        lemma_candidates_origin(peers, k);
        let (p, a) = choose|p: int, a: int|
            0 <= p < peers.len() && 0 <= a < peers[p].addrs@.len() && cs[k]
                == #[trigger] seed_addr(peers[p], a);
        assert(multiaddr_of(seed_addr(peers[p], a)) == Some(m));
    }
}

/// Convert the peers of a bootstrap list to addresses embedding their peer
/// id (`<addr>/p2p/<id>`), skipping those that do not parse.
pub fn addrs_from_file(file: &BootstrapFile) -> (r: Vec<libp2p::Multiaddr>)
    ensures
        r@ == parsed(candidates(file.peers@)),
        r@ == file.peers@.map_values(
            |q: BootstrapPeer| q.addrs@.map_values(|a: String| a@ + "/p2p/"@ + q.id@),
        ).flatten().filter_map(|c: Seq<char>| multiaddr_of(c)),
        forall|p: int, a: int|
            0 <= p < file.peers@.len() && 0 <= a < file.peers@[p].addrs@.len() && (
            #[trigger] multiaddr_of(seed_addr(file.peers@[p], a))) is Some ==> r@.contains(
                multiaddr_of(seed_addr(file.peers@[p], a))->0,
            ),
        forall|m: libp2p::Multiaddr|
            #[trigger] r@.contains(m) ==> exists|p: int, a: int|
                0 <= p < file.peers@.len() && 0 <= a < file.peers@[p].addrs@.len()
                    && #[trigger] multiaddr_of(seed_addr(file.peers@[p], a)) == Some(m),
{
    let mut out: Vec<libp2p::Multiaddr> = Vec::new();
    let ghost peers = file.peers@;
    let mut i: usize = 0;
    while i < file.peers.len()
        invariant
            i <= peers.len(),
            peers == file.peers@,
            out@ == parsed(candidates(peers.take(i as int))),
        decreases peers.len() - i,
    {
        let p = &file.peers[i];
        let ghost before = candidates(peers.take(i as int));
        let mut j: usize = 0;
        while j < p.addrs.len()
            invariant
                j <= p.addrs@.len(),
                out@ == parsed(before + peer_candidates(*p).take(j as int)),
            decreases p.addrs@.len() - j,
        {
            let mut full = p.addrs[j].clone();
            full.append("/p2p/");
            full.append(p.id.as_str());
            let ghost cs = before + peer_candidates(*p).take(j as int);
            assert(before + peer_candidates(*p).take(j as int + 1) =~= cs.push(full@));
            assert(cs.push(full@).drop_last() =~= cs);
            match parse_multiaddr(full.as_str()) {
                Some(m) => {
                    out.push(m);
                },
                None => {},
            }
            j = j + 1;
        }
        assert(peers.take(i as int + 1).drop_last() =~= peers.take(i as int));
        assert(peer_candidates(*p).take(p.addrs@.len() as int) =~= peer_candidates(*p));
        i = i + 1;
    }
    assert(peers.take(peers.len() as int) =~= peers);
    proof {
        law_candidates_flatten(peers);
        law_parsed_filter_map(candidates(peers));
        let per_peer = peers.map_values(|q: BootstrapPeer| peer_candidates(q));
        let spelled = peers.map_values(
            |q: BootstrapPeer| q.addrs@.map_values(|a: String| a@ + "/p2p/"@ + q.id@),
        );
        assert forall|i: int| 0 <= i < peers.len() implies #[trigger] per_peer[i] == spelled[i] by {
            assert(per_peer[i] =~= spelled[i]);
        }
        assert(per_peer =~= spelled);
        law_addrs_cover_every_peer(peers);
    }
    out
}

/// `acc` with each element of `fb` that it does not already hold pushed in
/// order.
pub open spec fn merged(acc: Seq<libp2p::Multiaddr>, fb: Seq<libp2p::Multiaddr>) -> Seq<
    libp2p::Multiaddr,
>
    decreases fb.len(),
{
    if fb.len() == 0 {
        acc
    } else {
        merged(
            if acc.contains(fb[0]) {
                acc
            } else {
                acc.push(fb[0])
            },
            fb.drop_first(),
        )
    }
}

proof fn lemma_merged(acc: Seq<libp2p::Multiaddr>, fb: Seq<libp2p::Multiaddr>)
    ensures
        merged(acc, fb).len() >= acc.len(),
        merged(acc, fb).take(acc.len() as int) == acc,
        forall|a: libp2p::Multiaddr| fb.contains(a) ==> #[trigger] merged(acc, fb).contains(a),
        forall|a: libp2p::Multiaddr| acc.contains(a) ==> #[trigger] merged(acc, fb).contains(a),
        forall|a: libp2p::Multiaddr|
            #[trigger] merged(acc, fb).contains(a) ==> acc.contains(a) || fb.contains(a),
        acc.no_duplicates() ==> merged(acc, fb).no_duplicates(),
    decreases fb.len(),
{
    if fb.len() > 0 {
        let next = if acc.contains(fb[0]) {
            acc
        } else {
            acc.push(fb[0])
        };
        lemma_merged(next, fb.drop_first());
        assert(next.take(acc.len() as int) =~= acc);
        let m = merged(acc, fb);
        assert(m.take(next.len() as int).take(acc.len() as int) =~= m.take(acc.len() as int));
        assert forall|a: libp2p::Multiaddr| fb.contains(a) implies #[trigger] m.contains(a) by {
            if a == fb[0] {
                if !acc.contains(fb[0]) {
                    assert(next[acc.len() as int] == a);
                }
                assert(next.contains(a));
            } else {
                let t = choose|t: int| 0 <= t < fb.len() && fb[t] == a;
                assert(fb.drop_first()[t - 1] == a);
            }
        }
        assert forall|a: libp2p::Multiaddr| acc.contains(a) implies #[trigger] m.contains(a) by {
            let t = choose|t: int| 0 <= t < acc.len() && acc[t] == a;
            assert(next[t] == a);
        }
        assert forall|a: libp2p::Multiaddr| #[trigger] m.contains(a) implies acc.contains(a)
            || fb.contains(a) by {
            if next.contains(a) && !acc.contains(a) {
                assert(a == fb[0]) by {
                    let t = choose|t: int| 0 <= t < next.len() && next[t] == a;
                    if t < acc.len() {
                        assert(acc[t] == a);
                    }
                }
                assert(fb[0] == a);
            }
            if fb.drop_first().contains(a) {
                let t = choose|t: int| 0 <= t < fb.drop_first().len() && fb.drop_first()[t] == a;
                assert(fb[t + 1] == a);
            }
        }
    }
}

/// Merging with one more fallback address at the end adds it at the end,
/// unless the merge already holds it; merging with no fallback addresses
/// leaves the list as it is.
pub proof fn law_merged_push(acc: Seq<libp2p::Multiaddr>, fb: Seq<libp2p::Multiaddr>, x: libp2p::Multiaddr)
    ensures
        merged(acc, Seq::empty()) == acc,
        merged(acc, fb.push(x)) == if merged(acc, fb).contains(x) {
            merged(acc, fb)
        } else {
            merged(acc, fb).push(x)
        },
    decreases fb.len(),
{
    if fb.len() > 0 {
        let next = if acc.contains(fb[0]) {
            acc
        } else {
            acc.push(fb[0])
        };
        assert(fb.push(x).drop_first() =~= fb.drop_first().push(x));
        assert(fb.push(x)[0] == fb[0]);
        law_merged_push(next, fb.drop_first(), x);
    } else {
        let next = if acc.contains(x) {
            acc
        } else {
            acc.push(x)
        };
        assert(fb.push(x)[0] == x);
        assert(fb.push(x).drop_first() =~= Seq::<libp2p::Multiaddr>::empty());
        assert(merged(next, Seq::<libp2p::Multiaddr>::empty()) == next);
        assert(merged(acc, fb) == acc);
    }
}

fn contains_addr(v: &Vec<libp2p::Multiaddr>, a: &libp2p::Multiaddr) -> (r: bool)
    ensures
        r == v@.contains(*a),
{
    let mut i: usize = 0;
    while i < v.len()
        invariant
            i <= v@.len(),
            forall|t: int| 0 <= t < i ==> v@[t] != *a,
        decreases v@.len() - i,
    {
        if multiaddr_eq(&v[i], a) {
            return true;
        }
        i = i + 1;
    }
    false
}

/// Merge a fetched list with the hardcoded fallback list: the fetched
/// addresses first, in order, then each fallback address that is not
/// already there. Without a fetched list, the fallback list alone.
pub fn choose_bootstrap(fetched: Option<Vec<libp2p::Multiaddr>>, fallback: Vec<libp2p::Multiaddr>) -> (r:
    Vec<libp2p::Multiaddr>)
    ensures
        fetched is None ==> r@ == fallback@,
        fetched matches Some(remote) ==> {
            &&& r@ == merged(remote@, fallback@)
            &&& r@.take(remote@.len() as int) == remote@
            &&& forall|a: libp2p::Multiaddr| #[trigger] r@.contains(a) <==> (remote@.contains(a)
                || fallback@.contains(a))
            &&& remote@.no_duplicates() ==> r@.no_duplicates()
        },
{
    match fetched {
        None => fallback,
        Some(remote) => {
            let ghost r0 = remote@;
            let ghost fb = fallback@;
            let mut out = remote;
            let mut rest = fallback;
            let ghost mut done: int = 0;
            while rest.len() > 0
                invariant
                    0 <= done <= fb.len(),
                    rest@ == fb.skip(done),
                    merged(out@, rest@) == merged(r0, fb),
                decreases rest@.len(),
            {
                let f = rest.remove(0);
                let ghost old_out = out@;
                if !contains_addr(&out, &f) {
                    out.push(f);
                }
                proof {
                    assert(rest@ =~= fb.skip(done + 1));
                    assert(fb.skip(done).drop_first() =~= fb.skip(done + 1));
                    done = done + 1;
                }
            }
            proof {
                lemma_merged(r0, fb);
            }
            out
        },
    }
}

} // verus!

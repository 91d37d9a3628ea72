use c0mpute::bootstrap::{addrs_from_file, choose_bootstrap, BootstrapFile, BootstrapPeer, DEFAULT_BOOTSTRAP_URL};
use libp2p::Multiaddr;

const PEER: &str = "12D3KooWD3eckifWpRn9wQpMG9R9hX3sD158z7EqHWmweQAJU5SA";

fn file() -> BootstrapFile {
    BootstrapFile {
        version: 1,
        protocol_id: None,
        peers: vec![
            BootstrapPeer {
                id: PEER.to_string(),
                addrs: vec![
                    "/ip4/1.2.3.4/tcp/4001".to_string(),
                    "not an address".to_string(),
                    "/dns4/seed.example/tcp/4001".to_string(),
                ],
                operator: Some("ops".to_string()),
                region: None,
            },
            BootstrapPeer { id: "bogus".to_string(), addrs: vec!["/ip4/5.6.7.8/tcp/1".to_string()], operator: None, region: None },
        ],
    }
}

#[test]
fn peers_become_p2p_addresses() {
    let addrs = addrs_from_file(&file());
    assert_eq!(addrs.len(), 2);
    assert_eq!(addrs[0].to_string(), format!("/ip4/1.2.3.4/tcp/4001/p2p/{PEER}"));
    assert_eq!(addrs[1].to_string(), format!("/dns4/seed.example/tcp/4001/p2p/{PEER}"));
}

#[test]
fn empty_list_gives_no_addresses() {
    let f = BootstrapFile { version: 1, protocol_id: Some("/c0mpute/kad/1.0.0".into()), peers: vec![] };
    assert!(addrs_from_file(&f).is_empty());
}

#[test]
fn fetched_list_is_merged_with_fallback() {
    let a: Multiaddr = "/ip4/1.1.1.1/tcp/1".parse().unwrap();
    let b: Multiaddr = "/ip4/2.2.2.2/tcp/2".parse().unwrap();
    let c: Multiaddr = "/ip4/3.3.3.3/tcp/3".parse().unwrap();
    let merged = choose_bootstrap(Some(vec![a.clone(), b.clone()]), vec![b.clone(), c.clone(), c.clone()]);
    assert_eq!(merged, vec![a, b, c]);
}

#[test]
fn failed_fetch_uses_fallback() {
    let c: Multiaddr = "/ip4/3.3.3.3/tcp/3".parse().unwrap();
    assert_eq!(choose_bootstrap(None, vec![c.clone()]), vec![c]);
}

#[test]
fn default_url() {
    assert_eq!(DEFAULT_BOOTSTRAP_URL, "https://c0mpute.com/bootstrap.json");
}

use lpm_trie::addr::Ipv4Address;
use lpm_trie::trie::TrieError;
use lpm_trie::trie::TrieNode;

fn ip(a: u8, b: u8, c: u8, d: u8) -> Ipv4Address {
    Ipv4Address::new(a, b, c, d)
}

#[test]
fn concrete_scenario() {
    let mut trie = TrieNode::new();
    assert_eq!(
        trie.insert(ip(192, 168, 0, 0), String::from("en01"), 24),
        Ok(String::from("en01"))
    );
    assert_eq!(
        trie.insert(ip(127, 0, 0, 0), String::from("en02"), 24),
        Ok(String::from("en02"))
    );
    assert_eq!(
        trie.insert(ip(192, 168, 0, 32), String::from("en03"), 28),
        Ok(String::from("en03"))
    );
    assert_eq!(trie.search(&ip(192, 168, 0, 33)), Ok(String::from("en03")));
    assert_eq!(trie.search(&ip(10, 0, 0, 1)), Err(TrieError::NoRouteFound));
}

#[test]
fn overwrite_same_prefix_keeps_second_route() {
    let mut trie = TrieNode::new();
    trie.insert(ip(10, 1, 0, 0), String::from("first"), 16).unwrap();
    trie.insert(ip(10, 1, 0, 0), String::from("second"), 16).unwrap();
    assert_eq!(trie.search(&ip(10, 1, 2, 3)), Ok(String::from("second")));
}

#[test]
fn more_specific_prefix_wins() {
    let mut trie = TrieNode::new();
    trie.insert(ip(10, 0, 0, 0), String::from("coarse"), 8).unwrap();
    trie.insert(ip(10, 2, 0, 0), String::from("fine"), 24).unwrap();
    assert_eq!(trie.search(&ip(10, 2, 0, 77)), Ok(String::from("fine")));
    assert_eq!(trie.search(&ip(10, 3, 0, 77)), Ok(String::from("coarse")));
}

#[test]
fn no_covering_prefix_is_an_error() {
    let mut trie = TrieNode::new();
    assert_eq!(trie.search(&ip(1, 2, 3, 4)), Err(TrieError::NoRouteFound));
    trie.insert(ip(192, 168, 0, 0), String::from("lan"), 24).unwrap();
    assert_eq!(trie.search(&ip(192, 169, 0, 5)), Err(TrieError::NoRouteFound));
    assert_eq!(trie.search(&ip(0, 0, 0, 0)), Err(TrieError::NoRouteFound));
}

#[test]
fn default_route_covers_every_address() {
    let mut trie = TrieNode::new();
    trie.insert(ip(0, 0, 0, 0), String::from("default"), 0).unwrap();
    assert_eq!(trie.search(&ip(0, 0, 0, 0)), Ok(String::from("default")));
    assert_eq!(trie.search(&ip(255, 255, 255, 255)), Ok(String::from("default")));
    assert_eq!(trie.search(&ip(8, 8, 8, 8)), Ok(String::from("default")));
    trie.insert(ip(8, 8, 8, 0), String::from("dns"), 24).unwrap();
    assert_eq!(trie.search(&ip(8, 8, 8, 8)), Ok(String::from("dns")));
    assert_eq!(trie.search(&ip(8, 8, 9, 8)), Ok(String::from("default")));
}

#[test]
fn full_length_prefix_matches_one_address() {
    let mut trie = TrieNode::new();
    trie.insert(ip(172, 16, 5, 9), String::from("host"), 32).unwrap();
    assert_eq!(trie.search(&ip(172, 16, 5, 9)), Ok(String::from("host")));
    assert_eq!(trie.search(&ip(172, 16, 5, 8)), Err(TrieError::NoRouteFound));
    assert_eq!(trie.search(&ip(172, 16, 5, 10)), Err(TrieError::NoRouteFound));
    assert_eq!(trie.search(&ip(172, 16, 4, 9)), Err(TrieError::NoRouteFound));
}

#[test]
fn oversized_prefix_length_is_rejected() {
    let mut trie = TrieNode::new();
    trie.insert(ip(10, 0, 0, 0), String::from("kept"), 8).unwrap();
    assert_eq!(
        trie.insert(ip(10, 0, 0, 0), String::from("bad"), 33),
        Err(TrieError::InsertionFailed)
    );
    assert_eq!(
        trie.insert(ip(10, 0, 0, 0), String::from("bad"), usize::MAX),
        Err(TrieError::InsertionFailed)
    );
    assert_eq!(trie.search(&ip(10, 9, 9, 9)), Ok(String::from("kept")));
}

#[test]
fn sibling_branches_stay_separate() {
    let mut trie = TrieNode::new();
    trie.insert(ip(128, 0, 0, 0), String::from("high"), 1).unwrap();
    assert_eq!(trie.search(&ip(200, 1, 2, 3)), Ok(String::from("high")));
    assert_eq!(trie.search(&ip(100, 1, 2, 3)), Err(TrieError::NoRouteFound));
}

#[test]
fn address_octets_are_stored_in_order() {
    let a = ip(1, 2, 3, 4);
    assert_eq!(a.octets, [1, 2, 3, 4]);
    assert!(a.bit_at(7));
    assert!(!a.bit_at(6));
    assert!(a.bit_at(14));
    assert!(a.bit_at(31) == false);
    assert!(a.bit_at(29));
}

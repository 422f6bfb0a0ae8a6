use stacc::links::{Arena, Node, NULL};

#[test]
fn arena_links_and_unlinks_at_the_top() {
    let mut a: Arena<u8> = Arena::new();
    assert_eq!(a.top(), NULL);
    assert_eq!(a.len(), 0);
    let n0 = a.insert(Node { data: Some(1), next: NULL });
    assert_eq!(n0, 0);
    assert_eq!(a.link(n0, NULL), Ok(()));
    let n1 = a.insert(Node { data: Some(2), next: n0 });
    assert_eq!(a.link(n1, n0), Ok(()));
    assert_eq!((a.top(), a.len(), a.count()), (1, 2, 2));
    assert_eq!(a.next(n1), n0);
    // a compare-and-swap against a node that is not on top fails
    assert_eq!(a.unlink(n0, NULL), Err(n1));
    assert_eq!(a.unlink(n1, n0), Ok(()));
    assert_eq!(a.take(n1), Some(2));
    a.retire(n1);
    assert_eq!((a.top(), a.len()), (0, 1));
    // the idle node is taken in hand again and linked
    a.store(n1, Node { data: Some(3), next: NULL });
    assert_eq!(a.link(n1, NULL), Err(n0));
    a.set_next(n1, n0);
    assert_eq!(a.link(n1, n0), Ok(()));
    assert_eq!((a.top(), a.len(), a.count()), (1, 2, 2));
}

use curly_giggle::score::Score;
use curly_giggle::zskipnode::{ZSkipLevel, ZSkipNode};

#[test]
fn node_head_is_empty() {
    let node = ZSkipNode::head(5);
    assert_eq!(node.val, None);
    assert!(node.is_head());
    assert_eq!(node.level(), 5);
    assert!(node.is_tail());
    for l in node.level.iter() {
        assert_eq!(*l, ZSkipLevel { forward: None, span: 0 });
    }
}

#[test]
fn node_new_holds_member() {
    let node = ZSkipNode::new(42, 3, Score::from_bits(1.5f64.to_bits()));
    assert_eq!(node.val, Some(42));
    assert!(!node.is_head());
    assert_eq!(node.level(), 3);
    assert_eq!(node.get_span(2), 0);
    assert_eq!(node.score.to_bits(), 1.5f64.to_bits());
    assert_eq!(node.into_val(), Some(42));
}

#[test]
fn node_item_and_score_order() {
    let a = ZSkipNode::new(1, 2, Score::from_bits((-2.0f64).to_bits()));
    let b = ZSkipNode::new(2, 1, Score::from_bits(3.0f64.to_bits()));
    let c = ZSkipNode::new(3, 1, Score::from_bits(3.0f64.to_bits()));
    assert_eq!(a.cmp(&b), std::cmp::Ordering::Less);
    assert_eq!(b.cmp(&a), std::cmp::Ordering::Greater);
    assert_eq!(b.cmp(&c), std::cmp::Ordering::Equal);
    assert_eq!(c.into_item(), 3);
}

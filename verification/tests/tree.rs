use box_core::tree::TreeNode;
use box_core::{BoxValue, BoxVariant, Color};

#[test]
fn test_into_tree() {
    let a = BoxValue::from(2) + BoxValue::alpha();
    let exp = TreeNode::new(
        Color::Black,
        1,
        vec![
            TreeNode::leaf(Color::Black, 2),
            TreeNode::new(Color::Black, 1, vec![TreeNode::leaf(Color::Black, 1)]),
        ],
    );

    assert_eq!(TreeNode::from(a), exp);

    let a = BoxVariant::from(2) + BoxVariant::alpha();
    let exp = TreeNode::new(
        Color::Black,
        1,
        vec![
            TreeNode::leaf(Color::Black, 2),
            TreeNode::new(Color::Black, 1, vec![TreeNode::leaf(Color::Black, 1)]),
        ],
    );

    assert_eq!(TreeNode::from(a), exp);
}

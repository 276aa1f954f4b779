use trext::piecetree::{BufferCursor, NodeColor, Piece, StringBuffer, TreeNode, UintArray};

#[test]
fn tree_node_starts_detached() {
    let c = BufferCursor { line: 1, column: 2 };
    let p = Piece::new(0, c, c, 3, 0);
    let n = TreeNode::new(Some(p), NodeColor::Red);
    assert_eq!(n.color, NodeColor::Red);
    assert_eq!(n.size_left, 0);
    assert!(n.parent.is_none() && n.left.is_none() && n.right.is_none());
    assert_eq!(n.piece.as_ref().unwrap().length, 3);
    assert_eq!(NodeColor::default(), NodeColor::Black);
    let b = StringBuffer::new(String::from("ab"), UintArray::Uint16Array(vec![0]));
    assert_eq!(b.buffer, "ab");
}

use vstd::prelude::*;

verus! {

/// An array of line-start offsets, stored at the narrowest width that holds
/// them.
pub enum UintArray {
    UintArray(Vec<usize>),
    Uint32Array(Vec<u32>),
    Uint16Array(Vec<u16>),
}

/// The line starts of a text, with the counts of each kind of line break.
pub struct LineStarts {
    pub line_starts: Vec<usize>,
    pub cr: usize,
    pub lf: usize,
    pub crlf: usize,
    pub is_basic_ascii: bool,
}

impl LineStarts {
    fn new(line_starts: Vec<usize>, cr: usize, lf: usize, crlf: usize, is_basic_ascii: bool) -> (r:
        Self)
        ensures
            r.line_starts@ == line_starts@,
            r.cr == cr,
            r.lf == lf,
            r.crlf == crlf,
            r.is_basic_ascii == is_basic_ascii,
    {
        LineStarts { line_starts, cr, lf, crlf, is_basic_ascii }
    }
}

/// Colour of a red-black tree node.
#[derive(Clone, Copy, Debug, PartialEq, Eq, Structural)]
pub enum NodeColor {
    Black,
    Red,
}

impl Default for NodeColor {
    fn default() -> (r: Self)
        ensures
            r == NodeColor::Black,
    {
        NodeColor::Black
    }
}

/// A line and column in a buffer.
#[derive(Clone, Copy, Debug, PartialEq, Eq, Structural)]
pub struct BufferCursor {
    pub line: usize,
    pub column: usize,
}

/// A run of one buffer, delimited by line and column.
pub struct Piece {
    pub buffer_index: usize,
    pub start: BufferCursor,
    pub end: BufferCursor,
    pub length: usize,
    pub line_feed_cnt: usize,
}

impl Piece {
    pub fn new(
        buffer_index: usize,
        start: BufferCursor,
        end: BufferCursor,
        length: usize,
        line_feed_cnt: usize,
    ) -> (r: Self)
        ensures
            r == (Piece { buffer_index, start, end, length, line_feed_cnt }),
    {
        Piece { buffer_index, start, end, length, line_feed_cnt }
    }
}

/// Read access to a text, as a whole.
pub trait TextSnapshot {
    fn read() -> Option<String>;
}

/// A buffer and the starts of its lines.
pub struct StringBuffer {
    pub buffer: String,
    pub line_starts: UintArray,
}

impl StringBuffer {
    pub fn new(buffer: String, line_starts: UintArray) -> (r: Self)
        ensures
            r.buffer@ == buffer@,
            r.line_starts == line_starts,
    {
        StringBuffer { buffer, line_starts }
    }
}

/// A node of the red-black tree that orders pieces.
pub struct TreeNode {
    pub parent: Option<Box<TreeNode>>,
    pub left: Option<Box<TreeNode>>,
    pub right: Option<Box<TreeNode>>,
    pub color: NodeColor,
    pub piece: Option<Piece>,
    pub size_left: usize,
    pub line_feeds_left: usize,
}

impl TreeNode {
    /// A detached node holding `piece`.
    pub fn new(piece: Option<Piece>, color: NodeColor) -> (r: Self)
        ensures
            r.piece == piece,
            r.color == color,
            r.size_left == 0,
            r.line_feeds_left == 0,
            r.parent is None,
            r.left is None,
            r.right is None,
    {
        TreeNode {
            piece,
            color,
            size_left: 0,
            line_feeds_left: 0,
            parent: None,
            left: None,
            right: None,
        }
    }
}

/// A node, the offset into its piece, and the node's start in the document.
pub struct NodePosition {
    pub node: TreeNode,
    pub remainder: usize,
    pub node_start_offset: usize,
}

} // verus!

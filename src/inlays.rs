use vstd::prelude::*;

verus! {

/// A widget laid out inside a line, `column_count` columns wide.
#[derive(Clone, Copy, Debug, PartialEq, Eq, Structural)]
pub struct InlineWidget {
    pub column_count: usize,
}

/// A widget laid out between lines, `height` layout units high.
#[derive(Clone, Copy, Debug, PartialEq, Eq, Structural)]
pub struct BlockWidget {
    pub column_count: usize,
    pub height: usize,
}

/// A decoration anchored at a byte offset within a line.
#[derive(Clone, Debug)]
pub enum InlineInlay {
    Text(Vec<u8>),
    Widget(InlineWidget),
}

/// A decoration anchored at a line boundary.
#[derive(Clone, Copy, Debug, PartialEq, Eq, Structural)]
pub enum BlockInlay {
    Widget(BlockWidget),
}

} // verus!

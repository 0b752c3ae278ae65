//! Terminal-listing file tree, first iteration: the same node format and
//! sizes as the later revision.

use vstd::prelude::*;
pub use crate::day07::FsNode;
pub use crate::day07::FsNodeType;
use crate::day07::is_dir_line;
use crate::text::split_ws;
use crate::text::usize_val;

verus! {

/// The command-line options of this puzzle's program: the input path
/// (`-` for standard input) and the alternate-part switch.
#[derive(Debug)]
pub struct Args {
    pub fin: String,
    pub part2: bool,
}

/// Reads one listing line into a node; see the later revision for the
/// format.
pub fn parse_node(line: &str, curr_dir: Option<usize>) -> (r: Option<FsNode>)
    ensures
        match r {
            Some(node) => {
                let toks = split_ws(line@);
                &&& toks.len() >= 2
                &&& node.name@ == toks[1]
                &&& node.parent == curr_dir
                &&& if is_dir_line(line@) {
                    &&& node.kind == FsNodeType::Dir
                    &&& node.dsize == 0
                    &&& node.contents matches Some(cv) && cv@.len() == 0
                } else {
                    &&& node.kind == FsNodeType::File
                    &&& Some(node.dsize) == usize_val(toks[0])
                    &&& node.contents is None
                }
            },
            None => split_ws(line@).len() < 2 || (!is_dir_line(line@) && usize_val(
                split_ws(line@)[0],
            ) is None),
        },
{
    crate::day07::parse_node(line, curr_dir)
}

} // verus!

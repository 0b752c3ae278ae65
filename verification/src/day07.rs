//! Terminal-listing file tree: parsing `dir <name>` and `<size> <name>`
//! lines into nodes.
//!
//! A node is either a directory, whose size is the sum of its contents,
//! or a plain file with a recorded size.

use vstd::prelude::*;
use crate::text::split_ws;
use crate::text::to_chars;
use crate::text::tokens_of;
use crate::text::usize_val;

verus! {

#[derive(Debug, PartialEq, Eq, Structural, Clone, Copy)]
pub enum FsNodeType {
    Dir,
    File,
}

/// One node of the listed file tree.  `parent` is the position of the
/// enclosing directory in the listing, when known; a directory owns its
/// children in `contents`.
#[derive(Debug)]
pub struct FsNode {
    pub kind: FsNodeType,
    pub name: String,
    pub dsize: usize,
    pub parent: Option<usize>,
    pub contents: Option<Vec<FsNode>>,
}

/// The size of a node: a file's recorded size, or the sum of a
/// directory's contents.
pub open spec fn size_spec(n: FsNode) -> int
    decreases n, 0int,
{
    match n.kind {
        FsNodeType::File => n.dsize as int,
        FsNodeType::Dir => match n.contents {
            Some(children) => sum_sizes(children@, children@.len() as int),
            None => 0,
        },
    }
}

/// The summed sizes of the first `k` children.
pub open spec fn sum_sizes(children: Seq<FsNode>, k: int) -> int
    decreases children, k,
{
    if k <= 0 || k > children.len() {
        0
    } else {
        sum_sizes(children, k - 1) + size_spec(children[k - 1])
    }
}

impl FsNode {
    /// The total size of this node.
    pub fn size(&self) -> (r: usize)
        requires
            size_spec(*self) <= usize::MAX,
        ensures
            r == size_spec(*self),
        decreases *self,
    {
        match self.kind {
            FsNodeType::File => self.dsize,
            FsNodeType::Dir => {
                match &self.contents {
                    Some(children) => {
                        let mut total: usize = 0;
                        let mut k: usize = 0;
                        while k < children.len()
                            invariant
                                k <= children@.len(),
                                size_spec(*self) <= usize::MAX,
                                self.kind is Dir,
                                self.contents matches Some(cv) && cv@ == children@,
                                total == sum_sizes(children@, k as int),
                            decreases children@.len() - k,
                        {
                            proof {
                                lemma_sum_sizes_bounds(*self, children@, k + 1 as int);
                                assert(decreases_to!(*self => self.contents));
                                assert(decreases_to!(self.contents => self.contents->0));
                                assert(decreases_to!(self.contents->0 => self.contents->0@));
                                assert(decreases_to!(self.contents->0@ => self.contents->0@[k as int]));
                                assert(decreases_to!(*self => children@[k as int]));
                            }
                            let child_size = children[k].size();
                            total = total + child_size;
                            k = k + 1;
                        }
                        total
                    },
                    None => 0,
                }
            },
        }
    }

    /// Appends a child node to a directory.
    pub fn add_child(&mut self, node: FsNode)
        requires
            old(self).contents is Some,
        ensures
            final(self).contents matches Some(cv) && old(self).contents matches Some(pv) && cv@
                == pv@.push(node),
            final(self).kind == old(self).kind,
            final(self).name == old(self).name,
            final(self).dsize == old(self).dsize,
            final(self).parent == old(self).parent,
    {
        match &mut self.contents {
            Some(children) => {
                children.push(node);
            },
            None => {},
        }
    }
}

/// A node's size is a sum of `usize` values, hence non-negative.
proof fn lemma_size_nonneg(n: FsNode)
    ensures
        size_spec(n) >= 0,
    decreases n, 0int,
{
    match n.kind {
        FsNodeType::File => {},
        FsNodeType::Dir => {
            match n.contents {
                Some(children) => {
                    lemma_sums_nonneg(children@, children@.len() as int);
                },
                None => {},
            }
        },
    }
}

proof fn lemma_sums_nonneg(children: Seq<FsNode>, k: int)
    ensures
        sum_sizes(children, k) >= 0,
    decreases children, k,
{
    assert(k > 0 && k <= children.len() ==> decreases_to!(children => children[k - 1]));
    if 0 < k <= children.len() {
        lemma_sums_nonneg(children, k - 1);
        lemma_size_nonneg(children[k - 1]);
    }
}

/// A prefix sum plus its next child stays within the directory total.
proof fn lemma_sum_sizes_bounds(n: FsNode, children: Seq<FsNode>, k: int)
    requires
        n.kind is Dir,
        n.contents matches Some(cv) && cv@ == children,
        0 < k <= children.len(),
    ensures
        sum_sizes(children, k) <= size_spec(n),
        size_spec(children[k - 1]) >= 0,
        sum_sizes(children, k - 1) >= 0,
    decreases children.len() - k,
{
    lemma_sums_nonneg(children, k - 1);
    lemma_size_nonneg(children[k - 1]);
    if k < children.len() {
        lemma_sum_sizes_bounds(n, children, k + 1);
        lemma_size_nonneg(children[k]);
    }
}

/// Whether a listing line names a directory: it starts with `dir `.
pub open spec fn is_dir_line(s: Seq<char>) -> bool {
    s.len() >= 4 && s.take(4) == seq!['d', 'i', 'r', ' ']
}

/// Reads one listing line into a node: `dir <name>` gives an empty
/// directory, `<size> <name>` a file.  `curr_dir` is recorded as the
/// node's parent.  Lines with fewer than two tokens, or a file line whose
/// size does not parse, give nothing.
pub fn parse_node(line: &str, curr_dir: Option<usize>) -> (r: Option<FsNode>)
    ensures
        match r {
            Some(node) => {
                let toks = split_ws(line@);
                &&& toks.len() >= 2
                &&& node.name@ == toks[1]
                &&& node.parent == curr_dir
                &&& if is_dir_line(line@) {
                    &&& node.kind == FsNodeType::Dir
                    &&& node.dsize == 0
                    &&& node.contents matches Some(cv) && cv@.len() == 0
                } else {
                    &&& node.kind == FsNodeType::File
                    &&& Some(node.dsize) == usize_val(toks[0])
                    &&& node.contents is None
                }
            },
            None => split_ws(line@).len() < 2 || (!is_dir_line(line@) && usize_val(
                split_ws(line@)[0],
            ) is None),
        },
{
    let cs = to_chars(line);
    let toks = tokens_of(&cs);
    proof {
        assert forall|j: int| 0 <= j < toks@.len() implies #[trigger] toks.deep_view()[j]
            == toks@[j]@ by {
            assert(toks.deep_view()[j] == toks@[j].deep_view());
            assert(toks@[j].deep_view() =~= toks@[j]@);
        }
    }
    if toks.len() < 2 {
        return None;
    }
    let name = crate::text::string_of(&toks[1]);
    let is_dir = cs.len() >= 4 && cs[0] == 'd' && cs[1] == 'i' && cs[2] == 'r' && cs[3] == ' ';
    proof {
        if cs@.len() >= 4 {
            assert(cs@.take(4)[0] == cs@[0]);
            assert(cs@.take(4)[1] == cs@[1]);
            assert(cs@.take(4)[2] == cs@[2]);
            assert(cs@.take(4)[3] == cs@[3]);
            if cs@[0] == 'd' && cs@[1] == 'i' && cs@[2] == 'r' && cs@[3] == ' ' {
                assert(cs@.take(4) =~= seq!['d', 'i', 'r', ' ']);
            } else {
                assert(cs@.take(4) != seq!['d', 'i', 'r', ' ']);
            }
        }
    }
    if is_dir {
        Some(
            FsNode {
                kind: FsNodeType::Dir,
                name,
                dsize: 0,
                parent: curr_dir,
                contents: Some(Vec::new()),
            },
        )
    } else {
        let tok = &toks[0];
        proof {
            assert(tok@.subrange(0, tok@.len() as int) =~= tok@);
        }
        match crate::text::parse_usize_range(tok, 0, tok.len()) {
            Some(dsize) => Some(
                FsNode { kind: FsNodeType::File, name, dsize, parent: curr_dir, contents: None },
            ),
            None => None,
        }
    }
}

/// The command-line options of this puzzle's program: the input path
/// (`-` for standard input) and the alternate-part switch.
#[derive(Debug)]
pub struct Args {
    pub fin: String,
    pub part2: bool,
}

} // verus!

//! The public value types of the store: directory identifiers and
//! materialized directory snapshots.

use vstd::prelude::*;

verus! {

/// The unique identifier of a directory, scoped to one owner's bucket.
#[derive(Debug, Clone, Copy, PartialEq, Eq, PartialOrd, Ord, Hash, Structural)]
pub struct DaDirectorySid(pub i64);

/// A point-in-time, recursively assembled snapshot of a directory record
/// and its subtree. Produced fresh on every read; never stored.
#[derive(Debug)]
pub struct DaDirectory {
    /// The unique identifier of the directory.
    pub sid: DaDirectorySid,
    /// The name of the directory.
    pub name: String,
    /// The parent directory's unique identifier.
    pub parent_sid: Option<DaDirectorySid>,
    /// The children directories.
    pub children: Vec<DaDirectory>,
    /// The depth of the directory in the hierarchy.
    pub depth: u32,
}

/// The identifier held inside an optional `DaDirectorySid`.
pub open spec fn spec_sid_opt(p: Option<DaDirectorySid>) -> Option<i64> {
    match p {
        Some(s) => Some(s.0),
        None => None,
    }
}

/// `n` space characters.
pub open spec fn spec_spaces(n: nat) -> Seq<char>
    decreases n,
{
    if n == 0 {
        Seq::empty()
    } else {
        spec_spaces((n - 1) as nat).push(' ')
    }
}

/// The rendering of one directory at the given indentation: a bar, the
/// indented name, a line break, then every child one level deeper.
pub open spec fn spec_render(d: DaDirectory, depth: nat) -> Seq<char>
    decreases d, 0int,
{
    seq!['|', ' '] + spec_spaces(depth) + d.name@ + seq!['\n'] + spec_render_seq(
        d.children@,
        depth + 1,
        0,
    )
}

/// The rendering of the children from index `i` on.
pub open spec fn spec_render_seq(s: Seq<DaDirectory>, depth: nat, i: int) -> Seq<char>
    decreases s, s.len() - i,
{
    if i < 0 || i >= s.len() {
        Seq::empty()
    } else {
        spec_render(s[i], depth) + spec_render_seq(s, depth, i + 1)
    }
}

/// The height of the snapshot tree: 1 for a leaf.
pub open spec fn spec_height(d: DaDirectory) -> nat
    decreases d, 0int,
{
    1 + spec_height_seq(d.children@, 0)
}

/// The greatest height among the children from index `i` on.
pub open spec fn spec_height_seq(s: Seq<DaDirectory>, i: int) -> nat
    decreases s, s.len() - i,
{
    if i < 0 || i >= s.len() {
        0
    } else if spec_height(s[i]) >= spec_height_seq(s, i + 1) {
        spec_height(s[i])
    } else {
        spec_height_seq(s, i + 1)
    }
}

/// The height of a child sequence bounds the height of each child.
proof fn lemma_height_seq_bound(s: Seq<DaDirectory>, i: int, j: int)
    requires
        0 <= i <= j < s.len(),
    ensures
        spec_height_seq(s, i) >= spec_height(s[j]),
    decreases j - i,
{
    if i < j {
        lemma_height_seq_bound(s, i + 1, j);
    }
}

impl DaDirectory {
    /// Renders this snapshot and its subtree, one line per directory,
    /// each name indented by its distance from the starting level.
    pub fn fmt_with_children(&self, depth: usize) -> (out: String)
        requires
            depth + spec_height(*self) <= usize::MAX,
        ensures
            out@ == spec_render(*self, depth as nat),
        decreases *self, 0int,
    {
        proof {
            reveal_strlit("| ");
            reveal_strlit(" ");
            reveal_strlit("\n");
        }
        let mut out = "| ".to_owned();
        let mut k: usize = 0;
        while k < depth
            invariant
                k <= depth,
                out@ == seq!['|', ' '] + spec_spaces(k as nat),
            decreases depth - k,
        {
            proof {
                reveal_strlit(" ");
            }
            out.append(" ");
            k = k + 1;
        }
        out.append(self.name.as_str());
        proof {
            reveal_strlit("\n");
        }
        out.append("\n");
        let ghost header = seq!['|', ' '] + spec_spaces(depth as nat) + self.name@ + seq!['\n'];
        proof {
            assert(out@ == header);
        }
        let n = self.children.len();
        let mut i: usize = 0;
        while i < n
            invariant
                i <= n,
                n == self.children@.len(),
                depth + spec_height(*self) <= usize::MAX,
                out@ + spec_render_seq(self.children@, depth as nat + 1, i as int) == spec_render(
                    *self,
                    depth as nat,
                ),
            decreases n - i,
        {
            proof {
                lemma_height_seq_bound(self.children@, 0, i as int);
            }
            let child = &self.children[i];
            let piece = child.fmt_with_children(depth + 1);
            out.append(piece.as_str());
            proof {
                assert(out@ + spec_render_seq(self.children@, depth as nat + 1, i + 1)
                    =~= spec_render(*self, depth as nat));
            }
            i = i + 1;
        }
        proof {
            assert(out@ =~= spec_render(*self, depth as nat));
        }
        out
    }

    /// Renders this snapshot framed by a dash line above and below, the
    /// way the tree is shown to a reader.
    pub fn render(&self) -> (out: String)
        requires
            spec_height(*self) <= usize::MAX,
        ensures
            out@ == seq!['-', '\n'] + spec_render(*self, 0) + seq!['-', '\n'],
    {
        proof {
            reveal_strlit("-\n");
        }
        let mut out = "-\n".to_owned();
        let body = self.fmt_with_children(0);
        out.append(body.as_str());
        out.append("-\n");
        proof {
            assert(out@ =~= seq!['-', '\n'] + spec_render(*self, 0) + seq!['-', '\n']);
        }
        out
    }
}

} // verus!

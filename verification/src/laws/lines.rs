//! Laws of the lines that a tree is shown in.
use crate::coord;
use crate::coord::CoordModel;
use crate::coord::DependencyScope;
use crate::resolver::NodeModel;
use crate::tree;
use vstd::prelude::*;

verus! {

/// A scope is written by its name in small letters.
pub proof fn scopes_are_written_by_name(s: DependencyScope)
    ensures
        coord::scope_name(s) == (match s {
            DependencyScope::Compile => "compile"@,
            DependencyScope::Runtime => "runtime"@,
            DependencyScope::Test => "test"@,
            DependencyScope::Provided => "provided"@,
            DependencyScope::System => "system"@,
            DependencyScope::Import => "import"@,
        }),
{
}

/// A node has a line of its own: what stands before it, the branch, its coordinates and its scope
/// in brackets. Below it follow its children, indented, with a bar where siblings follow the node
/// and none where it is the last one.
pub proof fn nodes_have_lines_of_their_own(n: NodeModel, prefix: Seq<char>)
    ensures
        tree::tree_text(n, prefix, true) == prefix + "└── "@ + coord::coord_text(n.coord) + " ["@
            + coord::scope_name(n.scope) + "]\n"@ + tree::nodes_text(
            n.children,
            prefix + "    "@,
            n.children.len() as int,
        ),
        tree::tree_text(n, prefix, false) == prefix + "├── "@ + coord::coord_text(n.coord) + " ["@
            + coord::scope_name(n.scope) + "]\n"@ + tree::nodes_text(
            n.children,
            prefix + "│   "@,
            n.children.len() as int,
        ),
{
    reveal_strlit(" ");
    reveal_strlit("[");
    reveal_strlit(" [");
    reveal_strlit("]");
    reveal_strlit("\n");
    reveal_strlit("]\n");
    assert(" ["@ =~= " "@ + "["@);
    assert("]\n"@ =~= "]"@ + "\n"@);
    let k = n.children.len() as int;
    let c = coord::coord_text(n.coord);
    let s = coord::scope_name(n.scope);
    let last = tree::nodes_text(n.children, prefix + "    "@, k);
    let more = tree::nodes_text(n.children, prefix + "│   "@, k);
    assert(tree::tree_text(n, prefix, true) =~= prefix + "└── "@ + c + " ["@ + s + "]\n"@ + last);
    assert(tree::tree_text(n, prefix, false) =~= prefix + "├── "@ + c + " ["@ + s + "]\n"@ + more);
}

/// Siblings follow each other, and only the last one closes the branch. A whole tree begins with
/// the coordinates of its root, and its first level is not indented.
pub proof fn siblings_follow_each_other(
    ns: Seq<NodeModel>,
    prefix: Seq<char>,
    k: int,
    root: CoordModel,
)
    requires
        0 <= k < ns.len(),
    ensures
        tree::nodes_text(ns, prefix, 0) == Seq::<char>::empty(),
        tree::nodes_text(ns, prefix, k + 1) == tree::nodes_text(ns, prefix, k) + tree::tree_text(
            ns[k],
            prefix,
            k + 1 == ns.len(),
        ),
        tree::whole_tree_text(root, ns) == coord::coord_text(root) + "\n"@ + tree::nodes_text(
            ns,
            Seq::empty(),
            ns.len() as int,
        ),
{
}

/// On a terminal that shows colours, a scope is green for `compile`, yellow for `runtime`, cyan
/// for `test`, magenta for `provided`, red for `system` and dim for `import`; what stands before a
/// node and the mark of an optional one are dim, and the coordinates of an optional node too.
pub proof fn scopes_have_their_colours(
    n: NodeModel,
    prefix: Seq<char>,
    is_last: bool,
    pieces: Seq<Seq<char>>,
)
    requires
        tree::line_pieces(n, prefix, is_last, pieces),
    ensures
        pieces.len() == 5,
        pieces[0] == prefix || pieces[0] == tree::styled(prefix, "2"@),
        !n.optional ==> pieces[2] == coord::coord_text(n.coord),
        n.optional ==> pieces[2] == coord::coord_text(n.coord) || pieces[2] == tree::styled(
            coord::coord_text(n.coord),
            "2"@,
        ),
        pieces[3] == "["@ + coord::scope_name(n.scope) + "]"@ || pieces[3] == tree::styled(
            "["@ + coord::scope_name(n.scope) + "]"@,
            match n.scope {
                DependencyScope::Compile => "32"@,
                DependencyScope::Runtime => "33"@,
                DependencyScope::Test => "36"@,
                DependencyScope::Provided => "35"@,
                DependencyScope::System => "31"@,
                DependencyScope::Import => "2"@,
            },
        ),
        pieces[4] == "(optional)"@ || pieces[4] == tree::styled("(optional)"@, "2"@),
{
}

} // verus!

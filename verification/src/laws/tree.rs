//! Laws of displaying dependency trees.
use crate::coord;
use crate::coord::CoordModel;
use crate::resolver::NodeModel;
use crate::tree;
use vstd::prelude::*;

verus! {

/// The character that begins the sequences of a terminal.
pub open spec fn escape() -> char {
    '\u{1b}'
}

/// The lines of a node and all that stands below it, with a mark behind each optional node.
pub open spec fn marked_text(n: NodeModel, prefix: Seq<char>, is_last: bool) -> Seq<char>
    decreases n, 0nat,
{
    let mark = if n.optional {
        " "@ + "(optional)"@
    } else {
        Seq::empty()
    };
    prefix + tree::connector(is_last) + coord::coord_text(n.coord) + " "@ + tree::scope_label(
        n.scope,
    ) + mark + "\n"@ + marked_nodes_text(
        n.children,
        prefix + tree::indent(is_last),
        n.children.len() as int,
    )
}

/// The lines of the first `k` of sibling nodes, with a mark behind each optional node.
pub open spec fn marked_nodes_text(ns: Seq<NodeModel>, prefix: Seq<char>, k: int) -> Seq<char>
    decreases ns, k,
{
    if k <= 0 || k > ns.len() {
        Seq::empty()
    } else {
        marked_nodes_text(ns, prefix, k - 1) + marked_text(ns[k - 1], prefix, k == ns.len())
    }
}

/// Whether neither a node nor anything below it is optional.
pub open spec fn required(n: NodeModel) -> bool
    decreases n,
{
    &&& !n.optional
    &&& forall|i: int| 0 <= i < n.children.len() ==> required(#[trigger] n.children[i])
}

proof fn lemma_sum_contains(a: Seq<char>, b: Seq<char>, c: char)
    ensures
        (a + b).contains(c) <==> a.contains(c) || b.contains(c),
{
    let s = a + b;
    if a.contains(c) {
        let i = choose|i: int| 0 <= i < a.len() && a[i] == c;
        assert(s[i] == c);
    }
    if b.contains(c) {
        let i = choose|i: int| 0 <= i < b.len() && b[i] == c;
        assert(s[a.len() + i] == c);
    }
    if s.contains(c) {
        let i = choose|i: int| 0 <= i < s.len() && s[i] == c;
        if i < a.len() {
            assert(a[i] == c);
        } else {
            assert(b[i - a.len()] == c);
        }
    }
}

/// What is shown without escape characters is the text itself.
proof fn lemma_shown_plain(t: Seq<char>, code: Seq<char>, out: Seq<char>)
    requires
        tree::shows(t, code, out),
        !out.contains(escape()),
    ensures
        out == t,
{
    reveal_strlit("\u{1b}[");
    assert(tree::styled(t, code)[0] == escape());
}

/// Without the sequences of a terminal, what is shown of a node is its plain text, but for the
/// marks of optional nodes.
pub proof fn unstyled_tree_is_plain(
    n: NodeModel,
    prefix: Seq<char>,
    is_last: bool,
    out: Seq<char>,
)
    requires
        tree::tree_shown(n, prefix, is_last, out),
        !out.contains(escape()),
    ensures
        out == marked_text(n, prefix, is_last),
    decreases n, 0nat,
{
    let (pieces, below) = choose|pieces: Seq<Seq<char>>, below: Seq<char>|
        #![trigger tree::line_pieces(n, prefix, is_last, pieces), tree::line_of(pieces, n.optional) + below]
        tree::line_pieces(n, prefix, is_last, pieces) && tree::nodes_shown(
            n.children,
            prefix + tree::indent(is_last),
            n.children.len() as int,
            below,
        ) && out == tree::line_of(pieces, n.optional) + below;
    let e = escape();
    let line = tree::line_of(pieces, n.optional);
    lemma_sum_contains(line, below, e);
    let mark = if n.optional {
        " "@ + pieces[4]
    } else {
        Seq::empty()
    };
    let a = pieces[0] + pieces[1];
    let b = a + pieces[2];
    let c = b + " "@;
    let d = c + pieces[3];
    lemma_sum_contains(d + mark, "\n"@, e);
    lemma_sum_contains(d, mark, e);
    lemma_sum_contains(c, pieces[3], e);
    lemma_sum_contains(b, " "@, e);
    lemma_sum_contains(a, pieces[2], e);
    lemma_sum_contains(pieces[0], pieces[1], e);
    lemma_shown_plain(prefix, "2"@, pieces[0]);
    lemma_shown_plain(tree::connector(is_last), "2"@, pieces[1]);
    if n.optional {
        lemma_sum_contains(" "@, pieces[4], e);
        lemma_shown_plain(coord::coord_text(n.coord), "2"@, pieces[2]);
        lemma_shown_plain("(optional)"@, "2"@, pieces[4]);
    }
    lemma_shown_plain(tree::scope_label(n.scope), tree::scope_code(n.scope), pieces[3]);
    unstyled_nodes_are_plain(
        n.children,
        prefix + tree::indent(is_last),
        n.children.len() as int,
        below,
    );
}

/// Without the sequences of a terminal, what is shown of sibling nodes is their plain text, but
/// for the marks of optional nodes.
pub proof fn unstyled_nodes_are_plain(
    ns: Seq<NodeModel>,
    prefix: Seq<char>,
    k: int,
    out: Seq<char>,
)
    requires
        tree::nodes_shown(ns, prefix, k, out),
        !out.contains(escape()),
    ensures
        out == marked_nodes_text(ns, prefix, k),
    decreases ns, k,
{
    if k <= 0 || k > ns.len() {
        assert(out =~= Seq::empty());
    } else {
        let (a, b) = choose|a: Seq<char>, b: Seq<char>|
            #![trigger a + b]
            tree::nodes_shown(ns, prefix, k - 1, a) && tree::tree_shown(
                ns[k - 1],
                prefix,
                k == ns.len(),
                b,
            ) && out == a + b;
        lemma_sum_contains(a, b, escape());
        unstyled_nodes_are_plain(ns, prefix, k - 1, a);
        unstyled_tree_is_plain(ns[k - 1], prefix, k == ns.len(), b);
    }
}

/// Without the sequences of a terminal, what is shown of a whole tree is its plain text, but for
/// the marks of optional nodes.
pub proof fn unstyled_whole_tree_is_plain(root: CoordModel, ns: Seq<NodeModel>, out: Seq<char>)
    requires
        tree::whole_tree_shown(root, ns, out),
        !out.contains(escape()),
    ensures
        out == coord::coord_text(root) + "\n"@ + marked_nodes_text(
            ns,
            Seq::empty(),
            ns.len() as int,
        ),
{
    let (title, lines) = choose|title: Seq<char>, lines: Seq<char>|
        #![trigger title + "\n"@ + lines]
        tree::shows(coord::coord_text(root), "1"@, title) && tree::nodes_shown(
            ns,
            Seq::empty(),
            ns.len() as int,
            lines,
        ) && out == title + "\n"@ + lines;
    lemma_sum_contains(title + "\n"@, lines, escape());
    lemma_sum_contains(title, "\n"@, escape());
    lemma_shown_plain(coord::coord_text(root), "1"@, title);
    unstyled_nodes_are_plain(ns, Seq::empty(), ns.len() as int, lines);
}

/// Where no node is optional, the marked text is the plain text.
pub proof fn required_nodes_have_no_marks(n: NodeModel, prefix: Seq<char>, is_last: bool)
    requires
        required(n),
    ensures
        marked_text(n, prefix, is_last) == tree::tree_text(n, prefix, is_last),
    decreases n, 0nat,
{
    required_siblings_have_no_marks(
        n.children,
        prefix + tree::indent(is_last),
        n.children.len() as int,
    );
    let line = prefix + tree::connector(is_last) + coord::coord_text(n.coord) + " "@
        + tree::scope_label(n.scope);
    assert(line + Seq::<char>::empty() =~= line);
}

/// Where no node is optional, the marked text of siblings is their plain text.
pub proof fn required_siblings_have_no_marks(ns: Seq<NodeModel>, prefix: Seq<char>, k: int)
    requires
        forall|i: int| 0 <= i < ns.len() ==> required(#[trigger] ns[i]),
    ensures
        marked_nodes_text(ns, prefix, k) == tree::nodes_text(ns, prefix, k),
    decreases ns, k,
{
    if 0 < k <= ns.len() {
        required_siblings_have_no_marks(ns, prefix, k - 1);
        required_nodes_have_no_marks(ns[k - 1], prefix, k == ns.len());
    }
}

// ---------------------------------------------------------------------------
// Lines
// ---------------------------------------------------------------------------

/// A node and all that stands below it, each node before its children.
pub open spec fn preorder(n: NodeModel) -> Seq<NodeModel>
    decreases n, 0nat,
{
    seq![n] + preorder_of(n.children, n.children.len() as int)
}

/// The first `k` of sibling nodes and all that stands below them, each node before its children.
pub open spec fn preorder_of(ns: Seq<NodeModel>, k: int) -> Seq<NodeModel>
    decreases ns, k,
{
    if k <= 0 || k > ns.len() {
        Seq::empty()
    } else {
        preorder_of(ns, k - 1) + preorder(ns[k - 1])
    }
}

/// What a line says of a node: its coordinates and its scope.
pub open spec fn entry(n: NodeModel) -> Seq<char> {
    coord::coord_text(n.coord) + " "@ + tree::scope_label(n.scope)
}

/// Whether a line begins with a prefix and ends with what it says of a node.
pub open spec fn is_line_of(line: Seq<char>, prefix: Seq<char>, n: NodeModel) -> bool {
    exists|branch: Seq<char>| line == #[trigger] (prefix + branch) + entry(n)
}

/// Lines as one text, each with its end.
pub open spec fn lines_text(lines: Seq<Seq<char>>) -> Seq<char>
    decreases lines.len(),
{
    if lines.len() == 0 {
        Seq::empty()
    } else {
        lines[0] + "\n"@ + lines_text(lines.skip(1))
    }
}

/// How many line ends a text holds.
pub open spec fn line_ends(s: Seq<char>) -> nat
    decreases s.len(),
{
    if s.len() == 0 {
        0
    } else if s.last() == '\n' {
        line_ends(s.drop_last()) + 1
    } else {
        line_ends(s.drop_last())
    }
}

/// Whether the coordinates of a node and of all that stands below it hold no line end.
pub open spec fn on_one_line(n: NodeModel) -> bool
    decreases n,
{
    &&& !coord::coord_text(n.coord).contains('\n')
    &&& forall|i: int| 0 <= i < n.children.len() ==> on_one_line(#[trigger] n.children[i])
}

/// Whether lines are those of nodes, one for each: each begins with a prefix and holds no line end.
pub open spec fn lines_match(
    lines: Seq<Seq<char>>,
    prefix: Seq<char>,
    nodes: Seq<NodeModel>,
) -> bool {
    &&& lines.len() == nodes.len()
    &&& forall|i: int|
        0 <= i < lines.len() ==> is_line_of(#[trigger] lines[i], prefix, nodes[i])
            && !lines[i].contains('\n')
}

/// The lines of a node and all that stands below it.
pub open spec fn tree_lines(n: NodeModel, prefix: Seq<char>, is_last: bool) -> Seq<Seq<char>>
    decreases n, 0nat,
{
    seq![prefix + tree::connector(is_last) + entry(n)] + nodes_lines(
        n.children,
        prefix + tree::indent(is_last),
        n.children.len() as int,
    )
}

/// The lines of the first `k` of sibling nodes.
pub open spec fn nodes_lines(ns: Seq<NodeModel>, prefix: Seq<char>, k: int) -> Seq<Seq<char>>
    decreases ns, k,
{
    if k <= 0 || k > ns.len() {
        Seq::empty()
    } else {
        nodes_lines(ns, prefix, k - 1) + tree_lines(ns[k - 1], prefix, k == ns.len())
    }
}

proof fn lemma_lines_text_add(a: Seq<Seq<char>>, b: Seq<Seq<char>>)
    ensures
        lines_text(a + b) == lines_text(a) + lines_text(b),
    decreases a.len(),
{
    if a.len() == 0 {
        assert(a + b =~= b);
        assert(lines_text(a) + lines_text(b) =~= lines_text(b));
    } else {
        assert((a + b).skip(1) =~= a.skip(1) + b);
        lemma_lines_text_add(a.skip(1), b);
        assert(a[0] + "\n"@ + (lines_text(a.skip(1)) + lines_text(b)) =~= a[0] + "\n"@ + lines_text(
            a.skip(1),
        ) + lines_text(b));
    }
}

proof fn lemma_line_ends_add(a: Seq<char>, b: Seq<char>)
    ensures
        line_ends(a + b) == line_ends(a) + line_ends(b),
    decreases b.len(),
{
    if b.len() == 0 {
        assert(a + b =~= a);
    } else {
        assert((a + b).drop_last() =~= a + b.drop_last());
        lemma_line_ends_add(a, b.drop_last());
    }
}

proof fn lemma_no_line_end(s: Seq<char>)
    requires
        !s.contains('\n'),
    ensures
        line_ends(s) == 0,
    decreases s.len(),
{
    if s.len() > 0 {
        let rest = s.drop_last();
        if rest.contains('\n') {
            let i = choose|i: int| 0 <= i < rest.len() && rest[i] == '\n';
            assert(s[i] == '\n');
        }
        assert(s[s.len() - 1] != '\n');
        lemma_no_line_end(rest);
    }
}

proof fn lemma_line_count(lines: Seq<Seq<char>>)
    requires
        forall|i: int| 0 <= i < lines.len() ==> !(#[trigger] lines[i]).contains('\n'),
    ensures
        line_ends(lines_text(lines)) == lines.len(),
    decreases lines.len(),
{
    if lines.len() > 0 {
        let rest = lines.skip(1);
        assert forall|i: int| 0 <= i < rest.len() implies !(#[trigger] rest[i]).contains('\n') by {
            assert(rest[i] == lines[i + 1]);
        }
        lemma_line_count(rest);
        reveal_strlit("\n");
        assert("\n"@.drop_last() =~= Seq::empty());
        assert(line_ends("\n"@.drop_last()) == 0);
        assert(line_ends("\n"@) == 1);
        lemma_no_line_end(lines[0]);
        lemma_line_ends_add(lines[0], "\n"@);
        lemma_line_ends_add(lines[0] + "\n"@, lines_text(rest));
    }
}

proof fn lemma_labels_on_one_line(n: NodeModel)
    ensures
        !tree::connector(true).contains('\n'),
        !tree::connector(false).contains('\n'),
        !tree::indent(true).contains('\n'),
        !tree::indent(false).contains('\n'),
        !" "@.contains('\n'),
        !tree::scope_label(n.scope).contains('\n'),
{
    reveal_strlit("└── ");
    reveal_strlit("├── ");
    reveal_strlit("    ");
    reveal_strlit("│   ");
    reveal_strlit(" ");
    reveal_strlit("[");
    reveal_strlit("]");
    reveal_strlit("compile");
    reveal_strlit("provided");
    reveal_strlit("runtime");
    reveal_strlit("test");
    reveal_strlit("system");
    reveal_strlit("import");
    lemma_sum_contains("["@, coord::scope_name(n.scope), '\n');
    lemma_sum_contains("["@ + coord::scope_name(n.scope), "]"@, '\n');
}

proof fn lemma_longer_prefix(line: Seq<char>, prefix: Seq<char>, more: Seq<char>, n: NodeModel)
    requires
        is_line_of(line, prefix + more, n),
    ensures
        is_line_of(line, prefix, n),
{
    let branch = choose|branch: Seq<char>| line == #[trigger] (prefix + more + branch) + entry(n);
    assert(prefix + more + branch =~= prefix + (more + branch));
}

/// The plain text of a node and all that stands below it has exactly one line for each node, each
/// node before its children; every line begins with what stands before the node.
pub proof fn plain_tree_has_one_line_per_node(n: NodeModel, prefix: Seq<char>, is_last: bool)
    requires
        on_one_line(n),
        !prefix.contains('\n'),
    ensures
        tree::tree_text(n, prefix, is_last) == lines_text(tree_lines(n, prefix, is_last)),
        lines_match(tree_lines(n, prefix, is_last), prefix, preorder(n)),
        line_ends(tree::tree_text(n, prefix, is_last)) == preorder(n).len(),
    decreases n, 0nat,
{
    let first = prefix + tree::connector(is_last) + entry(n);
    let inner = prefix + tree::indent(is_last);
    let count = n.children.len() as int;
    let below = nodes_lines(n.children, inner, count);
    lemma_labels_on_one_line(n);
    lemma_sum_contains(prefix, tree::indent(is_last), '\n');
    lemma_sum_contains(prefix, tree::connector(is_last), '\n');
    lemma_sum_contains(coord::coord_text(n.coord), " "@, '\n');
    lemma_sum_contains(coord::coord_text(n.coord) + " "@, tree::scope_label(n.scope), '\n');
    lemma_sum_contains(prefix + tree::connector(is_last), entry(n), '\n');
    plain_siblings_have_one_line_per_node(n.children, inner, count);
    let lines = seq![first] + below;
    assert(lines.skip(1) =~= below);
    assert(lines_text(lines) == first + "\n"@ + lines_text(below));
    assert(tree::tree_text(n, prefix, is_last) =~= first + "\n"@ + lines_text(below));
    let nodes = preorder(n);
    assert forall|i: int| 0 <= i < lines.len() implies is_line_of(
        #[trigger] lines[i],
        prefix,
        nodes[i],
    ) && !lines[i].contains('\n') by {
        if i == 0 {
            assert(lines[0] == (prefix + tree::connector(is_last)) + entry(n));
        } else {
            assert(lines[i] == below[i - 1]);
            assert(nodes[i] == preorder_of(n.children, count)[i - 1]);
            lemma_longer_prefix(lines[i], prefix, tree::indent(is_last), nodes[i]);
        }
    }
    lemma_line_count(lines);
}

/// The plain text of sibling nodes has exactly one line for each of them and of those below them.
pub proof fn plain_siblings_have_one_line_per_node(
    ns: Seq<NodeModel>,
    prefix: Seq<char>,
    k: int,
)
    requires
        forall|i: int| 0 <= i < ns.len() ==> on_one_line(#[trigger] ns[i]),
        !prefix.contains('\n'),
    ensures
        tree::nodes_text(ns, prefix, k) == lines_text(nodes_lines(ns, prefix, k)),
        lines_match(nodes_lines(ns, prefix, k), prefix, preorder_of(ns, k)),
    decreases ns, k,
{
    if 0 < k <= ns.len() {
        plain_siblings_have_one_line_per_node(ns, prefix, k - 1);
        plain_tree_has_one_line_per_node(ns[k - 1], prefix, k == ns.len());
        let a = nodes_lines(ns, prefix, k - 1);
        let b = tree_lines(ns[k - 1], prefix, k == ns.len());
        let x = preorder_of(ns, k - 1);
        let y = preorder(ns[k - 1]);
        lemma_lines_text_add(a, b);
        assert forall|i: int| 0 <= i < (a + b).len() implies is_line_of(
            #[trigger] (a + b)[i],
            prefix,
            (x + y)[i],
        ) && !(a + b)[i].contains('\n') by {
            if i < a.len() {
                assert((a + b)[i] == a[i]);
            } else {
                assert((a + b)[i] == b[i - a.len()]);
            }
        }
    }
}

/// The plain text of a whole tree has the line of the root and then exactly one line for each
/// node, each node before its children.
pub proof fn plain_whole_tree_has_one_line_per_node(root: CoordModel, ns: Seq<NodeModel>)
    requires
        !coord::coord_text(root).contains('\n'),
        forall|i: int| 0 <= i < ns.len() ==> on_one_line(#[trigger] ns[i]),
    ensures
        tree::whole_tree_text(root, ns) == lines_text(
            seq![coord::coord_text(root)] + nodes_lines(ns, Seq::empty(), ns.len() as int),
        ),
        lines_match(
            nodes_lines(ns, Seq::empty(), ns.len() as int),
            Seq::empty(),
            preorder_of(ns, ns.len() as int),
        ),
        line_ends(tree::whole_tree_text(root, ns)) == preorder_of(ns, ns.len() as int).len() + 1,
{
    let below = nodes_lines(ns, Seq::empty(), ns.len() as int);
    plain_siblings_have_one_line_per_node(ns, Seq::empty(), ns.len() as int);
    let lines = seq![coord::coord_text(root)] + below;
    assert(lines.skip(1) =~= below);
    assert forall|i: int| 0 <= i < lines.len() implies !(#[trigger] lines[i]).contains('\n') by {
        if i > 0 {
            assert(lines[i] == below[i - 1]);
        }
    }
    lemma_line_count(lines);
}

} // verus!

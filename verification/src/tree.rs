//! Displaying dependency trees, plain and coloured.
use crate::coord;
use crate::coord::ArtifactCoord;
use crate::coord::CoordModel;
use crate::coord::DependencyScope;
use crate::resolver;
use crate::resolver::DependencyNode;
use crate::resolver::NodeModel;
use crate::text;
use vstd::prelude::*;

verus! {

// ============================================================================
// Plain
// ============================================================================

/// What stands before a node: the last of its siblings closes the branch.
pub open spec fn connector(is_last: bool) -> Seq<char> {
    if is_last {
        "└── "@
    } else {
        "├── "@
    }
}

/// What stands before the children of a node, after what stands before the node.
pub open spec fn indent(is_last: bool) -> Seq<char> {
    if is_last {
        "    "@
    } else {
        "│   "@
    }
}

/// A scope in brackets.
pub open spec fn scope_label(s: DependencyScope) -> Seq<char> {
    "["@ + coord::scope_name(s) + "]"@
}

/// The lines of a node and all that stands below it.
pub open spec fn tree_text(n: NodeModel, prefix: Seq<char>, is_last: bool) -> Seq<char>
    decreases n, 0nat,
{
    prefix + connector(is_last) + coord::coord_text(n.coord) + " "@ + scope_label(n.scope) + "\n"@
        + nodes_text(n.children, prefix + indent(is_last), n.children.len() as int)
}

/// The lines of the first `k` of sibling nodes.
pub open spec fn nodes_text(ns: Seq<NodeModel>, prefix: Seq<char>, k: int) -> Seq<char>
    decreases ns, k,
{
    if k <= 0 || k > ns.len() {
        Seq::empty()
    } else {
        nodes_text(ns, prefix, k - 1) + tree_text(ns[k - 1], prefix, k == ns.len())
    }
}

/// A tree below the coordinates of its root.
pub open spec fn whole_tree_text(root: CoordModel, ns: Seq<NodeModel>) -> Seq<char> {
    coord::coord_text(root) + "\n"@ + nodes_text(ns, Seq::empty(), ns.len() as int)
}

fn label(scope: DependencyScope) -> (r: String)
    ensures
        r@ == scope_label(scope),
{
    let mut out = "[".to_owned();
    out.append(scope.as_str());
    out.append("]");
    out
}

fn connector_str(is_last: bool) -> (r: &'static str)
    ensures
        r@ == connector(is_last),
{
    if is_last {
        "└── "
    } else {
        "├── "
    }
}

fn indented(prefix: &str, is_last: bool) -> (r: String)
    ensures
        r@ == prefix@ + indent(is_last),
{
    let mut out = prefix.to_owned();
    if is_last {
        out.append("    ");
    } else {
        out.append("│   ");
    }
    out
}

fn display_nodes_plain(nodes: &Vec<DependencyNode>, prefix: &str) -> (r: String)
    ensures
        r@ == nodes_text(
            resolver::nodes_view(nodes@),
            prefix@,
            resolver::nodes_view(nodes@).len() as int,
        ),
    decreases nodes, 1nat,
{
    let mut out = String::new();
    let ghost ms = resolver::nodes_view(nodes@);
    let len: usize = nodes.len();
    proof {
        resolver::lemma_nodes_view(nodes@);
    }
    for i in 0..len
        invariant
            len == nodes@.len(),
            ms == resolver::nodes_view(nodes@),
            ms.len() == len,
            out@ == nodes_text(ms, prefix@, i as int),
    {
        proof {
            resolver::lemma_nodes_view(nodes@);
        }
        out.append(nodes[i].display_tree_plain(prefix, i + 1 == len).as_str());
    }
    out
}

impl DependencyNode {
    /// This node and all that stands below it as lines of a tree, without colours.
    pub fn display_tree_plain(&self, prefix: &str, is_last: bool) -> (r: String)
        ensures
            r@ == tree_text(self@, prefix@, is_last),
        decreases self, 0nat,
    {
        let mut out = prefix.to_owned();
        out.append(connector_str(is_last));
        out.append(self.coord.to_string().as_str());
        out.append(" ");
        out.append(label(self.scope).as_str());
        out.append("\n");
        let below = indented(prefix, is_last);
        out.append(display_nodes_plain(&self.children, below.as_str()).as_str());
        out
    }
}

/// The full dependency tree as text, without colours.
pub fn format_tree_plain(root: &ArtifactCoord, nodes: &Vec<DependencyNode>) -> (r: String)
    ensures
        r@ == whole_tree_text(root@, resolver::nodes_view(nodes@)),
{
    let mut out = root.to_string();
    out.append("\n");
    let lines = display_nodes_plain(nodes, "");
    proof {
        reveal_strlit("");
        assert(""@ =~= Seq::empty());
    }
    out.append(lines.as_str());
    out
}

// ============================================================================
// Coloured
// ============================================================================

/// The sequence that ends a style on a terminal.
pub open spec fn style_end() -> Seq<char> {
    "\u{1b}[0m"@
}

/// The sequence that begins the style with a code on a terminal.
pub open spec fn style_begin(code: Seq<char>) -> Seq<char> {
    "\u{1b}["@ + code + "m"@
}

/// A text between the sequences that begin and end a style. Where the text itself holds the end of
/// a style, the style begins anew behind it.
pub open spec fn styled(shown: Seq<char>, code: Seq<char>) -> Seq<char> {
    style_begin(code) + text::replace_text(shown, style_end(), style_end() + style_begin(code))
        + style_end()
}

/// Whether `out` shows a text in a style: plain, or between the sequences of the style.
pub open spec fn shows(shown: Seq<char>, code: Seq<char>, out: Seq<char>) -> bool {
    out == shown || out == styled(shown, code)
}

/// The colours of scopes.
#[derive(Clone, Copy, Debug, PartialEq, Eq, Structural)]
enum Hue {
    Red,
    Green,
    Yellow,
    Magenta,
    Cyan,
}

spec fn hue_code(h: Hue) -> Seq<char> {
    match h {
        Hue::Red => "31"@,
        Hue::Green => "32"@,
        Hue::Yellow => "33"@,
        Hue::Magenta => "35"@,
        Hue::Cyan => "36"@,
    }
}

/// Calls `color` of the trait `colored::Colorize` and writes out what it returns. That is the
/// text between the terminal's sequences for the colour, begun anew behind each end of a style
/// that the text itself holds, or the text alone: whether colours show, the environment decides.
#[verifier::external_body]
fn paint(text: &str, hue: Hue) -> (r: String)
    ensures
        shows(text@, hue_code(hue), r@),
{
    let color = match hue {
        Hue::Red => colored::Color::Red,
        Hue::Green => colored::Color::Green,
        Hue::Yellow => colored::Color::Yellow,
        Hue::Magenta => colored::Color::Magenta,
        Hue::Cyan => colored::Color::Cyan,
    };
    colored::Colorize::color(text, color).to_string()
}

/// Calls `dimmed` of the trait `colored::Colorize` and writes out what it returns: the text
/// between the terminal's sequences for a dimmed text, begun anew behind each end of a style that
/// the text itself holds, or the text alone.
#[verifier::external_body]
fn dim(text: &str) -> (r: String)
    ensures
        shows(text@, "2"@, r@),
{
    colored::Colorize::dimmed(text).to_string()
}

/// Calls `bold` of the trait `colored::Colorize` and writes out what it returns: the text
/// between the terminal's sequences for a bold text, begun anew behind each end of a style that
/// the text itself holds, or the text alone.
#[verifier::external_body]
fn embolden(text: &str) -> (r: String)
    ensures
        shows(text@, "1"@, r@),
{
    colored::Colorize::bold(text).to_string()
}

/// The code of the style of a scope.
pub open spec fn scope_code(s: DependencyScope) -> Seq<char> {
    match s {
        DependencyScope::Compile => "32"@,
        DependencyScope::Runtime => "33"@,
        DependencyScope::Test => "36"@,
        DependencyScope::Provided => "35"@,
        DependencyScope::System => "31"@,
        DependencyScope::Import => "2"@,
    }
}

/// A scope in brackets, in its colour.
fn colored_scope(scope: DependencyScope) -> (r: String)
    ensures
        shows(scope_label(scope), scope_code(scope), r@),
{
    let tag = label(scope);
    match scope {
        DependencyScope::Compile => paint(tag.as_str(), Hue::Green),
        DependencyScope::Runtime => paint(tag.as_str(), Hue::Yellow),
        DependencyScope::Test => paint(tag.as_str(), Hue::Cyan),
        DependencyScope::Provided => paint(tag.as_str(), Hue::Magenta),
        DependencyScope::System => paint(tag.as_str(), Hue::Red),
        DependencyScope::Import => dim(tag.as_str()),
    }
}

/// The pieces of a node's line: what stands before it, the connector, the coordinates, the scope
/// and the mark of an optional dependency, which also dims the coordinates.
pub open spec fn line_pieces(
    n: NodeModel,
    prefix: Seq<char>,
    is_last: bool,
    pieces: Seq<Seq<char>>,
) -> bool {
    &&& pieces.len() == 5
    &&& shows(prefix, "2"@, pieces[0])
    &&& shows(connector(is_last), "2"@, pieces[1])
    &&& if n.optional {
        shows(coord::coord_text(n.coord), "2"@, pieces[2])
    } else {
        pieces[2] == coord::coord_text(n.coord)
    }
    &&& shows(scope_label(n.scope), scope_code(n.scope), pieces[3])
    &&& shows("(optional)"@, "2"@, pieces[4])
}

/// The line made of pieces.
pub open spec fn line_of(pieces: Seq<Seq<char>>, optional: bool) -> Seq<char> {
    let mark = if optional {
        " "@ + pieces[4]
    } else {
        Seq::empty()
    };
    pieces[0] + pieces[1] + pieces[2] + " "@ + pieces[3] + mark + "\n"@
}

/// Whether `out` shows a node and all that stands below it, each part plain or in its style.
pub open spec fn tree_shown(
    n: NodeModel,
    prefix: Seq<char>,
    is_last: bool,
    out: Seq<char>,
) -> bool
    decreases n, 0nat,
{
    exists|pieces: Seq<Seq<char>>, below: Seq<char>|
        #![trigger line_pieces(n, prefix, is_last, pieces), line_of(pieces, n.optional) + below]
        line_pieces(n, prefix, is_last, pieces) && nodes_shown(
            n.children,
            prefix + indent(is_last),
            n.children.len() as int,
            below,
        ) && out == line_of(pieces, n.optional) + below
}

/// Whether `out` shows the first `k` of sibling nodes.
pub open spec fn nodes_shown(
    ns: Seq<NodeModel>,
    prefix: Seq<char>,
    k: int,
    out: Seq<char>,
) -> bool
    decreases ns, k,
{
    if k <= 0 || k > ns.len() {
        out.len() == 0
    } else {
        exists|a: Seq<char>, b: Seq<char>|
            #![trigger a + b]
            nodes_shown(ns, prefix, k - 1, a) && tree_shown(
                ns[k - 1],
                prefix,
                k == ns.len(),
                b,
            ) && out == a + b
    }
}

/// Whether `out` shows a tree below the coordinates of its root.
pub open spec fn whole_tree_shown(root: CoordModel, ns: Seq<NodeModel>, out: Seq<char>) -> bool {
    exists|title: Seq<char>, lines: Seq<char>|
        #![trigger title + "\n"@ + lines]
        shows(coord::coord_text(root), "1"@, title) && nodes_shown(
            ns,
            Seq::empty(),
            ns.len() as int,
            lines,
        ) && out == title + "\n"@ + lines
}

fn display_nodes(nodes: &Vec<DependencyNode>, prefix: &str) -> (r: String)
    ensures
        nodes_shown(
            resolver::nodes_view(nodes@),
            prefix@,
            resolver::nodes_view(nodes@).len() as int,
            r@,
        ),
    decreases nodes, 1nat,
{
    let mut out = String::new();
    let ghost ms = resolver::nodes_view(nodes@);
    let len: usize = nodes.len();
    proof {
        resolver::lemma_nodes_view(nodes@);
    }
    for i in 0..len
        invariant
            len == nodes@.len(),
            ms == resolver::nodes_view(nodes@),
            ms.len() == len,
            nodes_shown(ms, prefix@, i as int, out@),
    {
        proof {
            resolver::lemma_nodes_view(nodes@);
        }
        let next = nodes[i].display_tree(prefix, i + 1 == len);
        let ghost before = out@;
        out.append(next.as_str());
        proof {
            assert(ms[i as int] == nodes@[i as int]@);
            assert(nodes_shown(ms, prefix@, i + 1, before + next@));
        }
    }
    out
}

impl DependencyNode {
    /// This node and all that stands below it as lines of a tree, in colours where the terminal
    /// shows them.
    pub fn display_tree(&self, prefix: &str, is_last: bool) -> (r: String)
        ensures
            tree_shown(self@, prefix@, is_last, r@),
        decreases self, 0nat,
    {
        let before = dim(prefix);
        let branch = dim(connector_str(is_last));
        let scope = colored_scope(self.scope);
        let mark = dim("(optional)");
        let coords = self.coord.to_string();
        let name = if self.optional {
            dim(coords.as_str())
        } else {
            coords
        };
        let ghost pieces = seq![before@, branch@, name@, scope@, mark@];
        let mut out = before.clone();
        out.append(branch.as_str());
        out.append(name.as_str());
        out.append(" ");
        out.append(scope.as_str());
        if self.optional {
            out.append(" ");
            out.append(mark.as_str());
        }
        out.append("\n");
        let ghost line = out@;
        proof {
            assert(line_pieces(self@, prefix@, is_last, pieces));
            assert(line =~= line_of(pieces, self.optional));
        }
        let inner = indented(prefix, is_last);
        let below = display_nodes(&self.children, inner.as_str());
        out.append(below.as_str());
        assert(out@ == line_of(pieces, self@.optional) + below@);
        out
    }
}

/// The full dependency tree as text, in colours where the terminal shows them.
pub fn format_tree(root: &ArtifactCoord, nodes: &Vec<DependencyNode>) -> (r: String)
    ensures
        whole_tree_shown(root@, resolver::nodes_view(nodes@), r@),
{
    let title = embolden(root.to_string().as_str());
    let lines = display_nodes(nodes, "");
    let mut out = title.clone();
    out.append("\n");
    out.append(lines.as_str());
    proof {
        reveal_strlit("");
        assert(""@ =~= Seq::empty());
        assert(out@ == title@ + "\n"@ + lines@);
    }
    out
}

} // verus!

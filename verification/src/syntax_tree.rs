//! Parse trees kept as a list of nodes, each child referred to by its index
//! in the list, and their indented printout.
use vstd::prelude::*;
use crate::text::push_char;

verus! {

/// A node of a parse tree: its label and the indices of its children.
#[derive(Debug)]
pub struct RdNode {
    pub label: String,
    pub children: Vec<usize>,
}

/// The mathematical value of an `RdNode`.
pub struct RdNodeView {
    pub label: Seq<char>,
    pub children: Seq<usize>,
}

impl View for RdNode {
    type V = RdNodeView;

    open spec fn view(&self) -> RdNodeView {
        RdNodeView { label: self.label@, children: self.children@ }
    }
}

impl Clone for RdNode {
    fn clone(&self) -> (r: Self)
        ensures
            r@ == self@,
    {
        let mut children: Vec<usize> = Vec::new();
        let n = self.children.len();
        let mut k: usize = 0;
        while k < n
            invariant
                n == self.children@.len(),
                k <= n,
                children@ == self.children@.take(k as int),
            decreases n - k,
        {
            children.push(self.children[k]);
            k = k + 1;
            assert(children@ =~= self.children@.take(k as int));
        }
        assert(self.children@.take(n as int) =~= self.children@);
        RdNode { label: self.label.clone(), children }
    }
}

/// The result of a recursive-descent parse: the index of the root, the
/// nodes, and the trace of the rules entered and the terminals matched.
#[derive(Debug)]
pub struct RdParseOutput {
    pub root: usize,
    pub nodes: Vec<RdNode>,
    pub trace: Vec<String>,
}

impl Clone for RdParseOutput {
    fn clone(&self) -> (r: Self)
        ensures
            r.root == self.root,
            node_views(r.nodes@) == node_views(self.nodes@),
            r.trace@.len() == self.trace@.len(),
            forall|i: int| 0 <= i < self.trace@.len() ==> r.trace@[i]@ == self.trace@[i]@,
    {
        let mut nodes: Vec<RdNode> = Vec::new();
        let mut k: usize = 0;
        while k < self.nodes.len()
            invariant
                k <= self.nodes@.len(),
                node_views(nodes@) == node_views(self.nodes@.take(k as int)),
            decreases self.nodes@.len() - k,
        {
            let ghost before = nodes@;
            nodes.push(self.nodes[k].clone());
            proof {
                assert(node_views(nodes@) =~= node_views(before).push(self.nodes@[k as int]@));
                assert(self.nodes@.take(k + 1) =~= self.nodes@.take(k as int).push(
                    self.nodes@[k as int],
                ));
                assert(node_views(self.nodes@.take(k + 1)) =~= node_views(
                    self.nodes@.take(k as int),
                ).push(self.nodes@[k as int]@));
            }
            k = k + 1;
        }
        assert(self.nodes@.take(self.nodes@.len() as int) =~= self.nodes@);
        let mut trace: Vec<String> = Vec::new();
        let mut j: usize = 0;
        while j < self.trace.len()
            invariant
                j <= self.trace@.len(),
                trace@.len() == j,
                forall|i: int| 0 <= i < j ==> trace@[i]@ == self.trace@[i]@,
            decreases self.trace@.len() - j,
        {
            trace.push(self.trace[j].clone());
            j = j + 1;
        }
        RdParseOutput { root: self.root, nodes, trace }
    }
}

/// The views of a list of nodes.
pub open spec fn node_views(ns: Seq<RdNode>) -> Seq<RdNodeView> {
    ns.map_values(|n: RdNode| n@)
}

/// Every child comes before its parent in the list, so that following
/// children always ends.
pub open spec fn tree_ok(nodes: Seq<RdNodeView>) -> bool {
    forall|i: int, k: int|
        0 <= i < nodes.len() && 0 <= k < nodes[i].children.len() ==> #[trigger] nodes[i].children[k]
            < i
}

/// Two spaces per level of depth.
pub open spec fn indent(depth: nat) -> Seq<char>
    decreases depth,
{
    if depth == 0 {
        Seq::empty()
    } else {
        indent((depth - 1) as nat) + seq![' ', ' ']
    }
}

/// Following children from `id` never leaves the list and reaches no node
/// more than `fuel` levels down: with `fuel` the number of nodes, the
/// subtree at `id` is finite (no node lies below itself).
pub open spec fn printable(nodes: Seq<RdNodeView>, id: int, fuel: nat) -> bool
    decreases fuel,
{
    &&& 0 <= id < nodes.len()
    &&& fuel > 0
    &&& forall|k: int|
        0 <= k < nodes[id].children.len() ==> printable(
            nodes,
            #[trigger] nodes[id].children[k] as int,
            (fuel - 1) as nat,
        )
}

/// The printout of the subtree at `id`: its label on a line indented by
/// `depth`, then the subtrees of its children, one level deeper (down to
/// `fuel` levels).
pub open spec fn tree_text(nodes: Seq<RdNodeView>, id: int, depth: nat, fuel: nat) -> Seq<char>
    decreases fuel, 1int, 0int,
{
    if 0 <= id < nodes.len() && fuel > 0 {
        indent(depth) + nodes[id].label + seq!['\n'] + kids_text(
            nodes,
            id,
            nodes[id].children.len() as int,
            depth + 1,
            (fuel - 1) as nat,
        )
    } else {
        Seq::empty()
    }
}

/// The printouts of the first `k` children of node `id`, at `depth`.
pub open spec fn kids_text(nodes: Seq<RdNodeView>, id: int, k: int, depth: nat, fuel: nat) -> Seq<
    char,
>
    decreases fuel + 1, 0int, k,
{
    if 0 < k && 0 <= id < nodes.len() && k <= nodes[id].children.len() {
        kids_text(nodes, id, k - 1, depth, fuel) + tree_text(
            nodes,
            nodes[id].children[k - 1] as int,
            depth,
            fuel,
        )
    } else {
        Seq::empty()
    }
}

/// In a list where every child comes before its parent, the subtree at
/// `id` is printable with more fuel than `id`.
pub proof fn lemma_ordered_printable(nodes: Seq<RdNodeView>, id: int, fuel: nat)
    requires
        tree_ok(nodes),
        0 <= id < nodes.len(),
        id < fuel,
    ensures
        printable(nodes, id, fuel),
    decreases id,
{
    assert forall|k: int| 0 <= k < nodes[id].children.len() implies printable(
        nodes,
        #[trigger] nodes[id].children[k] as int,
        (fuel - 1) as nat,
    ) by {
        lemma_ordered_printable(nodes, nodes[id].children[k] as int, (fuel - 1) as nat);
    }
}

/// Every child comes after its parent in the list and inside it.
pub open spec fn children_after(nodes: Seq<RdNodeView>) -> bool {
    forall|i: int, k: int|
        0 <= i < nodes.len() && 0 <= k < nodes[i].children.len() ==> i < #[trigger] nodes[i].children[k]
            < nodes.len()
}

/// In a list where every child comes after its parent, the subtree at `id`
/// is printable with as much fuel as there are nodes from `id` on.
pub proof fn lemma_after_printable(nodes: Seq<RdNodeView>, id: int, fuel: nat)
    requires
        children_after(nodes),
        0 <= id < nodes.len(),
        fuel >= nodes.len() - id,
    ensures
        printable(nodes, id, fuel),
    decreases nodes.len() - id,
{
    assert forall|k: int| 0 <= k < nodes[id].children.len() implies printable(
        nodes,
        #[trigger] nodes[id].children[k] as int,
        (fuel - 1) as nat,
    ) by {
        lemma_after_printable(nodes, nodes[id].children[k] as int, (fuel - 1) as nat);
    }
}

/// `a` is an initial part of `b`.
pub open spec fn prefix_of(a: Seq<RdNodeView>, b: Seq<RdNodeView>) -> bool {
    &&& a.len() <= b.len()
    &&& forall|i: int| 0 <= i < a.len() ==> #[trigger] b[i] == a[i]
}

/// The labels of the leaves under node `id`, left to right, the empty
/// leaves `ε` left out.
pub open spec fn leaves(nodes: Seq<RdNodeView>, id: int) -> Seq<Seq<char>>
    decreases id, 1int, 0int,
{
    if 0 <= id < nodes.len() {
        if nodes[id].children.len() == 0 {
            if nodes[id].label == "ε"@ {
                Seq::empty()
            } else {
                seq![nodes[id].label]
            }
        } else {
            forest(nodes, nodes[id].children, id)
        }
    } else {
        Seq::empty()
    }
}

/// The leaves under the nodes `ids` that come before `bound`, in order.
pub open spec fn forest(nodes: Seq<RdNodeView>, ids: Seq<usize>, bound: int) -> Seq<Seq<char>>
    decreases bound, 0int, ids.len(),
{
    if ids.len() == 0 {
        Seq::empty()
    } else {
        forest(nodes, ids.drop_last(), bound) + if (ids.last() as int) < bound {
            leaves(nodes, ids.last() as int)
        } else {
            Seq::empty()
        }
    }
}

/// Nodes added after `id` do not change the leaves under it.
pub proof fn lemma_leaves_prefix(a: Seq<RdNodeView>, b: Seq<RdNodeView>, id: int)
    requires
        prefix_of(a, b),
        0 <= id < a.len(),
    ensures
        leaves(b, id) == leaves(a, id),
    decreases id, 1int, 0int,
{
    assert(b[id] == a[id]);
    lemma_forest_prefix(a, b, a[id].children, id);
}

/// Nodes added after `bound` do not change the leaves under nodes before it.
pub proof fn lemma_forest_prefix(a: Seq<RdNodeView>, b: Seq<RdNodeView>, ids: Seq<usize>, bound: int)
    requires
        prefix_of(a, b),
        bound <= a.len(),
    ensures
        forest(b, ids, bound) == forest(a, ids, bound),
    decreases bound, 0int, ids.len(),
{
    if ids.len() > 0 {
        lemma_forest_prefix(a, b, ids.drop_last(), bound);
        let c = ids.last() as int;
        if c < bound {
            lemma_leaves_prefix(a, b, c);
        }
    }
}

fn push_indent(out: &mut String, depth: usize)
    ensures
        final(out)@ == old(out)@ + indent(depth as nat),
{
    let mut d: usize = 0;
    while d < depth
        invariant
            d <= depth,
            out@ == old(out)@ + indent(d as nat),
        decreases depth - d,
    {
        push_char(out, ' ');
        push_char(out, ' ');
        d = d + 1;
        assert(out@ =~= old(out)@ + indent(d as nat));
    }
}

fn write_tree(nodes: &[RdNode], id: usize, depth: usize, fuel: usize, out: &mut String)
    requires
        printable(node_views(nodes@), id as int, fuel as nat),
        depth + fuel <= nodes@.len(),
    ensures
        final(out)@ == old(out)@ + tree_text(
            node_views(nodes@),
            id as int,
            depth as nat,
            fuel as nat,
        ),
    decreases fuel,
{
    let ghost views = node_views(nodes@);
    push_indent(out, depth);
    out.append(nodes[id].label.as_str());
    push_char(out, '\n');
    let ghost head = out@;
    let children = &nodes[id].children;
    let n = children.len();
    assert(views[id as int].children == children@);
    let total = nodes.len();
    let mut k: usize = 0;
    while k < n
        invariant
            total == nodes@.len(),
            views == node_views(nodes@),
            printable(views, id as int, fuel as nat),
            depth + fuel <= nodes@.len(),
            children@ == views[id as int].children,
            n == children@.len(),
            k <= n,
            out@ == head + kids_text(
                views,
                id as int,
                k as int,
                (depth + 1) as nat,
                (fuel - 1) as nat,
            ),
        decreases n - k,
    {
        let c = children[k];
        assert(printable(views, c as int, (fuel - 1) as nat)) by {
            assert(views[id as int].children[k as int] == c);
        }
        write_tree(nodes, c, depth + 1, fuel - 1, out);
        k = k + 1;
    }
    assert(head == old(out)@ + indent(depth as nat) + views[id as int].label + seq!['\n']);
    assert(out@ =~= old(out)@ + tree_text(views, id as int, depth as nat, fuel as nat));
}

/// The tree under `root`, one node per line, each indented by two spaces
/// per level below the root. The subtree at `root` must be finite: no node
/// in it lies below itself.
pub fn format_tree(nodes: &[RdNode], root: usize) -> (s: String)
    requires
        printable(node_views(nodes@), root as int, nodes@.len()),
    ensures
        s@ == tree_text(node_views(nodes@), root as int, 0, nodes@.len()),
{
    let mut out = String::new();
    let fuel = nodes.len();
    write_tree(nodes, root, 0, fuel, &mut out);
    assert(out@ =~= tree_text(node_views(nodes@), root as int, 0, nodes@.len()));
    out
}

} // verus!

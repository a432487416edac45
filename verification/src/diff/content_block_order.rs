//! Apply order of content blocks.
//!
//! Braze refuses to create a block that includes a block it does not have
//! yet. References are read out of the local bodies and blocks are written
//! in dependency order: targets before referrers.

use crate::diff::{DiffOp, ResourceDiff, ResourceDiffView};
use crate::order::{
    ascending, contains_str, find_last_named, insert_name, last_named, names_of, ordered, views, Named,
};
use crate::pattern::{capture_first_groups, first_groups, taken};
use crate::text::{join, join_text, str_eq, strs};
use vstd::prelude::*;

verus! {

/// Matches `{{content_blocks.${NAME}}}`, with or without whitespace and a
/// filter; the first group is `NAME`.
pub const REFERENCE_PATTERN: &'static str =
    r"\{\{\s*content_blocks\.\$\{\s*([^\s}|]+)\s*\}(?:\s*\|[^}]*)?\s*\}\}";

/// The block names a body refers to, as the pattern finds them.
pub open spec fn references(body: Seq<char>) -> Seq<Seq<char>> {
    match first_groups(REFERENCE_PATTERN@, body) {
        Some(g) => taken(g),
        None => Seq::empty(),
    }
}

/// Names of content blocks that a body includes, in source order. Repetitions
/// and references of a block to itself are kept.
pub fn extract_block_references(body: &str) -> (r: Vec<String>)
    ensures
        strs(r@) == references(body@),
{
    capture_first_groups(REFERENCE_PATTERN, body)
}

/// A dependency cycle. The closing block is repeated, so that the path reads
/// `A → B → C → A`.
#[derive(Debug, PartialEq, Eq)]
pub struct Cycle {
    pub path: Vec<String>,
}

impl Cycle {
    /// The path with arrows between the blocks.
    pub fn to_string(&self) -> (r: String)
        ensures
            r@ == join(strs(self.path@), " → "@),
    {
        join_text(&self.path, " → ")
    }
}

/// What one block refers to.
#[derive(Debug, PartialEq, Eq)]
pub struct Edge {
    pub referrer: String,
    pub targets: Vec<String>,
}

/// What the references of one block are.
#[verifier::ext_equal]
pub struct EdgeView {
    pub referrer: Seq<char>,
    pub targets: Seq<Seq<char>>,
}

impl View for Edge {
    type V = EdgeView;

    open spec fn view(&self) -> EdgeView {
        EdgeView { referrer: self.referrer@, targets: strs(self.targets@) }
    }
}

impl Named for Edge {
    open spec fn name_of(v: EdgeView) -> Seq<char> {
        v.referrer
    }

    fn name_ref(&self) -> (r: &String) {
        &self.referrer
    }
}

/// What a block refers to: the last entry for it counts.
pub open spec fn targets_of(edges: Seq<EdgeView>, node: Seq<char>) -> Seq<Seq<char>> {
    match last_named::<Edge>(edges, node) {
        Some(e) => e.targets,
        None => Seq::empty(),
    }
}

/// The number of nodes that are not on the stack.
pub open spec fn off_stack(nodes: Seq<Seq<char>>, stack: Seq<Seq<char>>) -> nat {
    nodes.to_set().difference(stack.to_set()).len()
}

/// Depth-first post-order from one node: what the output becomes, or the
/// cycle that is met first.
pub open spec fn visited(
    nodes: Seq<Seq<char>>,
    edges: Seq<EdgeView>,
    node: Seq<char>,
    stack: Seq<Seq<char>>,
    out: Seq<Seq<char>>,
) -> Result<Seq<Seq<char>>, Seq<Seq<char>>>
    decreases off_stack(nodes, stack), 0nat,
{
    if stack.contains(node) {
        Err(stack.skip(stack.index_of_first(node)->0).push(node))
    } else if out.contains(node) || !nodes.contains(node) {
        Ok(out)
    } else {
        proof {
            lemma_off_stack_decreases(nodes, stack, node);
        }
        match visited_all(nodes, edges, targets_of(edges, node), stack.push(node), out) {
            Ok(o) => Ok(o.push(node)),
            Err(p) => Err(p),
        }
    }
}

/// Depth-first post-order from each of the targets that is a node, one after
/// the other.
pub open spec fn visited_all(
    nodes: Seq<Seq<char>>,
    edges: Seq<EdgeView>,
    targets: Seq<Seq<char>>,
    stack: Seq<Seq<char>>,
    out: Seq<Seq<char>>,
) -> Result<Seq<Seq<char>>, Seq<Seq<char>>>
    decreases off_stack(nodes, stack), targets.len() + 1,
{
    if targets.len() == 0 {
        Ok(out)
    } else if !nodes.contains(targets[0]) {
        visited_all(nodes, edges, targets.drop_first(), stack, out)
    } else {
        match visited(nodes, edges, targets[0], stack, out) {
            Ok(o) => visited_all(nodes, edges, targets.drop_first(), stack, o),
            Err(p) => Err(p),
        }
    }
}

/// The nodes in depth-first post-order, ties broken by the order in which
/// nodes and targets are given; or the cycle that is met first.
pub open spec fn topo_order(nodes: Seq<Seq<char>>, edges: Seq<EdgeView>) -> Result<
    Seq<Seq<char>>,
    Seq<Seq<char>>,
> {
    visited_all(nodes, edges, nodes, Seq::empty(), Seq::empty())
}

/// Pushing a node leaves fewer nodes off the stack.
pub proof fn lemma_off_stack_decreases(
    nodes: Seq<Seq<char>>,
    stack: Seq<Seq<char>>,
    node: Seq<char>,
)
    requires
        nodes.contains(node),
        !stack.contains(node),
    ensures
        off_stack(nodes, stack.push(node)) < off_stack(nodes, stack),
{
    let a = nodes.to_set().difference(stack.to_set());
    let b = nodes.to_set().difference(stack.push(node).to_set());
    crate::order::lemma_push_to_set(stack, node);
    assert(b =~= a.remove(node));
    vstd::seq_lib::seq_to_set_is_finite(nodes);
    vstd::set_lib::lemma_len_subset(a, nodes.to_set());
    assert(a.contains(node));
}

/// `a` refers to `b`, and `b` is among the nodes.
pub open spec fn depends(
    nodes: Seq<Seq<char>>,
    edges: Seq<EdgeView>,
    a: Seq<char>,
    b: Seq<char>,
) -> bool {
    nodes.contains(b) && targets_of(edges, a).contains(b)
}

/// Every node that `s[i]` depends on stands before position `i`.
pub open spec fn dependencies_first(
    nodes: Seq<Seq<char>>,
    edges: Seq<EdgeView>,
    s: Seq<Seq<char>>,
) -> bool {
    forall|i: int, t: Seq<char>|
        #![trigger s[i], depends(nodes, edges, s[i], t)]
        0 <= i < s.len() && depends(nodes, edges, s[i], t) ==> s.take(i).contains(t)
}

/// Each node leads to the next.
pub open spec fn is_walk(
    nodes: Seq<Seq<char>>,
    edges: Seq<EdgeView>,
    p: Seq<Seq<char>>,
) -> bool {
    forall|i: int| 0 < i < p.len() ==> depends(nodes, edges, p[i - 1], #[trigger] p[i])
}

/// A walk of at least one step that ends where it began.
pub open spec fn is_cycle(
    nodes: Seq<Seq<char>>,
    edges: Seq<EdgeView>,
    p: Seq<Seq<char>>,
) -> bool {
    p.len() >= 2 && p.first() == p.last() && is_walk(nodes, edges, p)
}

/// `s` lists exactly the nodes, each once, dependencies first.
pub open spec fn is_dependency_order(
    nodes: Seq<Seq<char>>,
    edges: Seq<EdgeView>,
    s: Seq<Seq<char>>,
) -> bool {
    &&& s.no_duplicates()
    &&& s.to_set() == nodes.to_set()
    &&& dependencies_first(nodes, edges, s)
}

/// What holds of the output at any point of the walk.
spec fn sound(nodes: Seq<Seq<char>>, edges: Seq<EdgeView>, out: Seq<Seq<char>>) -> bool {
    &&& out.no_duplicates()
    &&& forall|i: int| 0 <= i < out.len() ==> nodes.contains(#[trigger] out[i])
    &&& dependencies_first(nodes, edges, out)
}

/// What a step of the walk adds.
spec fn extends(
    stack: Seq<Seq<char>>,
    out: Seq<Seq<char>>,
    o: Seq<Seq<char>>,
) -> bool {
    &&& out.len() <= o.len()
    &&& o.take(out.len() as int) == out
    &&& forall|i: int| out.len() <= i < o.len() ==> !stack.contains(#[trigger] o[i])
}

proof fn lemma_visited_sound(
    nodes: Seq<Seq<char>>,
    edges: Seq<EdgeView>,
    node: Seq<char>,
    stack: Seq<Seq<char>>,
    out: Seq<Seq<char>>,
)
    requires
        sound(nodes, edges, out),
        nodes.contains(node),
        visited(nodes, edges, node, stack, out) is Ok,
    ensures
        sound(nodes, edges, visited(nodes, edges, node, stack, out)->Ok_0),
        extends(stack, out, visited(nodes, edges, node, stack, out)->Ok_0),
        visited(nodes, edges, node, stack, out)->Ok_0.contains(node),
    decreases off_stack(nodes, stack), 0nat,
{
    if out.contains(node) {
        assert(out.take(out.len() as int) =~= out);
    } else {
        lemma_off_stack_decreases(nodes, stack, node);
        let targets = targets_of(edges, node);
        let deeper = stack.push(node);
        lemma_visited_all_sound(nodes, edges, targets, deeper, out);
        let o = visited_all(nodes, edges, targets, deeper, out)->Ok_0;
        let r = o.push(node);
        assert(!o.contains(node)) by {
            if o.contains(node) {
                let i = choose|i: int| 0 <= i < o.len() && o[i] == node;
                if i < out.len() {
                    assert(o.take(out.len() as int)[i] == out[i]);
                    assert(out.contains(node));
                } else {
                    assert(deeper[stack.len() as int] == node);
                    assert(deeper.contains(o[i]));
                }
            }
        }
        assert(r.no_duplicates()) by {
            assert forall|i: int, j: int| 0 <= i < r.len() && 0 <= j < r.len() && i != j implies r[i]
                != r[j] by {
                if i == o.len() {
                    assert(r[j] == o[j]);
                } else if j == o.len() {
                    assert(r[i] == o[i]);
                } else {
                    assert(r[i] == o[i] && r[j] == o[j]);
                }
            }
        }
        assert forall|i: int| 0 <= i < r.len() implies nodes.contains(#[trigger] r[i]) by {
            if i < o.len() {
                assert(r[i] == o[i]);
            }
        }
        assert forall|i: int, t: Seq<char>|
            #![trigger r[i], depends(nodes, edges, r[i], t)]
            0 <= i < r.len() && depends(nodes, edges, r[i], t) implies r.take(i).contains(t) by {
            if i < o.len() {
                assert(r[i] == o[i]);
                assert(depends(nodes, edges, o[i], t));
                assert(o.take(i).contains(t));
                assert(r.take(i) =~= o.take(i));
            } else {
                let k = choose|k: int| 0 <= k < targets.len() && targets[k] == t;
                assert(nodes.contains(targets[k]));
                assert(o.contains(targets[k]));
                assert(r.take(i) =~= o);
            }
        }
        assert(r.take(out.len() as int) =~= o.take(out.len() as int));
        assert forall|i: int| out.len() <= i < r.len() implies !stack.contains(
            #[trigger] r[i],
        ) by {
            if i < o.len() {
                assert(!deeper.contains(o[i]));
                if stack.contains(o[i]) {
                    let k = choose|k: int| 0 <= k < stack.len() && stack[k] == o[i];
                    assert(deeper[k] == o[i]);
                }
            }
        }
        assert(r[o.len() as int] == node);
    }
}

proof fn lemma_visited_all_sound(
    nodes: Seq<Seq<char>>,
    edges: Seq<EdgeView>,
    targets: Seq<Seq<char>>,
    stack: Seq<Seq<char>>,
    out: Seq<Seq<char>>,
)
    requires
        sound(nodes, edges, out),
        visited_all(nodes, edges, targets, stack, out) is Ok,
    ensures
        sound(nodes, edges, visited_all(nodes, edges, targets, stack, out)->Ok_0),
        extends(stack, out, visited_all(nodes, edges, targets, stack, out)->Ok_0),
        forall|k: int|
            0 <= k < targets.len() && nodes.contains(#[trigger] targets[k]) ==> visited_all(
                nodes,
                edges,
                targets,
                stack,
                out,
            )->Ok_0.contains(targets[k]),
    decreases off_stack(nodes, stack), targets.len() + 1,
{
    let r = visited_all(nodes, edges, targets, stack, out)->Ok_0;
    if targets.len() == 0 {
        assert(out.take(out.len() as int) =~= out);
    } else {
        let rest = targets.drop_first();
        let mid = if nodes.contains(targets[0]) {
            lemma_visited_sound(nodes, edges, targets[0], stack, out);
            visited(nodes, edges, targets[0], stack, out)->Ok_0
        } else {
            assert(out.take(out.len() as int) =~= out);
            out
        };
        assert(extends(stack, out, mid));
        lemma_visited_all_sound(nodes, edges, rest, stack, mid);
        assert(r == visited_all(nodes, edges, rest, stack, mid)->Ok_0);
        assert(extends(stack, mid, r));
        assert(r.take(out.len() as int) =~= r.take(mid.len() as int).take(out.len() as int));
        assert forall|i: int| out.len() <= i < r.len() implies !stack.contains(
            #[trigger] r[i],
        ) by {
            if i < mid.len() {
                assert(r.take(mid.len() as int)[i] == mid[i]);
            }
        }
        assert forall|k: int| 0 <= k < targets.len() && nodes.contains(
            #[trigger] targets[k],
        ) implies r.contains(targets[k]) by {
            if k == 0 {
                let i = choose|i: int| 0 <= i < mid.len() && mid[i] == targets[0];
                assert(r.take(mid.len() as int)[i] == mid[i]);
                assert(r[i] == targets[0]);
            } else {
                assert(rest[k - 1] == targets[k]);
            }
        }
    }
}

proof fn lemma_visited_cycle(
    nodes: Seq<Seq<char>>,
    edges: Seq<EdgeView>,
    node: Seq<char>,
    stack: Seq<Seq<char>>,
    out: Seq<Seq<char>>,
)
    requires
        is_walk(nodes, edges, stack.push(node)),
        stack.no_duplicates(),
        visited(nodes, edges, node, stack, out) is Err,
    ensures
        is_cycle(nodes, edges, visited(nodes, edges, node, stack, out)->Err_0),
        visited(nodes, edges, node, stack, out)->Err_0.drop_last().no_duplicates(),
    decreases off_stack(nodes, stack), 0nat,
{
    if stack.contains(node) {
        let k = stack.index_of_first(node)->0;
        stack.index_of_first_ensures(node);
        let p = stack.skip(k).push(node);
        let w = stack.push(node);
        assert(p =~= w.skip(k));
        assert(p[0] == stack[k]);
        assert(p.drop_last() =~= stack.skip(k));
        assert forall|i: int| 0 < i < p.len() implies depends(
            nodes,
            edges,
            p[i - 1],
            #[trigger] p[i],
        ) by {
            assert(depends(nodes, edges, w[k + i - 1], w[k + i]));
            assert(p[i] == w[k + i]);
            assert(p[i - 1] == w[k + i - 1]);
        }
    } else {
        lemma_off_stack_decreases(nodes, stack, node);
        assert(stack.push(node).no_duplicates());
        lemma_visited_all_cycle(
            nodes,
            edges,
            targets_of(edges, node),
            stack.push(node),
            out,
        );
    }
}

proof fn lemma_visited_all_cycle(
    nodes: Seq<Seq<char>>,
    edges: Seq<EdgeView>,
    targets: Seq<Seq<char>>,
    stack: Seq<Seq<char>>,
    out: Seq<Seq<char>>,
)
    requires
        is_walk(nodes, edges, stack),
        stack.no_duplicates(),
        stack.len() > 0 ==> forall|k: int|
            0 <= k < targets.len() ==> targets_of(edges, stack.last()).contains(
                #[trigger] targets[k],
            ),
        visited_all(nodes, edges, targets, stack, out) is Err,
    ensures
        is_cycle(nodes, edges, visited_all(nodes, edges, targets, stack, out)->Err_0),
        visited_all(nodes, edges, targets, stack, out)->Err_0.drop_last().no_duplicates(),
    decreases off_stack(nodes, stack), targets.len() + 1,
{
    let rest = targets.drop_first();
    assert forall|k: int| 0 <= k < rest.len() && stack.len() > 0 implies targets_of(
        edges,
        stack.last(),
    ).contains(#[trigger] rest[k]) by {
        assert(rest[k] == targets[k + 1]);
    }
    if !nodes.contains(targets[0]) {
        lemma_visited_all_cycle(nodes, edges, rest, stack, out);
    } else {
        let w = stack.push(targets[0]);
        assert forall|i: int| 0 < i < w.len() implies depends(
            nodes,
            edges,
            w[i - 1],
            #[trigger] w[i],
        ) by {
            if i < stack.len() {
                assert(w[i] == stack[i] && w[i - 1] == stack[i - 1]);
            } else {
                assert(w[i] == targets[0] && w[i - 1] == stack.last());
            }
        }
        match visited(nodes, edges, targets[0], stack, out) {
            Ok(o) => {
                lemma_visited_all_cycle(nodes, edges, rest, stack, o);
            },
            Err(_) => {
                lemma_visited_cycle(nodes, edges, targets[0], stack, out);
            },
        }
    }
}

/// Sorting either lists exactly the nodes with every dependency before what
/// depends on it, or names a cycle that is really there.
pub proof fn topo_order_is_sound(nodes: Seq<Seq<char>>, edges: Seq<EdgeView>)
    ensures
        match topo_order(nodes, edges) {
            Ok(s) => is_dependency_order(nodes, edges, s),
            Err(p) => is_cycle(nodes, edges, p),
        },
{
    let empty: Seq<Seq<char>> = Seq::empty();
    match topo_order(nodes, edges) {
        Ok(s) => {
            lemma_visited_all_sound(nodes, edges, nodes, empty, empty);
            assert forall|x: Seq<char>| s.to_set().contains(x) == nodes.to_set().contains(x) by {
                if nodes.contains(x) {
                    let k = choose|k: int| 0 <= k < nodes.len() && nodes[k] == x;
                    assert(nodes.contains(nodes[k]));
                    assert(s.contains(nodes[k]));
                }
            }
            assert(s.to_set() =~= nodes.to_set());
        },
        Err(_) => {
            lemma_visited_all_cycle(nodes, edges, nodes, empty, empty);
        },
    }
}

/// The cycle that is named is no longer than it has to be: no block occurs
/// twice in it but for the one that closes it.
pub proof fn reported_cycle_repeats_no_block(nodes: Seq<Seq<char>>, edges: Seq<EdgeView>)
    ensures
        topo_order(nodes, edges) matches Err(p) ==> is_cycle(nodes, edges, p)
            && p.drop_last().no_duplicates(),
{
    let empty: Seq<Seq<char>> = Seq::empty();
    if topo_order(nodes, edges) is Err {
        lemma_visited_all_cycle(nodes, edges, nodes, empty, empty);
    }
}

/// Nodes that have a dependency order have no cycle, so a cycle is reported
/// exactly when there is one.
pub proof fn dependency_order_excludes_cycles(
    nodes: Seq<Seq<char>>,
    edges: Seq<EdgeView>,
    s: Seq<Seq<char>>,
    p: Seq<Seq<char>>,
)
    requires
        is_dependency_order(nodes, edges, s),
    ensures
        !is_cycle(nodes, edges, p),
{
    if is_cycle(nodes, edges, p) {
        assert(depends(nodes, edges, p[p.len() - 2], p[p.len() - 1]));
        assert(nodes.contains(p.last()));
        assert(nodes.to_set().contains(p[0]));
        assert(s.to_set().contains(p[0]));
        assert(s.contains(p[0]));
        let i = choose|i: int| 0 <= i < s.len() && s[i] == p[0];
        lemma_walk_descends(nodes, edges, s, p, p.len() - 1, i);
    }
}

/// A walk that starts at position `i` of a dependency order goes down.
proof fn lemma_walk_descends(
    nodes: Seq<Seq<char>>,
    edges: Seq<EdgeView>,
    s: Seq<Seq<char>>,
    p: Seq<Seq<char>>,
    k: int,
    i: int,
)
    requires
        is_dependency_order(nodes, edges, s),
        is_walk(nodes, edges, p),
        0 < k < p.len(),
        0 <= i < s.len(),
        s[i] == p[0],
    ensures
        s.take(i).contains(p[k]),
        p[k] != p[0],
    decreases k,
{
    let j = if k == 1 {
        i
    } else {
        lemma_walk_descends(nodes, edges, s, p, k - 1, i);
        choose|j: int| 0 <= j < s.take(i).len() && s.take(i)[j] == p[k - 1]
    };
    assert(s[j] == p[k - 1]);
    assert(depends(nodes, edges, p[k - 1], p[k]));
    assert(depends(nodes, edges, s[j], p[k]));
    assert(s.take(j).contains(p[k]));
    let m = choose|m: int| 0 <= m < s.take(j).len() && s.take(j)[m] == p[k];
    assert(s.take(i)[m] == p[k]);
    assert(s[m] == p[k] && m < i);
}

/// Nodes that are given with every dependency before what depends on it are
/// left as they are.
pub proof fn ordered_nodes_keep_order(nodes: Seq<Seq<char>>, edges: Seq<EdgeView>)
    requires
        is_dependency_order(nodes, edges, nodes),
    ensures
        topo_order(nodes, edges) == Ok::<Seq<Seq<char>>, Seq<Seq<char>>>(nodes),
{
    let empty: Seq<Seq<char>> = Seq::empty();
    assert(nodes.skip(0) =~= nodes);
    assert(nodes.take(0) =~= empty);
    lemma_ordered_from(nodes, edges, 0);
}

/// Nodes that do not depend on each other keep the order they are given in.
pub proof fn independent_nodes_keep_order(nodes: Seq<Seq<char>>, edges: Seq<EdgeView>)
    requires
        nodes.no_duplicates(),
        forall|a: Seq<char>, b: Seq<char>| nodes.contains(a) ==> !#[trigger] depends(nodes, edges, a, b),
    ensures
        topo_order(nodes, edges) == Ok::<Seq<Seq<char>>, Seq<Seq<char>>>(nodes),
{
    assert forall|i: int, t: Seq<char>|
        #![trigger nodes[i], depends(nodes, edges, nodes[i], t)]
        0 <= i < nodes.len() && depends(nodes, edges, nodes[i], t) implies nodes.take(i).contains(
        t,
    ) by {
        assert(nodes.contains(nodes[i]));
    }
    ordered_nodes_keep_order(nodes, edges);
}

proof fn lemma_ordered_from(nodes: Seq<Seq<char>>, edges: Seq<EdgeView>, k: int)
    requires
        is_dependency_order(nodes, edges, nodes),
        0 <= k <= nodes.len(),
    ensures
        visited_all(nodes, edges, nodes.skip(k), Seq::empty(), nodes.take(k)) == Ok::<
            Seq<Seq<char>>,
            Seq<Seq<char>>,
        >(nodes),
    decreases nodes.len() - k,
{
    let empty: Seq<Seq<char>> = Seq::empty();
    if k == nodes.len() {
        assert(nodes.take(k) =~= nodes);
    } else {
        let x = nodes[k];
        assert(nodes.contains(x));
        assert(nodes.skip(k)[0] == x);
        assert(nodes.skip(k).drop_first() =~= nodes.skip(k + 1));
        assert(nodes.take(k + 1) =~= nodes.take(k).push(x));
        assert(!nodes.take(k).contains(x));
        assert forall|i: int| 0 <= i < targets_of(edges, x).len() implies !nodes.contains(
            #[trigger] targets_of(edges, x)[i],
        ) || nodes.take(k).contains(targets_of(edges, x)[i]) && !empty.push(x).contains(
            targets_of(edges, x)[i],
        ) by {
            let t = targets_of(edges, x)[i];
            if nodes.contains(t) {
                assert(depends(nodes, edges, nodes[k], t));
            }
        }
        lemma_known_targets(nodes, edges, targets_of(edges, x), empty.push(x), nodes.take(k));
        assert(visited(nodes, edges, x, empty, nodes.take(k)) == Ok::<
            Seq<Seq<char>>,
            Seq<Seq<char>>,
        >(nodes.take(k).push(x)));
        lemma_ordered_from(nodes, edges, k + 1);
    }
}

proof fn lemma_known_targets(
    nodes: Seq<Seq<char>>,
    edges: Seq<EdgeView>,
    targets: Seq<Seq<char>>,
    stack: Seq<Seq<char>>,
    out: Seq<Seq<char>>,
)
    requires
        forall|i: int|
            0 <= i < targets.len() ==> !nodes.contains(#[trigger] targets[i]) || out.contains(
                targets[i],
            ) && !stack.contains(targets[i]),
    ensures
        visited_all(nodes, edges, targets, stack, out) == Ok::<Seq<Seq<char>>, Seq<Seq<char>>>(
            out,
        ),
    decreases targets.len(),
{
    if targets.len() > 0 {
        let rest = targets.drop_first();
        assert forall|i: int| 0 <= i < rest.len() implies !nodes.contains(#[trigger] rest[i])
            || out.contains(rest[i]) && !stack.contains(rest[i]) by {
            assert(rest[i] == targets[i + 1]);
        }
        lemma_known_targets(nodes, edges, rest, stack, out);
        let first = targets[0];
        if nodes.contains(first) {
            assert(visited(nodes, edges, first, stack, out) == Ok::<
                Seq<Seq<char>>,
                Seq<Seq<char>>,
            >(out));
        }
    }
}

/// Sorts the nodes so that targets stand before their referrers. Targets that
/// are not nodes do not count. Ties are broken by the order in which nodes
/// and targets are given.
pub fn topo_sort(nodes: &Vec<String>, edges: &Vec<Edge>) -> (r: Result<Vec<String>, Cycle>)
    ensures
        match r {
            Ok(v) => topo_order(strs(nodes@), views(edges@)) == Ok::<
                Seq<Seq<char>>,
                Seq<Seq<char>>,
            >(strs(v@)) && is_dependency_order(strs(nodes@), views(edges@), strs(v@)),
            Err(c) => topo_order(strs(nodes@), views(edges@)) == Err::<
                Seq<Seq<char>>,
                Seq<Seq<char>>,
            >(strs(c.path@)) && is_cycle(strs(nodes@), views(edges@), strs(c.path@)),
        },
{
    let mut stack: Vec<String> = Vec::new();
    let mut out: Vec<String> = Vec::new();
    proof {
        assert(strs(stack@) =~= Seq::empty());
        assert(strs(out@) =~= Seq::empty());
        topo_order_is_sound(strs(nodes@), views(edges@));
    }
    match visit_all(nodes, nodes, edges, &mut stack, &mut out) {
        Ok(_) => Ok(out),
        Err(c) => Err(c),
    }
}

fn visit(
    node: &String,
    nodes: &Vec<String>,
    edges: &Vec<Edge>,
    stack: &mut Vec<String>,
    out: &mut Vec<String>,
) -> (r: Result<(), Cycle>)
    requires
        strs(nodes@).contains(node@),
    ensures
        match r {
            Ok(_) => visited(
                strs(nodes@),
                views(edges@),
                node@,
                strs(old(stack)@),
                strs(old(out)@),
            ) == Ok::<Seq<Seq<char>>, Seq<Seq<char>>>(strs(final(out)@)) && strs(final(stack)@)
                == strs(old(stack)@),
            Err(c) => visited(
                strs(nodes@),
                views(edges@),
                node@,
                strs(old(stack)@),
                strs(old(out)@),
            ) == Err::<Seq<Seq<char>>, Seq<Seq<char>>>(strs(c.path@)),
        },
    decreases off_stack(strs(nodes@), strs(old(stack)@)), 0nat,
{
    let ghost stack0 = strs(stack@);
    let ghost out0 = strs(out@);
    if contains_str(stack, node.as_str()) {
        return Err(Cycle { path: closing_path(stack, node) });
    }
    if contains_str(out, node.as_str()) {
        return Ok(());
    }
    stack.push(node.clone());
    proof {
        assert(strs(stack@) =~= stack0.push(node@));
        lemma_off_stack_decreases(strs(nodes@), stack0, node@);
    }
    match find_last_named(edges, node.as_str()) {
        Some(i) => {
            assert(strs(edges@[i as int].targets@) == targets_of(views(edges@), node@));
            match visit_all(&edges[i].targets, nodes, edges, stack, out) {
                Ok(_) => {},
                Err(c) => {
                    return Err(c);
                },
            }
        },
        None => {
            assert(targets_of(views(edges@), node@) =~= Seq::empty());
        },
    }
    let ghost deeper = stack@;
    let ghost mid = out@;
    let _ = stack.pop();
    out.push(node.clone());
    proof {
        assert(strs(deeper) == stack0.push(node@));
        assert(strs(stack@) =~= strs(deeper).drop_last());
        assert(strs(stack@) =~= stack0);
        assert(strs(out@) =~= strs(mid).push(node@));
    }
    Ok(())
}

/// The part of the stack from the first occurrence of the node on, closed by
/// the node.
fn closing_path(stack: &Vec<String>, node: &String) -> (r: Vec<String>)
    requires
        strs(stack@).contains(node@),
    ensures
        strs(r@) == strs(stack@).skip(strs(stack@).index_of_first(node@)->0).push(node@),
{
    let ghost s = strs(stack@);
    let n: usize = stack.len();
    let mut k: usize = 0;
    proof {
        s.index_of_first_ensures(node@);
    }
    while !str_eq(stack[k].as_str(), node.as_str())
        invariant
            k < n,
            n == stack@.len(),
            s == strs(stack@),
            s.contains(node@),
            forall|j: int| 0 <= j < k ==> s[j] != node@,
        decreases stack@.len() - k,
    {
        assert(s[k as int] != node@);
        assert(k + 1 < s.len());
        k = k + 1;
    }
    assert(s[k as int] == node@);
    let mut path: Vec<String> = Vec::new();
    let mut i: usize = k;
    while i < stack.len()
        invariant
            k <= i <= stack@.len(),
            s == strs(stack@),
            path@.len() == i - k,
            forall|j: int| 0 <= j < path@.len() ==> (#[trigger] path@[j])@ == s[k + j],
        decreases stack@.len() - i,
    {
        path.push(stack[i].clone());
        i = i + 1;
    }
    path.push(node.clone());
    assert(strs(path@) =~= s.skip(k as int).push(node@));
    path
}

fn visit_all(
    targets: &Vec<String>,
    nodes: &Vec<String>,
    edges: &Vec<Edge>,
    stack: &mut Vec<String>,
    out: &mut Vec<String>,
) -> (r: Result<(), Cycle>)
    ensures
        match r {
            Ok(_) => visited_all(
                strs(nodes@),
                views(edges@),
                strs(targets@),
                strs(old(stack)@),
                strs(old(out)@),
            ) == Ok::<Seq<Seq<char>>, Seq<Seq<char>>>(strs(final(out)@)) && strs(final(stack)@)
                == strs(old(stack)@),
            Err(c) => visited_all(
                strs(nodes@),
                views(edges@),
                strs(targets@),
                strs(old(stack)@),
                strs(old(out)@),
            ) == Err::<Seq<Seq<char>>, Seq<Seq<char>>>(strs(c.path@)),
        },
    decreases off_stack(strs(nodes@), strs(old(stack)@)), strs(targets@).len() + 1,
{
    let ghost n = strs(nodes@);
    let ghost e = views(edges@);
    let ghost t = strs(targets@);
    let ghost stack0 = strs(stack@);
    let ghost out0 = strs(out@);
    let mut i: usize = 0;
    assert(t.skip(0) =~= t);
    while i < targets.len()
        invariant
            i <= targets@.len(),
            n == strs(nodes@),
            e == views(edges@),
            t == strs(targets@),
            strs(stack@) == stack0,
            stack0 == strs(old(stack)@),
            visited_all(n, e, t, stack0, out0) == visited_all(
                n,
                e,
                t.skip(i as int),
                stack0,
                strs(out@),
            ),
            out0 == strs(old(out)@),
        decreases targets@.len() - i,
    {
        proof {
            assert(t.skip(i as int)[0] == targets@[i as int]@);
            assert(t.skip(i as int).drop_first() =~= t.skip(i + 1));
        }
        if contains_str(nodes, targets[i].as_str()) {
            match visit(&targets[i], nodes, edges, stack, out) {
                Ok(_) => {},
                Err(c) => {
                    return Err(c);
                },
            }
        }
        i = i + 1;
    }
    Ok(())
}

impl Named for ResourceDiff {
    open spec fn name_of(v: ResourceDiffView) -> Seq<char> {
        v.name()
    }

    fn name_ref(&self) -> (r: &String) {
        match self {
            ResourceDiff::CatalogSchema(d) => &d.name,
            ResourceDiff::ContentBlock(d) => &d.name,
            ResourceDiff::EmailTemplate(d) => &d.name,
            ResourceDiff::CustomAttribute(d) => &d.name,
            ResourceDiff::Tag(d) => &d.name,
        }
    }
}

/// The diff creates or updates a content block.
pub open spec fn writes_block(d: ResourceDiffView) -> bool {
    d matches ResourceDiffView::ContentBlock(c) && !c.orphan && (c.op is Added || c.op is Modified)
}

/// The body the diff writes.
pub open spec fn written_body(d: ResourceDiffView) -> Seq<char> {
    match d {
        ResourceDiffView::ContentBlock(c) => match c.op {
            DiffOp::Added(b) => b.content,
            DiffOp::Modified { to, .. } => to.content,
            _ => Seq::empty(),
        },
        _ => Seq::empty(),
    }
}

/// The diff is of a content block that is not written.
pub open spec fn idle_block(d: ResourceDiffView) -> bool {
    d is ContentBlock && !writes_block(d)
}

/// The references of a block to other blocks, each once, in ascending order.
/// A reference of a block to itself is no matter of order.
pub open spec fn other_targets(name: Seq<char>, refs: Seq<Seq<char>>) -> Seq<Seq<char>> {
    ordered(refs.to_set().remove(name))
}

/// The references between blocks, given what each diff's body refers to. A
/// block without references has no entry.
pub open spec fn reference_edges(
    diffs: Seq<ResourceDiffView>,
    refs: Seq<Seq<Seq<char>>>,
) -> Seq<EdgeView>
    decreases diffs.len(),
{
    if diffs.len() == 0 {
        Seq::empty()
    } else {
        let before = reference_edges(diffs.drop_last(), refs.drop_last());
        let d = diffs.last();
        let targets = other_targets(d.name(), refs.last());
        if writes_block(d) && targets.len() > 0 {
            before.push(EdgeView { referrer: d.name(), targets })
        } else {
            before
        }
    }
}

/// The diffs that write content blocks.
pub open spec fn block_writes(diffs: Seq<ResourceDiffView>) -> Seq<ResourceDiffView> {
    diffs.filter(|d: ResourceDiffView| writes_block(d))
}

/// Diffs of other kinds first, in the order they are given; then the diffs
/// that write content blocks, in dependency order; then the content blocks
/// that are not written, in the order they are given. Where two writes share
/// a name the last one counts. With a cycle among the written blocks there is
/// no order.
pub open spec fn reordered(
    diffs: Seq<ResourceDiffView>,
    refs: Seq<Seq<Seq<char>>>,
) -> Result<Seq<ResourceDiffView>, Seq<Seq<char>>> {
    let writes = block_writes(diffs);
    match topo_order(names_of::<ResourceDiff>(writes), reference_edges(diffs, refs)) {
        Err(p) => Err(p),
        Ok(names) => Ok(
            diffs.filter(|d: ResourceDiffView| d !is ContentBlock) + names.map_values(
                |n: Seq<char>| last_named::<ResourceDiff>(writes, n)->0,
            ) + diffs.filter(|d: ResourceDiffView| idle_block(d)),
        ),
    }
}

/// The texts of lists of strings.
pub open spec fn lists(v: Seq<Vec<String>>) -> Seq<Seq<Seq<char>>> {
    v.map_values(|l: Vec<String>| strs(l@))
}

/// What each diff's body refers to.
pub open spec fn references_of(diffs: Seq<ResourceDiffView>) -> Seq<Seq<Seq<char>>> {
    diffs.map_values(
        |d: ResourceDiffView|
            if writes_block(d) {
                references(written_body(d))
            } else {
                Seq::empty()
            },
    )
}

/// The body a diff writes, where it writes a content block.
pub fn body_to_write(d: &ResourceDiff) -> (r: Option<&String>)
    ensures
        r is Some == writes_block(d@),
        r matches Some(b) ==> b@ == written_body(d@),
        d@ matches ResourceDiffView::ContentBlock(c) ==> match c.op {
            DiffOp::Added(local) => c.orphan || (r matches Some(b) && b@ == local.content),
            DiffOp::Modified { from, to } => c.orphan || (r matches Some(b) && b@ == to.content),
            _ => r is None,
        },
{
    match d {
        ResourceDiff::ContentBlock(c) => {
            if c.orphan {
                return None;
            }
            match &c.op {
                DiffOp::Added(b) => Some(&b.content),
                DiffOp::Modified { to, .. } => Some(&to.content),
                _ => None,
            }
        },
        _ => None,
    }
}

fn targets_other_than(name: &str, refs: &Vec<String>) -> (r: Vec<String>)
    ensures
        strs(r@) == other_targets(name@, strs(refs@)),
{
    let ghost s = strs(refs@);
    let mut out: Vec<String> = Vec::new();
    let mut i: usize = 0;
    assert(strs(out@) =~= Seq::empty());
    assert(strs(out@).to_set() =~= s.take(0).to_set().remove(name@));
    while i < refs.len()
        invariant
            i <= refs@.len(),
            s == strs(refs@),
            ascending(strs(out@)),
            strs(out@).to_set() == s.take(i as int).to_set().remove(name@),
        decreases refs@.len() - i,
    {
        proof {
            let t = s.take(i as int);
            assert(s.take(i + 1) =~= t.push(s[i as int]));
            crate::order::lemma_push_to_set(t, s[i as int]);
        }
        let ghost before = strs(out@).to_set();
        if !str_eq(refs[i].as_str(), name) {
            insert_name(&mut out, refs[i].as_str());
        }
        i = i + 1;
        assert(strs(out@).to_set() =~= s.take(i as int).to_set().remove(name@));
    }
    proof {
        assert(s.take(i as int) =~= s);
        crate::order::lemma_ordered_unique(strs(out@), s.to_set().remove(name@));
    }
    out
}

/// Taking out a value of another name leaves the last value of a name.
proof fn lemma_last_named_remove<T: Named>(s: Seq<T::V>, i: int, name: Seq<char>)
    requires
        0 <= i < s.len(),
        T::name_of(s[i]) != name,
    ensures
        last_named::<T>(s.remove(i), name) == last_named::<T>(s, name),
    decreases s.len(),
{
    let r = s.remove(i);
    if i == s.len() - 1 {
        assert(r =~= s.drop_last());
    } else {
        assert(r.last() == s.last());
        assert(r.drop_last() =~= s.drop_last().remove(i));
        lemma_last_named_remove::<T>(s.drop_last(), i, name);
    }
}

proof fn lemma_filter_step<A>(s: Seq<A>, f: spec_fn(A) -> bool, i: int)
    requires
        0 <= i < s.len(),
    ensures
        s.take(i + 1).filter(f) == if f(s[i]) {
            s.take(i).filter(f).push(s[i])
        } else {
            s.take(i).filter(f)
        },
{
    reveal(Seq::filter);
    assert(s.take(i + 1).drop_last() =~= s.take(i));
    assert(s.take(i + 1).last() == s[i]);
}

/// Orders the diffs for writing, given what each diff's body refers to.
pub fn reorder_by_references(diffs: Vec<ResourceDiff>, refs: &Vec<Vec<String>>) -> (r: Result<
    Vec<ResourceDiff>,
    Cycle,
>)
    requires
        refs@.len() == diffs@.len(),
    ensures
        match r {
            Ok(v) => reordered(views(diffs@), lists(refs@)) == Ok::<
                Seq<ResourceDiffView>,
                Seq<Seq<char>>,
            >(views(v@)),
            Err(c) => reordered(views(diffs@), lists(refs@)) == Err::<
                Seq<ResourceDiffView>,
                Seq<Seq<char>>,
            >(strs(c.path@)),
        },
{
    let ghost all = views(diffs@);
    let ghost rs = lists(refs@);
    let ghost is_other = |d: ResourceDiffView| d !is ContentBlock;
    let ghost is_write = |d: ResourceDiffView| writes_block(d);
    let ghost is_idle = |d: ResourceDiffView| idle_block(d);
    let mut others: Vec<ResourceDiff> = Vec::new();
    let mut writes: Vec<ResourceDiff> = Vec::new();
    let mut idle: Vec<ResourceDiff> = Vec::new();
    let mut names: Vec<String> = Vec::new();
    let mut edges: Vec<Edge> = Vec::new();
    let total: usize = refs.len();
    let mut i: usize = 0;
    proof {
        reveal(Seq::filter);
        assert(views(others@) =~= all.take(0).filter(is_other));
        assert(views(writes@) =~= all.take(0).filter(is_write));
        assert(views(idle@) =~= all.take(0).filter(is_idle));
        assert(strs(names@) =~= names_of::<ResourceDiff>(views(writes@)));
        assert(views(edges@) =~= reference_edges(all.take(0), rs.take(0)));
    }
    for d in it: diffs
        invariant
            i == it.index(),
            views(it.seq()) == all,
            rs == lists(refs@),
            refs@.len() == all.len(),
            total == all.len(),
            is_other == |d: ResourceDiffView| d !is ContentBlock,
            is_write == |d: ResourceDiffView| writes_block(d),
            is_idle == |d: ResourceDiffView| idle_block(d),
            views(others@) == all.take(i as int).filter(is_other),
            views(writes@) == all.take(i as int).filter(is_write),
            views(idle@) == all.take(i as int).filter(is_idle),
            strs(names@) == names_of::<ResourceDiff>(views(writes@)),
            views(edges@) == reference_edges(all.take(i as int), rs.take(i as int)),
    {
        let ghost others0 = others@;
        let ghost writes0 = writes@;
        let ghost idle0 = idle@;
        let ghost names0 = names@;
        let ghost edges0 = edges@;
        proof {
            assert(d@ == all[i as int]) by {
                assert(views(it.seq())[i as int] == it.seq()[i as int]@);
            }
            lemma_filter_step(all, is_other, i as int);
            lemma_filter_step(all, is_write, i as int);
            lemma_filter_step(all, is_idle, i as int);
            assert(all.take(i + 1).drop_last() =~= all.take(i as int));
            assert(rs.take(i + 1).drop_last() =~= rs.take(i as int));
            assert(all.take(i + 1).last() == all[i as int]);
            assert(rs.take(i + 1).last() == strs(refs@[i as int]@));
        }
        let is_block = matches!(d, ResourceDiff::ContentBlock(_));
        if !is_block {
            others.push(d);
            assert(views(others@) =~= views(others0).push(others@.last()@));
        } else if body_to_write(&d).is_some() {
            let name = d.name_ref().clone();
            let targets = targets_other_than(name.as_str(), &refs[i]);
            assert(strs(targets@).len() == targets@.len());
            if targets.len() > 0 {
                edges.push(Edge { referrer: name.clone(), targets });
                assert(views(edges@) =~= views(edges0).push(edges@.last()@));
            }
            names.push(name);
            writes.push(d);
            proof {
                assert(views(writes@) =~= views(writes0).push(writes@.last()@));
                assert(strs(names@) =~= strs(names0).push(names@.last()@));
                assert(names_of::<ResourceDiff>(views(writes@)) =~= names_of::<ResourceDiff>(
                    views(writes0),
                ).push(writes@.last()@.name()));
            }
        } else {
            idle.push(d);
            assert(views(idle@) =~= views(idle0).push(idle@.last()@));
        }
        i = i + 1;
    }
    let ghost ws = views(writes@);
    proof {
        assert(all.take(i as int) =~= all);
        assert(rs.take(i as int) =~= rs);
        assert(ws == block_writes(all));
    }
    let sorted = match topo_sort(&names, &edges) {
        Ok(v) => v,
        Err(c) => {
            return Err(c);
        },
    };
    let mut out = others;
    let ghost head = views(out@);
    let ghost order = strs(sorted@);
    let ghost pick = |n: Seq<char>| last_named::<ResourceDiff>(ws, n)->0;
    let mut k: usize = 0;
    assert(views(out@) =~= head + order.take(0).map_values(pick));
    while k < sorted.len()
        invariant
            k <= sorted@.len(),
            order == strs(sorted@),
            order.no_duplicates(),
            order.to_set() == names_of::<ResourceDiff>(ws).to_set(),
            pick == |n: Seq<char>| last_named::<ResourceDiff>(ws, n)->0,
            views(out@) == head + order.take(k as int).map_values(pick),
            forall|j: int|
                k <= j < order.len() ==> last_named::<ResourceDiff>(
                    views(writes@),
                    #[trigger] order[j],
                ) == last_named::<ResourceDiff>(ws, order[j]),
        decreases sorted@.len() - k,
    {
        let ghost n = order[k as int];
        proof {
            assert(order.contains(n));
            assert(order.to_set().contains(n));
            assert(names_of::<ResourceDiff>(ws).contains(n));
            crate::order::lemma_last_named_some::<ResourceDiff>(ws, n);
            crate::order::lemma_last_named_some::<ResourceDiff>(views(writes@), n);
        }
        let found = find_last_named(&writes, sorted[k].as_str());
        let at = found.unwrap();
        let ghost before = views(writes@);
        let ghost out0 = out@;
        let d = writes.remove(at);
        proof {
            assert(views(writes@) =~= before.remove(at as int));
            assert forall|j: int| k + 1 <= j < order.len() implies last_named::<ResourceDiff>(
                views(writes@),
                #[trigger] order[j],
            ) == last_named::<ResourceDiff>(ws, order[j]) by {
                assert(order[j] != n);
                lemma_last_named_remove::<ResourceDiff>(before, at as int, order[j]);
            }
        }
        out.push(d);
        k = k + 1;
        proof {
            assert(views(out@) =~= views(out0).push(d@));
            assert(order.take(k as int) =~= order.take(k - 1).push(n));
            assert(order.take(k as int).map_values(pick) =~= order.take(k - 1).map_values(
                pick,
            ).push(pick(n)));
            assert(views(out@) =~= head + order.take(k as int).map_values(pick));
        }
    }
    let ghost mid = views(out@);
    let ghost tail = views(idle@);
    let ghost out1 = out@;
    let ghost idle1 = idle@;
    out.append(&mut idle);
    proof {
        assert(order.take(k as int) =~= order);
        assert(out@ =~= out1 + idle1);
        assert(views(out@) =~= mid + tail);
        assert(order.map_values(pick) =~= order.map_values(
            |n: Seq<char>| last_named::<ResourceDiff>(block_writes(all), n)->0,
        ));
    }
    Ok(out)
}

/// Orders the diffs so that a content block is written after the blocks its
/// body refers to.
pub fn reorder_content_block_diffs_by_dependency(diffs: Vec<ResourceDiff>) -> (r: Result<
    Vec<ResourceDiff>,
    Cycle,
>)
    ensures
        match r {
            Ok(v) => reordered(views(diffs@), references_of(views(diffs@))) == Ok::<
                Seq<ResourceDiffView>,
                Seq<Seq<char>>,
            >(views(v@)),
            Err(c) => reordered(views(diffs@), references_of(views(diffs@))) == Err::<
                Seq<ResourceDiffView>,
                Seq<Seq<char>>,
            >(strs(c.path@)),
        },
{
    let mut refs: Vec<Vec<String>> = Vec::new();
    let mut i: usize = 0;
    while i < diffs.len()
        invariant
            i <= diffs@.len(),
            refs@.len() == i,
            forall|j: int|
                0 <= j < i ==> strs((#[trigger] refs@[j])@) == references_of(views(diffs@))[j],
        decreases diffs@.len() - i,
    {
        let r = match body_to_write(&diffs[i]) {
            Some(b) => extract_block_references(b.as_str()),
            None => {
                let none: Vec<String> = Vec::new();
                assert(strs(none@) =~= Seq::empty());
                none
            },
        };
        refs.push(r);
        i = i + 1;
    }
    assert(lists(refs@) =~= references_of(views(diffs@)));
    reorder_by_references(diffs, &refs)
}

/// No two of the diffs write a content block of the same name.
pub open spec fn distinct_writes(diffs: Seq<ResourceDiffView>) -> bool {
    forall|i: int, j: int|
        0 <= i < j < diffs.len() && writes_block(#[trigger] diffs[i]) && writes_block(
            #[trigger] diffs[j],
        ) ==> diffs[i].name() != diffs[j].name()
}

proof fn lemma_other_targets_contain(name: Seq<char>, refs: Seq<Seq<char>>, t: Seq<char>)
    requires
        refs.contains(t),
        t != name,
    ensures
        other_targets(name, refs).contains(t),
{
    let f = |x: Seq<char>| x != name;
    let kept = refs.filter(f);
    assert forall|x: Seq<char>| kept.to_set().contains(x) == refs.to_set().remove(name).contains(
        x,
    ) by {
        broadcast use vstd::seq_lib::group_filter_ensures;

        if kept.contains(x) {
            refs.lemma_filter_contains_rev(f, x);
            let k = choose|k: int| 0 <= k < kept.len() && kept[k] == x;
            assert(f(kept[k]));
        }
        if refs.contains(x) && x != name {
            let k = choose|k: int| 0 <= k < refs.len() && refs[k] == x;
            assert(f(refs[k]));
            assert(kept.contains(refs[k]));
        }
    }
    assert(kept.to_set() =~= refs.to_set().remove(name));
    crate::order::lemma_ordered_exists(kept);
    assert(other_targets(name, refs).to_set().contains(t));
}

/// Every entry of the references belongs to a diff that writes.
proof fn lemma_edges_belong(
    diffs: Seq<ResourceDiffView>,
    refs: Seq<Seq<Seq<char>>>,
    name: Seq<char>,
)
    requires
        refs.len() == diffs.len(),
        forall|j: int|
            0 <= j < diffs.len() && writes_block(#[trigger] diffs[j]) ==> diffs[j].name() != name,
    ensures
        last_named::<Edge>(reference_edges(diffs, refs), name) is None,
    decreases diffs.len(),
{
    if diffs.len() > 0 {
        let p = diffs.drop_last();
        assert forall|j: int| 0 <= j < p.len() && writes_block(
            #[trigger] p[j],
        ) implies p[j].name() != name by {
            assert(p[j] == diffs[j]);
        }
        lemma_edges_belong(p, refs.drop_last(), name);
        let e = reference_edges(diffs, refs);
        let before = reference_edges(p, refs.drop_last());
        assert(diffs[diffs.len() - 1] == diffs.last());
        if e != before {
            assert(e.drop_last() =~= before);
        }
    }
}

/// What a written block is known to refer to.
proof fn lemma_targets_of_write(
    diffs: Seq<ResourceDiffView>,
    refs: Seq<Seq<Seq<char>>>,
    i: int,
)
    requires
        refs.len() == diffs.len(),
        distinct_writes(diffs),
        0 <= i < diffs.len(),
        writes_block(diffs[i]),
    ensures
        targets_of(reference_edges(diffs, refs), diffs[i].name()) == other_targets(
            diffs[i].name(),
            refs[i],
        ),
    decreases diffs.len(),
{
    let p = diffs.drop_last();
    let before = reference_edges(p, refs.drop_last());
    let e = reference_edges(diffs, refs);
    let name = diffs[i].name();
    assert forall|a: int, b: int| 0 <= a < b < p.len() && writes_block(
        #[trigger] p[a],
    ) && writes_block(#[trigger] p[b]) implies p[a].name() != p[b].name() by {
        assert(p[a] == diffs[a] && p[b] == diffs[b]);
    }
    if e != before {
        assert(e.drop_last() =~= before);
    }
    if i == diffs.len() - 1 {
        assert forall|j: int| 0 <= j < p.len() && writes_block(
            #[trigger] p[j],
        ) implies p[j].name() != name by {
            assert(p[j] == diffs[j]);
        }
        lemma_edges_belong(p, refs.drop_last(), name);
        if other_targets(name, refs[i]).len() == 0 {
            assert(other_targets(name, refs[i]) =~= Seq::empty());
        }
    } else {
        lemma_targets_of_write(p, refs.drop_last(), i);
        assert(p[i] == diffs[i]);
        if writes_block(diffs.last()) {
            assert(diffs[diffs.len() - 1] == diffs.last());
        }
    }
}

/// Filtering keeps what passes.
proof fn lemma_write_is_kept(diffs: Seq<ResourceDiffView>, i: int)
    requires
        0 <= i < diffs.len(),
        writes_block(diffs[i]),
    ensures
        block_writes(diffs).contains(diffs[i]),
{
    broadcast use vstd::seq_lib::group_filter_ensures;

    let f = |d: ResourceDiffView| writes_block(d);
    assert(f(diffs[i]));
    assert(diffs.filter(f).contains(diffs[i]));
}

/// Distinct writes are distinct in name after filtering too.
proof fn lemma_writes_distinct(diffs: Seq<ResourceDiffView>)
    requires
        distinct_writes(diffs),
    ensures
        forall|a: int, b: int|
            0 <= a < b < block_writes(diffs).len() ==> (#[trigger] block_writes(diffs)[a]).name()
                != (#[trigger] block_writes(diffs)[b]).name(),
    decreases diffs.len(),
{
    reveal(Seq::filter);
    if diffs.len() > 0 {
        let p = diffs.drop_last();
        assert forall|a: int, b: int| 0 <= a < b < p.len() && writes_block(
            #[trigger] p[a],
        ) && writes_block(#[trigger] p[b]) implies p[a].name() != p[b].name() by {
            assert(p[a] == diffs[a] && p[b] == diffs[b]);
        }
        lemma_writes_distinct(p);
        let w = block_writes(diffs);
        let v = block_writes(p);
        let f = |d: ResourceDiffView| writes_block(d);
        assert forall|a: int, b: int| 0 <= a < b < w.len() implies (#[trigger] w[a]).name() != (
        #[trigger] w[b]).name() by {
            if w.len() == v.len() {
                assert(w[a] == v[a] && w[b] == v[b]);
            } else {
                assert(w =~= v.push(diffs.last()));
                if b < v.len() {
                    assert(w[a] == v[a] && w[b] == v[b]);
                } else {
                    broadcast use vstd::seq_lib::group_filter_ensures;

                    assert(w[a] == v[a]);
                    assert(v.contains(v[a]));
                    p.lemma_filter_contains_rev(f, v[a]);
                    let k = choose|k: int| 0 <= k < p.len() && p[k] == v[a];
                    assert(f(p.filter(f)[a]));
                    assert(diffs[k] == v[a]);
                    assert(diffs[diffs.len() - 1] == diffs.last());
                }
            }
        }
    }
}

/// With distinct names the last value of a name is the value.
proof fn lemma_last_named_distinct<T: Named>(s: Seq<T::V>, i: int)
    requires
        0 <= i < s.len(),
        forall|a: int, b: int|
            0 <= a < b < s.len() ==> T::name_of(#[trigger] s[a]) != T::name_of(#[trigger] s[b]),
    ensures
        last_named::<T>(s, T::name_of(s[i])) == Some(s[i]),
{
    crate::order::lemma_last_named_at::<T>(s, i);
}

/// Reordering puts the block that another written block refers to before its
/// referrer.
pub proof fn reorder_puts_targets_first(
    diffs: Seq<ResourceDiffView>,
    refs: Seq<Seq<Seq<char>>>,
    i: int,
    j: int,
)
    requires
        refs.len() == diffs.len(),
        distinct_writes(diffs),
        0 <= i < diffs.len(),
        0 <= j < diffs.len(),
        writes_block(diffs[i]),
        writes_block(diffs[j]),
        i != j,
        refs[i].contains(diffs[j].name()),
        reordered(diffs, refs) is Ok,
    ensures
        exists|p: int, q: int|
            0 <= p < q < reordered(diffs, refs)->Ok_0.len() && #[trigger] reordered(
                diffs,
                refs,
            )->Ok_0[p] == diffs[j] && #[trigger] reordered(diffs, refs)->Ok_0[q] == diffs[i],
{
    let writes = block_writes(diffs);
    let nodes = names_of::<ResourceDiff>(writes);
    let edges = reference_edges(diffs, refs);
    let names = topo_order(nodes, edges)->Ok_0;
    let out = reordered(diffs, refs)->Ok_0;
    let head = diffs.filter(|d: ResourceDiffView| d !is ContentBlock);
    let a = diffs[i].name();
    let b = diffs[j].name();
    topo_order_is_sound(nodes, edges);
    lemma_writes_distinct(diffs);
    lemma_write_is_kept(diffs, i);
    lemma_write_is_kept(diffs, j);
    let wi = choose|k: int| 0 <= k < writes.len() && writes[k] == diffs[i];
    let wj = choose|k: int| 0 <= k < writes.len() && writes[k] == diffs[j];
    assert(nodes[wi] == a);
    assert(nodes[wj] == b);
    lemma_last_named_distinct::<ResourceDiff>(writes, wi);
    lemma_last_named_distinct::<ResourceDiff>(writes, wj);
    if i < j {
        assert(a != b);
    } else {
        assert(b != a);
    }
    lemma_targets_of_write(diffs, refs, i);
    lemma_other_targets_contain(a, refs[i], b);
    assert(nodes.contains(b));
    assert(depends(nodes, edges, a, b));
    assert(nodes.to_set().contains(a));
    assert(names.to_set().contains(a));
    assert(names.contains(a));
    let y = choose|y: int| 0 <= y < names.len() && names[y] == a;
    assert(depends(nodes, edges, names[y], b));
    assert(names.take(y).contains(b));
    let x = choose|x: int| 0 <= x < names.take(y).len() && names.take(y)[x] == b;
    assert(names[x] == b);
    let p = head.len() + x;
    let q = head.len() + y;
    assert(out[p] == diffs[j]);
    assert(out[q] == diffs[i]);
}

/// Reordering neither drops nor adds a diff.
pub proof fn reorder_keeps_every_diff(
    diffs: Seq<ResourceDiffView>,
    refs: Seq<Seq<Seq<char>>>,
)
    requires
        refs.len() == diffs.len(),
        distinct_writes(diffs),
        reordered(diffs, refs) is Ok,
    ensures
        reordered(diffs, refs)->Ok_0.to_multiset() == diffs.to_multiset(),
{
    let writes = block_writes(diffs);
    let nodes = names_of::<ResourceDiff>(writes);
    let edges = reference_edges(diffs, refs);
    let names = topo_order(nodes, edges)->Ok_0;
    let pick = |n: Seq<char>| last_named::<ResourceDiff>(writes, n)->0;
    let picked = names.map_values(pick);
    let head = diffs.filter(|d: ResourceDiffView| d !is ContentBlock);
    let idle = diffs.filter(|d: ResourceDiffView| idle_block(d));
    topo_order_is_sound(nodes, edges);
    lemma_writes_distinct(diffs);
    assert(picked.no_duplicates()) by {
        assert forall|a: int, b: int| 0 <= a < picked.len() && 0 <= b < picked.len() && a
            != b implies picked[a] != picked[b] by {
            lemma_picked_name(writes, names, a);
            lemma_picked_name(writes, names, b);
            assert(names[a] != names[b]);
        }
    }
    assert(writes.no_duplicates()) by {
        assert forall|a: int, b: int| 0 <= a < writes.len() && 0 <= b < writes.len() && a
            != b implies writes[a] != writes[b] by {
            if a < b {
                assert(writes[a].name() != writes[b].name());
            } else {
                assert(writes[b].name() != writes[a].name());
            }
        }
    }
    assert forall|v: ResourceDiffView| picked.contains(v) == writes.contains(v) by {
        if picked.contains(v) {
            let a = choose|a: int| 0 <= a < picked.len() && picked[a] == v;
            lemma_picked_name(writes, names, a);
        }
        if writes.contains(v) {
            let k = choose|k: int| 0 <= k < writes.len() && writes[k] == v;
            lemma_last_named_distinct::<ResourceDiff>(writes, k);
            assert(nodes[k] == v.name());
            assert(nodes.contains(v.name()));
            assert(nodes.to_set().contains(v.name()));
            assert(names.to_set().contains(v.name()));
            let a = choose|a: int| 0 <= a < names.len() && names[a] == v.name();
            assert(picked[a] == v);
        }
    }
    lemma_same_members(picked, writes);
    vstd::seq_lib::lemma_multiset_commutative(head, picked);
    vstd::seq_lib::lemma_multiset_commutative(head + picked, idle);
    vstd::seq_lib::lemma_multiset_commutative(head, writes);
    vstd::seq_lib::lemma_multiset_commutative(head + writes, idle);
    lemma_three_parts(diffs);
}

proof fn lemma_picked_name(writes: Seq<ResourceDiffView>, names: Seq<Seq<char>>, a: int)
    requires
        0 <= a < names.len(),
        names.to_set() == names_of::<ResourceDiff>(writes).to_set(),
    ensures
        last_named::<ResourceDiff>(writes, names[a]) is Some,
        last_named::<ResourceDiff>(writes, names[a])->0.name() == names[a],
        writes.contains(last_named::<ResourceDiff>(writes, names[a])->0),
{
    assert(names.contains(names[a]));
    assert(names.to_set().contains(names[a]));
    crate::order::lemma_last_named_some::<ResourceDiff>(writes, names[a]);
}

proof fn lemma_same_members<A>(a: Seq<A>, b: Seq<A>)
    requires
        a.no_duplicates(),
        b.no_duplicates(),
        forall|v: A| a.contains(v) == b.contains(v),
    ensures
        a.to_multiset() == b.to_multiset(),
{
    broadcast use vstd::seq_lib::group_to_multiset_ensures;

    a.lemma_multiset_has_no_duplicates();
    b.lemma_multiset_has_no_duplicates();
    assert forall|v: A| a.to_multiset().count(v) == b.to_multiset().count(v) by {
        assert(a.contains(v) == b.contains(v));
        assert(a.contains(v) <==> a.to_multiset().count(v) > 0);
        assert(b.contains(v) <==> b.to_multiset().count(v) > 0);
        if a.contains(v) {
            assert(a.to_multiset().contains(v));
            assert(b.to_multiset().contains(v));
        }
    }
    assert(a.to_multiset() =~= b.to_multiset());
}

/// Every diff is of another kind, a write or an idle block.
proof fn lemma_three_parts(diffs: Seq<ResourceDiffView>)
    ensures
        (diffs.filter(|d: ResourceDiffView| d !is ContentBlock) + block_writes(diffs)
            + diffs.filter(|d: ResourceDiffView| idle_block(d))).to_multiset()
            == diffs.to_multiset(),
    decreases diffs.len(),
{
    reveal(Seq::filter);
    let f = |d: ResourceDiffView| d !is ContentBlock;
    let g = |d: ResourceDiffView| idle_block(d);
    let a = diffs.filter(f);
    let b = block_writes(diffs);
    let c = diffs.filter(g);
    vstd::seq_lib::lemma_multiset_commutative(a, b);
    vstd::seq_lib::lemma_multiset_commutative(a + b, c);
    if diffs.len() > 0 {
        let p = diffs.drop_last();
        let x = diffs.last();
        lemma_three_parts(p);
        let a0 = p.filter(f);
        let b0 = block_writes(p);
        let c0 = p.filter(g);
        vstd::seq_lib::lemma_multiset_commutative(a0, b0);
        vstd::seq_lib::lemma_multiset_commutative(a0 + b0, c0);
        vstd::seq_lib::to_multiset_build(a0, x);
        vstd::seq_lib::to_multiset_build(b0, x);
        vstd::seq_lib::to_multiset_build(c0, x);
        assert(diffs =~= p.push(x));
        vstd::seq_lib::to_multiset_build(p, x);
        assert((a + b + c).to_multiset() =~= diffs.to_multiset());
    } else {
        assert(a + b + c =~= diffs);
    }
}

/// A block is written after the blocks that its new body includes: where the
/// content that a diff sends refers to another block that is sent, the other
/// one stands earlier in the order.
pub proof fn included_blocks_are_written_first(
    diffs: Seq<ResourceDiffView>,
    out: Seq<ResourceDiffView>,
    i: int,
    j: int,
)
    requires
        reordered(diffs, references_of(diffs)) == Ok::<Seq<ResourceDiffView>, Seq<Seq<char>>>(out),
        forall|a: int, b: int|
            0 <= a < b < diffs.len() && (#[trigger] diffs[a]) is ContentBlock && (
            #[trigger] diffs[b]) is ContentBlock ==> diffs[a]->ContentBlock_0.name
                != diffs[b]->ContentBlock_0.name,
        0 <= i < diffs.len(),
        0 <= j < diffs.len(),
        i != j,
        diffs[j] matches ResourceDiffView::ContentBlock(t) && !t.orphan && (t.op is Added
            || t.op is Modified),
        diffs[i] matches ResourceDiffView::ContentBlock(c) && !c.orphan && match c.op {
            DiffOp::Added(local) => references(local.content).contains(
                diffs[j]->ContentBlock_0.name,
            ),
            DiffOp::Modified { from, to } => references(to.content).contains(
                diffs[j]->ContentBlock_0.name,
            ),
            _ => false,
        },
    ensures
        exists|p: int, q: int|
            0 <= p < q < out.len() && #[trigger] out[p] == diffs[j] && #[trigger] out[q]
                == diffs[i],
{
    assert(distinct_writes(diffs)) by {
        assert forall|a: int, b: int|
            0 <= a < b < diffs.len() && writes_block(#[trigger] diffs[a]) && writes_block(
                #[trigger] diffs[b],
            ) implies diffs[a].name() != diffs[b].name() by {}
    }
    assert(references_of(diffs)[i] == references(written_body(diffs[i])));
    reorder_puts_targets_first(diffs, references_of(diffs), i, j);
}

/// An entry of the references comes from a diff that writes.
proof fn lemma_target_is_reference(
    diffs: Seq<ResourceDiffView>,
    refs: Seq<Seq<Seq<char>>>,
    name: Seq<char>,
    t: Seq<char>,
) -> (i: int)
    requires
        refs.len() == diffs.len(),
        targets_of(reference_edges(diffs, refs), name).contains(t),
    ensures
        0 <= i < diffs.len(),
        writes_block(diffs[i]),
        diffs[i].name() == name,
        refs[i].contains(t),
        t != name,
    decreases diffs.len(),
{
    let e = reference_edges(diffs, refs);
    if diffs.len() == 0 {
        assert(last_named::<Edge>(e, name) is None);
        assert(Seq::<Seq<char>>::empty().contains(t));
        0
    } else {
        let n = diffs.len() - 1;
        let d = diffs.last();
        let before = reference_edges(diffs.drop_last(), refs.drop_last());
        let targets = other_targets(d.name(), refs.last());
        if writes_block(d) && targets.len() > 0 && d.name() == name {
            assert(e.last().targets == targets);
            let left = refs.last().to_set().remove(name);
            let kept = refs.last().filter(|x: Seq<char>| x != name);
            assert(kept.to_set() =~= left) by {
                broadcast use vstd::seq_lib::group_filter_ensures;

                assert forall|x: Seq<char>| kept.to_set().contains(x) == left.contains(x) by {
                    if kept.contains(x) {
                        refs.last().lemma_filter_contains_rev(|x: Seq<char>| x != name, x);
                        let k = choose|k: int| 0 <= k < kept.len() && kept[k] == x;
                        assert((|x: Seq<char>| x != name)(kept[k]));
                    }
                    if refs.last().contains(x) && x != name {
                        let k = choose|k: int|
                            0 <= k < refs.last().len() && refs.last()[k] == x;
                        assert((|x: Seq<char>| x != name)(refs.last()[k]));
                        assert(kept.contains(refs.last()[k]));
                    }
                }
            }
            crate::order::lemma_ordered_exists(kept);
            assert(targets.to_set().contains(t));
            assert(left.contains(t));
            n
        } else {
            if e != before {
                assert(e.drop_last() =~= before);
            }
            let i = lemma_target_is_reference(diffs.drop_last(), refs.drop_last(), name, t);
            i
        }
    }
}

/// A refused order names blocks that really go in a circle: each of them is
/// sent with a body that refers to the next, and the last is the first.
pub proof fn refused_order_is_a_cycle_of_includes(
    diffs: Seq<ResourceDiffView>,
    path: Seq<Seq<char>>,
    k: int,
) -> (i: int)
    requires
        reordered(diffs, references_of(diffs)) == Err::<Seq<ResourceDiffView>, Seq<Seq<char>>>(
            path,
        ),
        0 <= k < path.len() - 1,
    ensures
        path.len() >= 2,
        path.first() == path.last(),
        0 <= i < diffs.len(),
        diffs[i] matches ResourceDiffView::ContentBlock(c) && c.name == path[k] && !c.orphan
            && match c.op {
            DiffOp::Added(local) => references(local.content).contains(path[k + 1]),
            DiffOp::Modified { from, to } => references(to.content).contains(path[k + 1]),
            _ => false,
        },
{
    let refs = references_of(diffs);
    let nodes = names_of::<ResourceDiff>(block_writes(diffs));
    let edges = reference_edges(diffs, refs);
    topo_order_is_sound(nodes, edges);
    assert(is_cycle(nodes, edges, path));
    assert(depends(nodes, edges, path[k + 1 - 1], path[k + 1]));
    let i = lemma_target_is_reference(diffs, refs, path[k], path[k + 1]);
    assert(refs[i] == references(written_body(diffs[i])));
    i
}

/// One step of a circle of blocks is a dependency.
proof fn lemma_include_is_dependency(diffs: Seq<ResourceDiffView>, i: int, j: int)
    requires
        distinct_writes(diffs),
        0 <= i < diffs.len(),
        0 <= j < diffs.len(),
        i != j,
        writes_block(diffs[i]),
        writes_block(diffs[j]),
        references(written_body(diffs[i])).contains(diffs[j].name()),
    ensures
        depends(
            names_of::<ResourceDiff>(block_writes(diffs)),
            reference_edges(diffs, references_of(diffs)),
            diffs[i].name(),
            diffs[j].name(),
        ),
{
    let refs = references_of(diffs);
    let nodes = names_of::<ResourceDiff>(block_writes(diffs));
    assert(refs[i] == references(written_body(diffs[i])));
    lemma_targets_of_write(diffs, refs, i);
    if i < j {
        assert(diffs[i].name() != diffs[j].name());
    } else {
        assert(diffs[j].name() != diffs[i].name());
    }
    lemma_other_targets_contain(diffs[i].name(), refs[i], diffs[j].name());
    lemma_write_is_kept(diffs, j);
    let w = choose|w: int|
        0 <= w < block_writes(diffs).len() && block_writes(diffs)[w] == diffs[j];
    assert(nodes[w] == diffs[j].name());
}

/// Blocks that include each other in a circle have no order and are refused.
/// The circle is given by the places of its diffs.
pub proof fn cyclic_includes_are_refused(diffs: Seq<ResourceDiffView>, circle: Seq<int>)
    requires
        forall|a: int, b: int|
            0 <= a < b < diffs.len() && (#[trigger] diffs[a]) is ContentBlock && (
            #[trigger] diffs[b]) is ContentBlock ==> diffs[a]->ContentBlock_0.name
                != diffs[b]->ContentBlock_0.name,
        circle.len() >= 3,
        circle.first() == circle.last(),
        forall|k: int|
            0 <= k < circle.len() ==> 0 <= #[trigger] circle[k] < diffs.len() && (
            diffs[circle[k]] matches ResourceDiffView::ContentBlock(c) && !c.orphan && (
            c.op is Added || c.op is Modified)),
        forall|k: int, m: int|
            0 <= k && m == k + 1 && m < circle.len() ==> #[trigger] circle[k] != #[trigger] circle[m]
                && match diffs[circle[k]]->ContentBlock_0.op {
                DiffOp::Added(local) => references(local.content).contains(
                    diffs[circle[m]]->ContentBlock_0.name,
                ),
                DiffOp::Modified { from, to } => references(to.content).contains(
                    diffs[circle[m]]->ContentBlock_0.name,
                ),
                _ => false,
            },
    ensures
        reordered(diffs, references_of(diffs)) is Err,
{
    let nodes = names_of::<ResourceDiff>(block_writes(diffs));
    let edges = reference_edges(diffs, references_of(diffs));
    assert(distinct_writes(diffs)) by {
        assert forall|a: int, b: int|
            0 <= a < b < diffs.len() && writes_block(#[trigger] diffs[a]) && writes_block(
                #[trigger] diffs[b],
            ) implies diffs[a].name() != diffs[b].name() by {}
    }
    let path = circle.map_values(|i: int| diffs[i].name());
    assert(is_walk(nodes, edges, path)) by {
        assert forall|k: int| 0 < k < path.len() implies depends(
            nodes,
            edges,
            path[k - 1],
            #[trigger] path[k],
        ) by {
            let m = k - 1;
            assert(circle[m] != circle[k]);
            lemma_include_is_dependency(diffs, circle[m], circle[k]);
        }
    }
    assert(path.first() == path.last());
    topo_order_is_sound(nodes, edges);
    if let Ok(s) = topo_order(nodes, edges) {
        dependency_order_excludes_cycles(nodes, edges, s, path);
    }
}

/// Only what is sent moves: diffs of other kinds stay in front in the order
/// they were given in, and blocks that are in sync or orphaned go behind.
pub proof fn reorder_moves_only_what_is_sent(
    diffs: Seq<ResourceDiffView>,
    refs: Seq<Seq<Seq<char>>>,
    out: Seq<ResourceDiffView>,
) -> (sent: Seq<ResourceDiffView>)
    requires
        reordered(diffs, refs) == Ok::<Seq<ResourceDiffView>, Seq<Seq<char>>>(out),
    ensures
        out == diffs.filter(|d: ResourceDiffView| d !is ContentBlock) + sent + diffs.filter(
            |d: ResourceDiffView|
                d matches ResourceDiffView::ContentBlock(c) && (c.orphan || c.op is Unchanged
                    || c.op is Removed),
        ),
        forall|i: int|
            0 <= i < sent.len() ==> (#[trigger] sent[i] matches ResourceDiffView::ContentBlock(c)
                && !c.orphan && (c.op is Added || c.op is Modified)),
{
    let writes = block_writes(diffs);
    let nodes = names_of::<ResourceDiff>(writes);
    let names = topo_order(nodes, reference_edges(diffs, refs))->Ok_0;
    let sent = names.map_values(|n: Seq<char>| last_named::<ResourceDiff>(writes, n)->0);
    topo_order_is_sound(nodes, reference_edges(diffs, refs));
    let f = |d: ResourceDiffView| idle_block(d);
    let g = |d: ResourceDiffView|
        d matches ResourceDiffView::ContentBlock(c) && (c.orphan || c.op is Unchanged
            || c.op is Removed);
    assert(f =~= g);
    assert forall|i: int| 0 <= i < sent.len() implies (
    #[trigger] sent[i] matches ResourceDiffView::ContentBlock(c) && !c.orphan && (c.op is Added
        || c.op is Modified)) by {
        broadcast use vstd::seq_lib::group_filter_ensures;

        lemma_picked_name(writes, names, i);
        let w = choose|w: int| 0 <= w < writes.len() && writes[w] == sent[i];
        assert((|d: ResourceDiffView| writes_block(d))(writes[w]));
    }
    sent
}

} // verus!

//! Byte spans of the chunks of a syntax tree.
//!
//! A node that is small enough is one span. Containers, boundaries and oversized
//! nodes are opened: their children are grouped, and opened in turn where they are
//! too large. A large leaf remains whole.

use crate::language::{self, Syntax};
use crate::syntax::{self, SyntaxNode, SyntaxTree};
use crate::text;
use vstd::prelude::*;

verus! {

/// The size up to which ordinary syntax stays whole.
pub const TARGET_BYTES: usize = 6000;

/// The size up to which a declaration stays whole.
pub const MAX_DECLARATION_BYTES: usize = 24000;

/// The size up to which a node of this kind stays whole.
pub open spec fn limit(syntax: Syntax, kind: Seq<char>) -> usize {
    if language::declaration_kind(syntax, kind) {
        MAX_DECLARATION_BYTES
    } else {
        TARGET_BYTES
    }
}

/// A node that is one span, whatever its children.
pub open spec fn stays_whole(syntax: Syntax, tree: SyntaxTree) -> bool {
    &&& !language::container_kind(syntax, tree.kind)
    &&& !language::boundary_kind(syntax, tree.kind)
    &&& tree.end - tree.start <= limit(syntax, tree.kind)
}

/// A child that is opened instead of grouped with its siblings.
pub open spec fn is_opened(syntax: Syntax, child: SyntaxTree) -> bool {
    ||| child.end - child.start > limit(syntax, child.kind)
    ||| language::container_kind(syntax, child.kind) && child.kind != "source_file"@
    ||| language::boundary_kind(syntax, child.kind)
}

/// The state of a walk over the children of a node.
pub struct Walk {
    /// The finished spans.
    pub spans: Seq<(usize, usize)>,
    /// Where the open group starts.
    pub start: usize,
    /// Where the open group ends.
    pub end: usize,
    /// Where the prefixes in front of the next child start.
    pub prefix: Option<usize>,
}

/// Where a child starts, with its prefixes.
pub open spec fn lead(prefix: Option<usize>, child: SyntaxTree) -> usize {
    match prefix {
        Some(start) => start,
        None => child.start,
    }
}

/// The spans with the first one starting at `from`.
pub open spec fn first_from(spans: Seq<(usize, usize)>, from: usize) -> Seq<(usize, usize)> {
    if spans.len() == 0 {
        spans
    } else {
        spans.update(0, (from, spans[0].1))
    }
}

/// The span, if it holds anything.
pub open spec fn nonempty_span(start: usize, end: usize) -> Seq<(usize, usize)> {
    if end > start {
        seq![(start, end)]
    } else {
        seq![]
    }
}

/// One step of the walk: `inner` are the spans of the child.
pub open spec fn step(
    syntax: Syntax,
    parent: Seq<char>,
    walk: Walk,
    child: SyntaxTree,
    inner: Seq<(usize, usize)>,
) -> Walk {
    let container = language::container_kind(syntax, parent);
    let from = lead(walk.prefix, child);
    if container && language::prefix_kind(syntax, child.kind) {
        Walk { prefix: Some(from), ..walk }
    } else if is_opened(syntax, child) {
        let attach = language::attaches(syntax, parent, child.kind);
        let before = if attach {
            seq![]
        } else {
            nonempty_span(walk.start, from)
        };
        let first = if attach {
            walk.start
        } else {
            from
        };
        Walk {
            spans: walk.spans + before + first_from(inner, first),
            start: child.end,
            end: child.end,
            prefix: None,
        }
    } else if container || child.end - walk.start > TARGET_BYTES {
        Walk {
            spans: walk.spans + nonempty_span(walk.start, walk.end),
            start: from,
            end: child.end,
            prefix: None,
        }
    } else {
        Walk { end: child.end, prefix: None, ..walk }
    }
}

/// The state of the walk behind the first `n` children.
pub open spec fn walked(syntax: Syntax, tree: SyntaxTree, n: nat) -> Walk
    decreases tree, 0nat, n,
{
    if n == 0 || n > tree.children.len() {
        Walk { spans: seq![], start: tree.start, end: tree.start, prefix: None }
    } else {
        let child = tree.children[n - 1];
        step(
            syntax,
            tree.kind,
            walked(syntax, tree, (n - 1) as nat),
            child,
            spans(syntax, child),
        )
    }
}

/// The spans of a tree, in order.
pub open spec fn spans(syntax: Syntax, tree: SyntaxTree) -> Seq<(usize, usize)>
    decreases tree, 1nat, 0nat,
{
    if stays_whole(syntax, tree) || tree.children.len() == 0 {
        seq![(tree.start, tree.end)]
    } else {
        let last = walked(syntax, tree, tree.children.len());
        last.spans + nonempty_span(last.start, tree.end)
    }
}

// ---------------------------------------------------------------------------
// Order
// ---------------------------------------------------------------------------

/// The spans stand one behind the other between `low` and `high`.
pub open spec fn in_order(spans: Seq<(usize, usize)>, low: usize, high: usize) -> bool {
    &&& forall|i: int|
        0 <= i < spans.len() ==> low <= (#[trigger] spans[i]).0 <= spans[i].1 <= high
    &&& forall|i: int, j: int|
        0 <= i < j < spans.len() ==> (#[trigger] spans[i]).1 <= (#[trigger] spans[j]).0
}

/// The end of child `n - 1`, or the start of the node.
pub open spec fn reached(tree: SyntaxTree, n: nat) -> usize {
    if n == 0 {
        tree.start
    } else {
        tree.children[n - 1].end
    }
}

/// What holds of a walk behind the first `n` children.
pub open spec fn walk_in_order(tree: SyntaxTree, walk: Walk, n: nat) -> bool {
    &&& in_order(walk.spans, tree.start, walk.start)
    &&& tree.start <= walk.start <= walk.end <= reached(tree, n)
    &&& match walk.prefix {
        Some(start) => walk.end <= start <= reached(tree, n),
        None => true,
    }
}

proof fn lemma_reached_inside(tree: SyntaxTree, n: nat)
    requires
        syntax::nested(tree),
        n <= tree.children.len(),
    ensures
        tree.start <= reached(tree, n) <= tree.end,
        n < tree.children.len() ==> reached(tree, n) <= tree.children[n as int].start,
{
    if n > 0 {
        assert(syntax::nested(tree.children[n - 1]));
    }
}

proof fn lemma_join_order(
    a: Seq<(usize, usize)>,
    b: Seq<(usize, usize)>,
    low: usize,
    middle: usize,
    high: usize,
)
    requires
        in_order(a, low, middle),
        in_order(b, middle, high),
        low <= middle <= high,
    ensures
        in_order(a + b, low, high),
{
    let all = a + b;
    assert forall|i: int| 0 <= i < all.len() implies low <= (#[trigger] all[i]).0 <= all[i].1
        <= high by {
        if i < a.len() {
            assert(all[i] == a[i]);
        } else {
            assert(all[i] == b[i - a.len()]);
        }
    }
    assert forall|i: int, j: int| 0 <= i < j < all.len() implies (#[trigger] all[i]).1 <= (
    #[trigger] all[j]).0 by {
        if j < a.len() {
            assert(all[i] == a[i] && all[j] == a[j]);
        } else if i >= a.len() {
            assert(all[i] == b[i - a.len()] && all[j] == b[j - a.len()]);
        } else {
            assert(all[i] == a[i] && all[j] == b[j - a.len()]);
        }
    }
}

proof fn lemma_first_from_order(inner: Seq<(usize, usize)>, from: usize, low: usize, high: usize)
    requires
        in_order(inner, low, high),
        from <= low,
    ensures
        in_order(first_from(inner, from), from, high),
{
    let moved = first_from(inner, from);
    assert forall|i: int| 0 <= i < moved.len() implies from <= (#[trigger] moved[i]).0
        <= moved[i].1 <= high by {
        assert(low <= inner[i].0 <= inner[i].1 <= high);
    }
    assert forall|i: int, j: int| 0 <= i < j < moved.len() implies (#[trigger] moved[i]).1 <= (
    #[trigger] moved[j]).0 by {
        assert(inner[i].1 <= inner[j].0);
        assert(moved[j] == inner[j]);
    }
}

proof fn lemma_walk_in_order(syntax: Syntax, tree: SyntaxTree, n: nat)
    requires
        syntax::nested(tree),
        n <= tree.children.len(),
    ensures
        walk_in_order(tree, walked(syntax, tree, n), n),
    decreases tree, 0nat, n,
{
    if n > 0 {
        let k = (n - 1) as nat;
        lemma_walk_in_order(syntax, tree, k);
        lemma_reached_inside(tree, k);
        let child = tree.children[k as int];
        assert(syntax::nested(child));
        lemma_spans_in_order(syntax, child);
        let walk = walked(syntax, tree, k);
        let inner = spans(syntax, child);
        let next = walked(syntax, tree, n);
        let from = lead(walk.prefix, child);
        assert(walk.end <= from <= child.start);
        let container = language::container_kind(syntax, tree.kind);
        if container && language::prefix_kind(syntax, child.kind) {
        } else if is_opened(syntax, child) {
            let attach = language::attaches(syntax, tree.kind, child.kind);
            let first = if attach {
                walk.start
            } else {
                from
            };
            lemma_first_from_order(inner, first, child.start, child.end);
            let before = if attach {
                seq![]
            } else {
                nonempty_span(walk.start, from)
            };
            lemma_join_order(walk.spans, before, tree.start, walk.start, first);
            lemma_join_order(
                walk.spans + before,
                first_from(inner, first),
                tree.start,
                first,
                child.end,
            );
        } else if container || child.end - walk.start > TARGET_BYTES {
            lemma_join_order(
                walk.spans,
                nonempty_span(walk.start, walk.end),
                tree.start,
                walk.start,
                from,
            );
        }
    }
}

proof fn lemma_spans_in_order(syntax: Syntax, tree: SyntaxTree)
    requires
        syntax::nested(tree),
    ensures
        in_order(spans(syntax, tree), tree.start, tree.end),
    decreases tree, 1nat, 0nat,
{
    if !stays_whole(syntax, tree) && tree.children.len() > 0 {
        let n = tree.children.len();
        lemma_walk_in_order(syntax, tree, n);
        lemma_reached_inside(tree, n);
        let last = walked(syntax, tree, n);
        lemma_join_order(
            last.spans,
            nonempty_span(last.start, tree.end),
            tree.start,
            last.start,
            tree.end,
        );
    }
}

/// The spans of a tree lie inside it, one behind the other, and do not overlap.
pub proof fn law_spans_are_disjoint_and_in_order(syntax: Syntax, tree: SyntaxTree)
    requires
        syntax::nested(tree),
    ensures
        in_order(spans(syntax, tree), tree.start, tree.end),
{
    lemma_spans_in_order(syntax, tree);
}

// ---------------------------------------------------------------------------
// Coverage
// ---------------------------------------------------------------------------

/// The byte at `at` belongs to a node without children.
pub open spec fn leaf_byte(tree: SyntaxTree, at: int) -> bool
    decreases tree,
{
    if tree.children.len() == 0 {
        tree.start <= at < tree.end
    } else {
        exists|i: int|
            0 <= i < tree.children.len() && leaf_byte(#[trigger] tree.children[i], at)
    }
}

/// One of the spans holds the byte at `at`.
pub open spec fn covered(spans: Seq<(usize, usize)>, at: int) -> bool {
    exists|i: int| 0 <= i < spans.len() && (#[trigger] spans[i]).0 <= at < spans[i].1
}

/// No opened node of the tree comes out without a span. Only empty nodes could.
pub open spec fn opened_nodes_show(syntax: Syntax, tree: SyntaxTree) -> bool
    decreases tree,
{
    forall|i: int|
        0 <= i < tree.children.len() ==> {
            &&& is_opened(syntax, #[trigger] tree.children[i]) ==> spans(
                syntax,
                tree.children[i],
            ).len() > 0
            &&& opened_nodes_show(syntax, tree.children[i])
        }
}

proof fn lemma_leaf_byte_inside(tree: SyntaxTree, at: int)
    requires
        syntax::nested(tree),
        leaf_byte(tree, at),
    ensures
        tree.start <= at < tree.end,
    decreases tree,
{
    if tree.children.len() > 0 {
        let i = choose|i: int|
            0 <= i < tree.children.len() && leaf_byte(#[trigger] tree.children[i], at);
        assert(syntax::nested(tree.children[i]));
        lemma_leaf_byte_inside(tree.children[i], at);
    }
}

proof fn lemma_covered_left(a: Seq<(usize, usize)>, b: Seq<(usize, usize)>, at: int)
    requires
        covered(a, at),
    ensures
        covered(a + b, at),
{
    let i = choose|i: int| 0 <= i < a.len() && (#[trigger] a[i]).0 <= at < a[i].1;
    assert((a + b)[i] == a[i]);
}

proof fn lemma_covered_right(a: Seq<(usize, usize)>, b: Seq<(usize, usize)>, at: int)
    requires
        covered(b, at),
    ensures
        covered(a + b, at),
{
    let i = choose|i: int| 0 <= i < b.len() && (#[trigger] b[i]).0 <= at < b[i].1;
    assert((a + b)[a.len() + i] == b[i]);
}

proof fn lemma_covered_nonempty(start: usize, end: usize, at: int)
    requires
        start <= at < end,
    ensures
        covered(nonempty_span(start, end), at),
{
    assert(nonempty_span(start, end)[0] == (start, end));
}

proof fn lemma_covered_first_from(inner: Seq<(usize, usize)>, from: usize, low: usize, high: usize, at: int)
    requires
        in_order(inner, low, high),
        from <= low,
        covered(inner, at) || inner.len() > 0 && from <= at < low,
    ensures
        covered(first_from(inner, from), at),
{
    let moved = first_from(inner, from);
    if covered(inner, at) {
        let i = choose|i: int| 0 <= i < inner.len() && (#[trigger] inner[i]).0 <= at < inner[i].1;
        assert(low <= inner[i].0);
        assert(moved[i].0 <= at < moved[i].1);
    } else {
        assert(low <= inner[0].0 <= inner[0].1);
        assert(moved[0].0 <= at < moved[0].1);
    }
}

/// What a walk has seen of a byte behind the first `n` children.
spec fn seen(tree: SyntaxTree, walk: Walk, n: nat, at: int) -> bool {
    ||| covered(walk.spans, at)
    ||| walk.start <= at < walk.end
    ||| walk.prefix is Some && walk.prefix->0 <= at < reached(tree, n)
}

proof fn lemma_walk_covers(syntax: Syntax, tree: SyntaxTree, n: nat, i: int, at: int)
    requires
        syntax::nested(tree),
        opened_nodes_show(syntax, tree),
        0 <= i < n <= tree.children.len(),
        leaf_byte(tree.children[i], at),
    ensures
        seen(tree, walked(syntax, tree, n), n, at),
    decreases tree, 0nat, n,
{
    let k = (n - 1) as nat;
    let child = tree.children[k as int];
    assert(syntax::nested(child));
    lemma_walk_in_order(syntax, tree, k);
    lemma_reached_inside(tree, k);
    lemma_spans_in_order(syntax, child);
    let walk = walked(syntax, tree, k);
    let inner = spans(syntax, child);
    let next = walked(syntax, tree, n);
    let from = lead(walk.prefix, child);
    let container = language::container_kind(syntax, tree.kind);
    assert(opened_nodes_show(syntax, child));
    if i < k {
        lemma_walk_covers(syntax, tree, k, i, at);
    } else {
        lemma_leaf_byte_inside(child, at);
        lemma_spans_cover(syntax, child, at);
    }
    if container && language::prefix_kind(syntax, child.kind) {
    } else if is_opened(syntax, child) {
        let attach = language::attaches(syntax, tree.kind, child.kind);
        let first = if attach {
            walk.start
        } else {
            from
        };
        let before = if attach {
            seq![]
        } else {
            nonempty_span(walk.start, from)
        };
        let moved = first_from(inner, first);
        if covered(walk.spans, at) {
            lemma_covered_left(walk.spans, before, at);
            lemma_covered_left(walk.spans + before, moved, at);
        } else if !attach && walk.start <= at < from {
            lemma_covered_nonempty(walk.start, from, at);
            lemma_covered_right(walk.spans, before, at);
            lemma_covered_left(walk.spans + before, moved, at);
        } else {
            lemma_covered_first_from(inner, first, child.start, child.end, at);
            lemma_covered_right(walk.spans + before, moved, at);
        }
    } else if container || child.end - walk.start > TARGET_BYTES {
        let before = nonempty_span(walk.start, walk.end);
        if covered(walk.spans, at) {
            lemma_covered_left(walk.spans, before, at);
        } else if walk.start <= at < walk.end {
            lemma_covered_nonempty(walk.start, walk.end, at);
            lemma_covered_right(walk.spans, before, at);
        }
    }
}

proof fn lemma_spans_cover(syntax: Syntax, tree: SyntaxTree, at: int)
    requires
        syntax::nested(tree),
        opened_nodes_show(syntax, tree),
        leaf_byte(tree, at),
    ensures
        covered(spans(syntax, tree), at),
    decreases tree, 1nat, 0nat,
{
    lemma_leaf_byte_inside(tree, at);
    if stays_whole(syntax, tree) || tree.children.len() == 0 {
        assert(spans(syntax, tree)[0] == (tree.start, tree.end));
    } else {
        let n = tree.children.len();
        let i = choose|i: int|
            0 <= i < tree.children.len() && leaf_byte(#[trigger] tree.children[i], at);
        lemma_walk_covers(syntax, tree, n, i, at);
        lemma_walk_in_order(syntax, tree, n);
        lemma_reached_inside(tree, n);
        let last = walked(syntax, tree, n);
        let tail = nonempty_span(last.start, tree.end);
        if covered(last.spans, at) {
            lemma_covered_left(last.spans, tail, at);
        } else {
            lemma_covered_nonempty(last.start, tree.end, at);
            lemma_covered_right(last.spans, tail, at);
        }
    }
}

/// No syntax is lost: every byte of a node without children is in a span.
pub proof fn law_spans_cover_the_leaves(syntax: Syntax, tree: SyntaxTree, at: int)
    requires
        syntax::nested(tree),
        opened_nodes_show(syntax, tree),
        leaf_byte(tree, at),
    ensures
        covered(spans(syntax, tree), at),
{
    lemma_spans_cover(syntax, tree, at);
}

/// A node that is neither a container nor a boundary and that fits its limit is
/// never split.
pub proof fn law_small_nodes_stay_whole(syntax: Syntax, tree: SyntaxTree)
    requires
        stays_whole(syntax, tree),
    ensures
        spans(syntax, tree) == seq![(tree.start, tree.end)],
{
}

// ---------------------------------------------------------------------------
// Code
// ---------------------------------------------------------------------------

/// Collect the spans of a tree behind those in `out`.
#[verifier::rlimit(60)]
#[verifier::spinoff_prover]
pub fn ranges(syntax: Syntax, node: &SyntaxNode, out: &mut Vec<(usize, usize)>)
    requires
        syntax::nested(syntax::tree_of(*node)),
    ensures
        final(out)@ == old(out)@ + spans(syntax, syntax::tree_of(*node)),
    decreases node,
{
    let ghost tree = syntax::tree_of(*node);
    let ghost begun = out@;
    let container = syntax.is_container(node.kind.as_str());
    let boundary = syntax.is_boundary(node.kind.as_str());
    let whole: usize = size_limit(syntax, node.kind.as_str());
    proof {
        syntax::lemma_trees_of(node.children@);
    }
    if (!container && !boundary && node.end - node.start <= whole) || node.children.len() == 0 {
        out.push((node.start, node.end));
        assert(out@ =~= begun + spans(syntax, tree));
        return;
    }
    let mut start: usize = node.start;
    let mut end: usize = start;
    let mut prefix: Option<usize> = None;
    let mut i: usize = 0;
    assert(out@ =~= begun + walked(syntax, tree, 0).spans);
    while i < node.children.len()
        invariant
            i <= node.children@.len(),
            tree == syntax::tree_of(*node),
            syntax::nested(tree),
            container == language::container_kind(syntax, tree.kind),
            tree.children.len() == node.children@.len(),
            forall|k: int|
                0 <= k < node.children@.len() ==> #[trigger] tree.children[k] == syntax::tree_of(
                    node.children@[k],
                ),
            out@ == begun + walked(syntax, tree, i as nat).spans,
            start == walked(syntax, tree, i as nat).start,
            end == walked(syntax, tree, i as nat).end,
            prefix == walked(syntax, tree, i as nat).prefix,
        decreases node.children@.len() - i,
    {
        let child = &node.children[i];
        let ghost walk = walked(syntax, tree, i as nat);
        let ghost next = walked(syntax, tree, (i + 1) as nat);
        let ghost inner = spans(syntax, tree.children[i as int]);
        proof {
            assert(tree.children[i as int] == syntax::tree_of(*child));
            assert(syntax::nested(tree.children[i as int]));
            lemma_walk_in_order(syntax, tree, i as nat);
            assert(next == step(syntax, tree.kind, walk, tree.children[i as int], inner));
        }
        let from: usize = match prefix {
            Some(p) => p,
            None => child.start,
        };
        let kind = child.kind.as_str();
        if container && syntax.is_prefix(kind) {
            prefix = Some(from);
        } else {
            prefix = None;
            let opened = child.end - child.start > size_limit(syntax, kind) || (
            syntax.is_container(kind) && !text::str_eq(kind, "source_file"))
                || syntax.is_boundary(kind);
            if opened {
                let attach = syntax.attaches_header_to_child(node.kind.as_str(), kind);
                if from > start && !attach {
                    out.push((start, from));
                }
                let first: usize = out.len();
                let ghost before = out@;
                ranges(syntax, child, out);
                if first < out.len() {
                    let (_, stop) = out[first];
                    out.set(first, (if attach {
                        start
                    } else {
                        from
                    }, stop));
                }
                proof {
                    assert(out@ =~= before + first_from(
                        inner,
                        if attach {
                            start
                        } else {
                            from
                        },
                    ));
                    assert(out@ =~= begun + next.spans);
                }
                start = child.end;
                end = start;
            } else if container || child.end - start > TARGET_BYTES {
                if end > start {
                    out.push((start, end));
                }
                assert(out@ =~= begun + next.spans);
                start = from;
                end = child.end;
            } else {
                end = child.end;
            }
        }
        i = i + 1;
    }
    if node.end > start {
        out.push((start, node.end));
    }
    assert(out@ =~= begun + spans(syntax, tree));
}

fn size_limit(syntax: Syntax, kind: &str) -> (r: usize)
    ensures
        r == limit(syntax, kind@),
{
    if syntax.is_declaration(kind) {
        MAX_DECLARATION_BYTES
    } else {
        TARGET_BYTES
    }
}

// ---------------------------------------------------------------------------
// Sizes and separation
// ---------------------------------------------------------------------------

/// A node of at most 6000 bytes is one span, and a declaration of at most 24000 bytes is,
/// unless it is a container or a boundary. A node without children is one span whatever its
/// size.
pub proof fn law_nodes_are_split_by_their_size(syntax: Syntax, tree: SyntaxTree)
    ensures
        ({
            let size = tree.end - tree.start;
            let open = language::container_kind(syntax, tree.kind) || language::boundary_kind(
                syntax,
                tree.kind,
            );
            let declaration = language::declaration_kind(syntax, tree.kind);
            let whole = seq![(tree.start, tree.end)];
            &&& !open && size <= 6000 ==> spans(syntax, tree) == whole
            &&& !open && declaration && size <= 24000 ==> spans(syntax, tree) == whole
            &&& tree.children.len() == 0 ==> spans(syntax, tree) == whole
        }),
{
}

/// The child at `i` stands for itself: it is no prefix of another one.
pub open spec fn is_item(syntax: Syntax, tree: SyntaxTree, i: int) -> bool {
    0 <= i < tree.children.len() && !language::prefix_kind(syntax, tree.children[i].kind)
}

/// A span holds a byte of a child.
pub open spec fn touches(span: (usize, usize), child: SyntaxTree) -> bool {
    exists|at: int|
        #![trigger inside(span, at)]
        inside(span, at) && child.start <= at < child.end
}

/// A span holds a byte.
pub open spec fn inside(span: (usize, usize), at: int) -> bool {
    span.0 <= at < span.1
}

/// No span holds bytes of two items in front of child `n`.
spec fn separated(syntax: Syntax, tree: SyntaxTree, list: Seq<(usize, usize)>, n: int) -> bool {
    forall|s: int, i: int, j: int|
        0 <= s < list.len() && i < j < n && is_item(syntax, tree, i) && is_item(syntax, tree, j)
            ==> !(#[trigger] touches(list[s], tree.children[i]) && #[trigger] touches(
            list[s],
            tree.children[j],
        ))
}

/// The open group of a walk holds at most the last item in front of child `n`.
spec fn group_is_last(syntax: Syntax, tree: SyntaxTree, walk: Walk, n: int) -> bool {
    forall|i: int, j: int|
        i < j < n && #[trigger] is_item(syntax, tree, i) && #[trigger] is_item(syntax, tree, j)
            ==> tree.children[i].end <= walk.start
}

/// All items in front of child `n` end before the prefixes behind the group start.
spec fn items_end_before(syntax: Syntax, tree: SyntaxTree, walk: Walk, n: int) -> bool {
    forall|i: int|
        i < n && #[trigger] is_item(syntax, tree, i) ==> tree.children[i].end <= walk.end
}

proof fn lemma_one_item(syntax: Syntax, tree: SyntaxTree, span: (usize, usize), n: int, m: int)
    requires
        syntax::nested(tree),
        0 <= n <= m <= tree.children.len(),
        forall|i: int, j: int|
            i < j < n && #[trigger] is_item(syntax, tree, i) && #[trigger] is_item(syntax, tree, j)
                ==> tree.children[i].end <= span.0,
        n < tree.children.len() ==> span.1 <= tree.children[n].start || n == m,
    ensures
        separated(syntax, tree, seq![span], m),
{
    let list = seq![span];
    assert forall|s: int, i: int, j: int|
        0 <= s < list.len() && i < j < m && is_item(syntax, tree, i) && is_item(
            syntax,
            tree,
            j,
        ) implies !(#[trigger] touches(list[s], tree.children[i]) && #[trigger] touches(
        list[s],
        tree.children[j],
    )) by {
        if touches(list[s], tree.children[i]) && touches(list[s], tree.children[j]) {
            let x = choose|at: int|
                #![trigger inside(span, at)]
                inside(span, at) && tree.children[i].start <= at < tree.children[i].end;
            let y = choose|at: int|
                #![trigger inside(span, at)]
                inside(span, at) && tree.children[j].start <= at < tree.children[j].end;
            if j >= n {
                assert(n < m);
                lemma_children_stand_in_order(tree, n, j);
            }
        }
    }
}

proof fn lemma_children_stand_in_order(tree: SyntaxTree, i: int, j: int)
    requires
        syntax::nested(tree),
        0 <= i <= j < tree.children.len(),
    ensures
        tree.children[i].start <= tree.children[j].start,
        tree.children[i].end <= tree.children[j].end,
        i < j ==> tree.children[i].end <= tree.children[j].start,
{
    assert(syntax::nested(tree.children[i]));
    assert(syntax::nested(tree.children[j]));
}

proof fn lemma_separated_joins(
    syntax: Syntax,
    tree: SyntaxTree,
    a: Seq<(usize, usize)>,
    b: Seq<(usize, usize)>,
    n: int,
)
    requires
        separated(syntax, tree, a, n),
        separated(syntax, tree, b, n),
    ensures
        separated(syntax, tree, a + b, n),
{
    let all = a + b;
    assert forall|s: int, i: int, j: int|
        0 <= s < all.len() && i < j < n && is_item(syntax, tree, i) && is_item(
            syntax,
            tree,
            j,
        ) implies !(#[trigger] touches(all[s], tree.children[i]) && #[trigger] touches(
        all[s],
        tree.children[j],
    )) by {
        if s < a.len() {
            assert(all[s] == a[s]);
        } else {
            assert(all[s] == b[s - a.len()]);
        }
    }
}

/// Spans in front of child `n` hold nothing of it.
proof fn lemma_earlier_spans_stay_separated(
    syntax: Syntax,
    tree: SyntaxTree,
    list: Seq<(usize, usize)>,
    n: int,
    high: usize,
)
    requires
        syntax::nested(tree),
        0 <= n < tree.children.len(),
        separated(syntax, tree, list, n),
        in_order(list, tree.start, high),
        high <= tree.children[n].start,
    ensures
        separated(syntax, tree, list, n + 1),
{
    assert forall|s: int, i: int, j: int|
        0 <= s < list.len() && i < j < n + 1 && is_item(syntax, tree, i) && is_item(
            syntax,
            tree,
            j,
        ) implies !(#[trigger] touches(list[s], tree.children[i]) && #[trigger] touches(
        list[s],
        tree.children[j],
    )) by {
        if j == n && touches(list[s], tree.children[j]) {
            let y = choose|at: int|
                #![trigger inside(list[s], at)]
                inside(list[s], at) && tree.children[j].start <= at < tree.children[j].end;
            assert(list[s].1 <= high);
        }
    }
}

/// Spans between the items in front of child `n` and its end hold nothing but child `n`.
proof fn lemma_own_spans_are_separated(
    syntax: Syntax,
    tree: SyntaxTree,
    list: Seq<(usize, usize)>,
    n: int,
    low: usize,
    high: usize,
)
    requires
        in_order(list, low, high),
        forall|i: int|
            i < n && #[trigger] is_item(syntax, tree, i) ==> tree.children[i].end <= low,
    ensures
        separated(syntax, tree, list, n + 1),
{
    assert forall|s: int, i: int, j: int|
        0 <= s < list.len() && i < j < n + 1 && is_item(syntax, tree, i) && is_item(
            syntax,
            tree,
            j,
        ) implies !(#[trigger] touches(list[s], tree.children[i]) && #[trigger] touches(
        list[s],
        tree.children[j],
    )) by {
        if touches(list[s], tree.children[i]) {
            let x = choose|at: int|
                #![trigger inside(list[s], at)]
                inside(list[s], at) && tree.children[i].start <= at < tree.children[i].end;
            assert(low <= list[s].0);
        }
    }
}

#[verifier::rlimit(60)]
proof fn lemma_walk_separates(syntax: Syntax, tree: SyntaxTree, n: nat)
    requires
        syntax::nested(tree),
        language::container_kind(syntax, tree.kind),
        n <= tree.children.len(),
        forall|i: int|
            0 <= i < n ==> !language::attaches(
                syntax,
                tree.kind,
                (#[trigger] tree.children[i]).kind,
            ),
    ensures
        separated(syntax, tree, walked(syntax, tree, n).spans, n as int),
        group_is_last(syntax, tree, walked(syntax, tree, n), n as int),
        items_end_before(syntax, tree, walked(syntax, tree, n), n as int),
    decreases n,
{
    if n > 0 {
        let k = (n - 1) as nat;
        lemma_walk_separates(syntax, tree, k);
        lemma_walk_in_order(syntax, tree, k);
        lemma_reached_inside(tree, k);
        let child = tree.children[k as int];
        assert(syntax::nested(child));
        lemma_spans_in_order(syntax, child);
        let walk = walked(syntax, tree, k);
        let next = walked(syntax, tree, n);
        let inner = spans(syntax, child);
        let from = lead(walk.prefix, child);
        assert(walk.end <= from <= child.start);
        lemma_earlier_spans_stay_separated(syntax, tree, walk.spans, k as int, walk.start);
        assert(forall|i: int| is_item(syntax, tree, i) && i < n ==> i < k || i == k);
        if language::prefix_kind(syntax, child.kind) {
            assert(!is_item(syntax, tree, k as int));
        } else {
            assert(is_item(syntax, tree, k as int));
            if is_opened(syntax, child) {
                let before = nonempty_span(walk.start, from);
                let moved = first_from(inner, from);
                if before.len() > 0 {
                    lemma_one_item(syntax, tree, (walk.start, from), k as int, n as int);
                }
                lemma_first_from_order(inner, from, child.start, child.end);
                lemma_own_spans_are_separated(syntax, tree, moved, k as int, from, child.end);
                lemma_separated_joins(syntax, tree, walk.spans, before, n as int);
                lemma_separated_joins(syntax, tree, walk.spans + before, moved, n as int);
                assert forall|i: int, j: int|
                    i < j < n && #[trigger] is_item(syntax, tree, i) && #[trigger] is_item(
                        syntax,
                        tree,
                        j,
                    ) implies tree.children[i].end <= next.start by {
                    lemma_children_stand_in_order(tree, i, k as int);
                }
                assert forall|i: int| i < n && #[trigger] is_item(syntax, tree, i) implies
                    tree.children[i].end <= next.end by {
                    lemma_children_stand_in_order(tree, i, k as int);
                }
            } else {
                let before = nonempty_span(walk.start, walk.end);
                if before.len() > 0 {
                    lemma_one_item(syntax, tree, (walk.start, walk.end), k as int, n as int);
                }
                lemma_separated_joins(syntax, tree, walk.spans, before, n as int);
                assert forall|i: int, j: int|
                    i < j < n && #[trigger] is_item(syntax, tree, i) && #[trigger] is_item(
                        syntax,
                        tree,
                        j,
                    ) implies tree.children[i].end <= next.start by {
                    assert(i < k);
                    assert(tree.children[i].end <= walk.end);
                }
                assert forall|i: int| i < n && #[trigger] is_item(syntax, tree, i) implies
                    tree.children[i].end <= next.end by {
                    lemma_children_stand_in_order(tree, i, k as int);
                }
            }
        }
    }
}

/// The children of a container are kept apart: no span holds parts of two of them, leaving
/// aside the comments and attributes in front of a child, which belong to it, and children
/// that the text in front of them is kept with.
pub proof fn law_containers_keep_their_children_apart(
    syntax: Syntax,
    tree: SyntaxTree,
    s: int,
    i: int,
    j: int,
)
    requires
        syntax::nested(tree),
        language::container_kind(syntax, tree.kind),
        forall|k: int|
            0 <= k < tree.children.len() ==> !language::attaches(
                syntax,
                tree.kind,
                (#[trigger] tree.children[k]).kind,
            ),
        0 <= s < spans(syntax, tree).len(),
        i < j,
        is_item(syntax, tree, i),
        is_item(syntax, tree, j),
    ensures
        !(touches(spans(syntax, tree)[s], tree.children[i]) && touches(
            spans(syntax, tree)[s],
            tree.children[j],
        )),
{
    let n = tree.children.len();
    lemma_walk_separates(syntax, tree, n);
    let last = walked(syntax, tree, n);
    let tail = nonempty_span(last.start, tree.end);
    if tail.len() > 0 {
        lemma_one_item(syntax, tree, (last.start, tree.end), n as int, n as int);
    }
    lemma_separated_joins(syntax, tree, last.spans, tail, n as int);
    let all = last.spans + tail;
    assert(spans(syntax, tree) == all);
    assert(!(touches(all[s], tree.children[i]) && touches(all[s], tree.children[j])));
}

/// One of the spans holds all bytes from `a` up to `b`.
pub open spec fn held_together(list: Seq<(usize, usize)>, a: usize, b: usize) -> bool {
    exists|s: int| 0 <= s < list.len() && (#[trigger] list[s]).0 <= a && b <= list[s].1
}

spec fn kept_together(walk: Walk, a: usize, b: usize) -> bool {
    held_together(walk.spans, a, b) || walk.start <= a && b <= walk.end
}

proof fn lemma_held_left(x: Seq<(usize, usize)>, y: Seq<(usize, usize)>, a: usize, b: usize)
    requires
        held_together(x, a, b),
    ensures
        held_together(x + y, a, b),
{
    let s = choose|s: int| 0 <= s < x.len() && (#[trigger] x[s]).0 <= a && b <= x[s].1;
    assert((x + y)[s] == x[s]);
}

proof fn lemma_held_right(x: Seq<(usize, usize)>, y: Seq<(usize, usize)>, a: usize, b: usize)
    requires
        held_together(y, a, b),
    ensures
        held_together(x + y, a, b),
{
    let s = choose|s: int| 0 <= s < y.len() && (#[trigger] y[s]).0 <= a && b <= y[s].1;
    assert((x + y)[x.len() + s] == y[s]);
}

proof fn lemma_groups_stay_together(
    syntax: Syntax,
    tree: SyntaxTree,
    n: nat,
    m: nat,
    a: usize,
    b: usize,
)
    requires
        syntax::nested(tree),
        n <= m <= tree.children.len(),
        a < b,
        kept_together(walked(syntax, tree, n), a, b),
        forall|k: int|
            n <= k < m ==> !language::attaches(
                syntax,
                tree.kind,
                (#[trigger] tree.children[k]).kind,
            ),
    ensures
        kept_together(walked(syntax, tree, m), a, b),
    decreases m,
{
    if n < m {
        let k = (m - 1) as nat;
        lemma_groups_stay_together(syntax, tree, n, k, a, b);
        lemma_walk_in_order(syntax, tree, k);
        lemma_reached_inside(tree, k);
        let child = tree.children[k as int];
        assert(syntax::nested(child));
        let walk = walked(syntax, tree, k);
        let next = walked(syntax, tree, m);
        let inner = spans(syntax, child);
        let from = lead(walk.prefix, child);
        assert(walk.end <= from <= child.start);
        let container = language::container_kind(syntax, tree.kind);
        if container && language::prefix_kind(syntax, child.kind) {
        } else if is_opened(syntax, child) {
            let before = nonempty_span(walk.start, from);
            let moved = first_from(inner, from);
            if held_together(walk.spans, a, b) {
                lemma_held_left(walk.spans, before, a, b);
            } else {
                assert(before[0] == (walk.start, from));
                lemma_held_right(walk.spans, before, a, b);
            }
            lemma_held_left(walk.spans + before, moved, a, b);
        } else if container || child.end - walk.start > TARGET_BYTES {
            let before = nonempty_span(walk.start, walk.end);
            if held_together(walk.spans, a, b) {
                lemma_held_left(walk.spans, before, a, b);
            } else {
                assert(before[0] == (walk.start, walk.end));
                lemma_held_right(walk.spans, before, a, b);
            }
        }
    }
}

proof fn lemma_kept_to_the_end(syntax: Syntax, tree: SyntaxTree, n: nat, a: usize, b: usize)
    requires
        syntax::nested(tree),
        !stays_whole(syntax, tree),
        n <= tree.children.len(),
        tree.children.len() > 0,
        a < b,
        kept_together(walked(syntax, tree, n), a, b),
        forall|k: int|
            n <= k < tree.children.len() ==> !language::attaches(
                syntax,
                tree.kind,
                (#[trigger] tree.children[k]).kind,
            ),
    ensures
        held_together(spans(syntax, tree), a, b),
{
    let m = tree.children.len();
    lemma_groups_stay_together(syntax, tree, n, m, a, b);
    lemma_walk_in_order(syntax, tree, m);
    lemma_reached_inside(tree, m);
    let last = walked(syntax, tree, m);
    let tail = nonempty_span(last.start, tree.end);
    if held_together(last.spans, a, b) {
        lemma_held_left(last.spans, tail, a, b);
    } else {
        assert(tail[0] == (last.start, tree.end));
        lemma_held_right(last.spans, tail, a, b);
    }
}

proof fn lemma_prefixes_are_remembered(syntax: Syntax, tree: SyntaxTree, first: nat, n: nat)
    requires
        syntax::nested(tree),
        language::container_kind(syntax, tree.kind),
        first < n <= tree.children.len(),
        forall|k: int|
            first <= k < n ==> language::prefix_kind(
                syntax,
                (#[trigger] tree.children[k]).kind,
            ),
    ensures
        walked(syntax, tree, n).prefix is Some,
        walked(syntax, tree, n).prefix->0 <= tree.children[first as int].start,
    decreases n,
{
    let k = (n - 1) as nat;
    assert(language::prefix_kind(syntax, tree.children[k as int].kind));
    lemma_walk_in_order(syntax, tree, k);
    lemma_reached_inside(tree, k);
    if first < k {
        lemma_prefixes_are_remembered(syntax, tree, first, k);
    }
}

/// Comments and attributes stay with what they stand in front of: in a container a child that
/// is not split is in one span with all the prefixes directly in front of it.
pub proof fn law_prefixes_stay_with_their_item(
    syntax: Syntax,
    tree: SyntaxTree,
    first: nat,
    item: nat,
)
    requires
        syntax::nested(tree),
        language::container_kind(syntax, tree.kind),
        first <= item < tree.children.len(),
        forall|k: int|
            first <= k < item ==> language::prefix_kind(
                syntax,
                (#[trigger] tree.children[k]).kind,
            ),
        !language::prefix_kind(syntax, tree.children[item as int].kind),
        !is_opened(syntax, tree.children[item as int]),
        tree.children[item as int].start < tree.children[item as int].end,
        forall|k: int|
            item < k < tree.children.len() ==> !language::attaches(
                syntax,
                tree.kind,
                (#[trigger] tree.children[k]).kind,
            ),
    ensures
        held_together(
            spans(syntax, tree),
            tree.children[first as int].start,
            tree.children[item as int].end,
        ),
{
    let child = tree.children[item as int];
    lemma_walk_in_order(syntax, tree, item);
    lemma_reached_inside(tree, item);
    if first < item {
        lemma_prefixes_are_remembered(syntax, tree, first, item);
        lemma_children_stand_in_order(tree, first as int, item as int);
    } else {
        let walk = walked(syntax, tree, item);
        assert(lead(walk.prefix, child) <= child.start);
    }
    let next = walked(syntax, tree, (item + 1) as nat);
    assert(kept_together(next, tree.children[first as int].start, child.end));
    lemma_kept_to_the_end(
        syntax,
        tree,
        (item + 1) as nat,
        tree.children[first as int].start,
        child.end,
    );
}

proof fn lemma_small_children_are_grouped(syntax: Syntax, tree: SyntaxTree, n: nat)
    requires
        syntax::nested(tree),
        !language::container_kind(syntax, tree.kind),
        0 < n <= tree.children.len(),
        forall|k: int| 0 <= k < n ==> !is_opened(syntax, #[trigger] tree.children[k]),
        tree.children[n - 1].end - tree.start <= 6000,
    ensures
        walked(syntax, tree, n).start == tree.start,
        walked(syntax, tree, n).end == tree.children[n - 1].end,
    decreases n,
{
    assert(!is_opened(syntax, tree.children[n - 1]));
    if n > 1 {
        lemma_children_stand_in_order(tree, n - 2, n - 1);
        lemma_small_children_are_grouped(syntax, tree, (n - 1) as nat);
    }
}

/// Small parts are not scattered: the first children of a node that is no container, as long
/// as none of them is split and they end within 6000 bytes, are in one span.
pub proof fn law_small_parts_are_grouped(syntax: Syntax, tree: SyntaxTree, n: nat)
    requires
        syntax::nested(tree),
        !language::container_kind(syntax, tree.kind),
        0 < n <= tree.children.len(),
        forall|k: int| 0 <= k < n ==> !is_opened(syntax, #[trigger] tree.children[k]),
        tree.children[n - 1].end - tree.start <= 6000,
        tree.start < tree.children[n - 1].end,
        forall|k: int|
            n <= k < tree.children.len() ==> !language::attaches(
                syntax,
                tree.kind,
                (#[trigger] tree.children[k]).kind,
            ),
    ensures
        held_together(spans(syntax, tree), tree.start, tree.children[n - 1].end),
{
    lemma_small_children_are_grouped(syntax, tree, n);
    if stays_whole(syntax, tree) {
        assert(spans(syntax, tree)[0] == (tree.start, tree.end));
    } else {
        lemma_kept_to_the_end(syntax, tree, n, tree.start, tree.children[n - 1].end);
    }
}

} // verus!

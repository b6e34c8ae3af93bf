//! Syntax trees of source files.
//!
//! The parser hands a tree out as rows in preorder. The rows are put together
//! into a tree of named nodes, and the tree is tested to lie in its source.

use crate::language::Grammar;
use crate::{margins, text};
use tree_sitter::{LanguageError, Parser};
use vstd::prelude::*;
use vstd::utf8::*;

verus! {

/// One named node of a parsed tree, in preorder.
#[derive(Debug)]
pub struct NodeRow {
    pub kind: String,
    pub start: usize,
    pub end: usize,
    /// How many named children the node has.
    pub children: usize,
}

/// What a [`NodeRow`] says.
pub struct Row {
    pub kind: Seq<char>,
    pub start: usize,
    pub end: usize,
    pub children: usize,
}

impl View for NodeRow {
    type V = Row;

    open spec fn view(&self) -> Row {
        Row { kind: self.kind@, start: self.start, end: self.end, children: self.children }
    }
}

pub open spec fn rows(v: Seq<NodeRow>) -> Seq<Row> {
    Seq::new(v.len(), |i: int| v[i]@)
}

/// A tree of named syntax nodes with their byte ranges.
pub struct SyntaxTree {
    pub kind: Seq<char>,
    pub start: usize,
    pub end: usize,
    pub children: Seq<SyntaxTree>,
}

/// A named syntax node with its byte range.
#[derive(Debug)]
pub struct SyntaxNode {
    pub kind: String,
    pub start: usize,
    pub end: usize,
    pub children: Vec<SyntaxNode>,
}

/// The tree of a node.
pub open spec fn tree_of(node: SyntaxNode) -> SyntaxTree
    decreases node,
{
    SyntaxTree {
        kind: node.kind@,
        start: node.start,
        end: node.end,
        children: trees_of(node.children@),
    }
}

/// The trees of a list of nodes.
pub open spec fn trees_of(nodes: Seq<SyntaxNode>) -> Seq<SyntaxTree>
    decreases nodes,
{
    if nodes.len() == 0 {
        seq![]
    } else {
        trees_of(nodes.drop_last()).push(tree_of(nodes.last()))
    }
}

pub proof fn lemma_trees_of(nodes: Seq<SyntaxNode>)
    ensures
        trees_of(nodes).len() == nodes.len(),
        forall|i: int| 0 <= i < nodes.len() ==> #[trigger] trees_of(nodes)[i] == tree_of(nodes[i]),
    decreases nodes.len(),
{
    if nodes.len() > 0 {
        lemma_trees_of(nodes.drop_last());
        assert forall|i: int| 0 <= i < nodes.len() implies #[trigger] trees_of(nodes)[i] == tree_of(
            nodes[i],
        ) by {
            if i < nodes.len() - 1 {
                assert(nodes.drop_last()[i] == nodes[i]);
                assert(trees_of(nodes.drop_last())[i] == tree_of(nodes.drop_last()[i]));
            }
        }
    }
}

/// The trees whose preorder is `list`, if there are such trees: each row takes the
/// trees behind it for its children.
pub open spec fn forest(list: Seq<Row>) -> Option<Seq<SyntaxTree>>
    decreases list.len(),
{
    if list.len() == 0 {
        Some(seq![])
    } else {
        match forest(list.drop_first()) {
            Some(behind) => {
                let row = list[0];
                if row.children <= behind.len() {
                    let node = SyntaxTree {
                        kind: row.kind,
                        start: row.start,
                        end: row.end,
                        children: behind.take(row.children as int),
                    };
                    Some(seq![node] + behind.skip(row.children as int))
                } else {
                    None
                }
            },
            None => None,
        }
    }
}

/// The one tree whose preorder is `list`.
pub open spec fn tree_from(list: Seq<Row>) -> Option<SyntaxTree> {
    match forest(list) {
        Some(trees) => if trees.len() == 1 {
            Some(trees[0])
        } else {
            None
        },
        None => None,
    }
}

proof fn lemma_forest_fails(list: Seq<Row>, i: int)
    requires
        0 <= i <= list.len(),
        forest(list.skip(i)) is None,
    ensures
        forest(list) is None,
    decreases i,
{
    if i > 0 {
        assert(list.skip(i - 1).drop_first() =~= list.skip(i));
        lemma_forest_fails(list, i - 1);
    } else {
        assert(list.skip(0) =~= list);
    }
}

/// Put rows in preorder together into a tree.
pub fn build(list: Vec<NodeRow>) -> (r: Option<SyntaxNode>)
    ensures
        match r {
            Some(node) => tree_from(rows(list@)) == Some(tree_of(node)),
            None => tree_from(rows(list@)) is None,
        },
{
    let ghost all = rows(list@);
    let mut left = list;
    // The finished trees behind the rows that are left, the first one last.
    let mut stack: Vec<SyntaxNode> = Vec::new();
    proof {
        assert(all.skip(all.len() as int) =~= seq![]);
        assert(trees_of(stack@.reverse()) =~= seq![]);
    }
    while left.len() > 0
        invariant
            all == rows(list@),
            left@.len() <= all.len(),
            rows(left@) == all.take(left@.len() as int),
            forest(all.skip(left@.len() as int)) == Some(trees_of(stack@.reverse())),
        decreases left@.len(),
    {
        let ghost n = left@.len() - 1;
        let ghost before = left@;
        let ghost behind = stack@.reverse();
        let row = match left.pop() {
            Some(row) => row,
            None => {
                return None;
            },
        };
        proof {
            assert(all[n] == all.take(n + 1)[n]);
            assert(rows(before)[n] == row@);
            assert(all.skip(n).drop_first() =~= all.skip(n + 1));
            assert(all.skip(n)[0] == all[n]);
            assert(rows(left@) =~= all.take(n));
            lemma_trees_of(behind);
        }
        if row.children > stack.len() {
            proof {
                lemma_forest_fails(all, n);
            }
            return None;
        }
        let ghost k = row.children as int;
        let mut children: Vec<SyntaxNode> = Vec::new();
        let ghost whole = stack@;
        while children.len() < row.children
            invariant
                row.children <= whole.len(),
                children@.len() <= row.children,
                stack@ == whole.take(whole.len() - children@.len()),
                forall|i: int|
                    0 <= i < children@.len() ==> #[trigger] children@[i] == whole[whole.len() - 1
                        - i],
            decreases row.children - children@.len(),
        {
            let ghost at = stack@.len() - 1;
            match stack.pop() {
                Some(node) => {
                    assert(node == whole[at]);
                    children.push(node);
                    assert(stack@ =~= whole.take(whole.len() - children@.len()));
                },
                None => {
                    return None;
                },
            }
        }
        let node = SyntaxNode { kind: row.kind, start: row.start, end: row.end, children };
        proof {
            assert(node.children@ =~= behind.take(k));
            lemma_trees_of(behind.take(k));
            lemma_trees_of(behind.skip(k));
            assert(trees_of(behind.take(k)) =~= trees_of(behind).take(k));
            assert(trees_of(behind.skip(k)) =~= trees_of(behind).skip(k));
        }
        stack.push(node);
        proof {
            let now = stack@.reverse();
            lemma_trees_of(now);
            assert(now =~= seq![node] + behind.skip(k));
            let expected = seq![tree_of(node)] + trees_of(behind).skip(k);
            assert(trees_of(now) =~= expected) by {
                assert forall|i: int| 0 <= i < now.len() implies trees_of(now)[i] == expected[i] by {
                    if i > 0 {
                        assert(now[i] == behind.skip(k)[i - 1]);
                        assert(trees_of(behind.skip(k))[i - 1] == tree_of(behind.skip(k)[i - 1]));
                    }
                }
            }
        }
    }
    proof {
        assert(all.skip(0) =~= all);
        lemma_trees_of(stack@.reverse());
    }
    if stack.len() != 1 {
        return None;
    }
    let ghost last = stack@[0];
    let root = stack.pop();
    proof {
        assert(root == Some(last));
    }
    root
}

// ---------------------------------------------------------------------------
// Trees and their source
// ---------------------------------------------------------------------------

/// The children lie inside the node, one behind the other.
pub open spec fn children_in_order(tree: SyntaxTree) -> bool {
    &&& forall|i: int|
        0 <= i < tree.children.len() ==> tree.start <= (#[trigger] tree.children[i]).start
            && tree.children[i].end <= tree.end
    &&& forall|i: int, j: int|
        0 <= i < j < tree.children.len() ==> (#[trigger] tree.children[i]).end <= (
        #[trigger] tree.children[j]).start
}

/// Every node lies in the source and inside its parent, behind its elder siblings.
pub open spec fn well_placed(tree: SyntaxTree, source: Seq<char>) -> bool
    decreases tree,
{
    &&& text::in_text(tree.start, tree.end, source)
    &&& children_in_order(tree)
    &&& forall|i: int|
        0 <= i < tree.children.len() ==> well_placed(#[trigger] tree.children[i], source)
}

/// Every node has a range inside its parent, behind its elder siblings.
pub open spec fn nested(tree: SyntaxTree) -> bool
    decreases tree,
{
    &&& tree.start <= tree.end
    &&& children_in_order(tree)
    &&& forall|i: int| 0 <= i < tree.children.len() ==> nested(#[trigger] tree.children[i])
}

pub proof fn lemma_well_placed_is_nested(tree: SyntaxTree, source: Seq<char>)
    requires
        well_placed(tree, source),
    ensures
        nested(tree),
    decreases tree,
{
    assert forall|i: int| 0 <= i < tree.children.len() implies nested(
        #[trigger] tree.children[i],
    ) by {
        lemma_well_placed_is_nested(tree.children[i], source);
    }
}

/// Test that every node lies in the source and inside its parent, behind its elder
/// siblings.
pub fn is_well_placed(node: &SyntaxNode, source: &str) -> (r: bool)
    ensures
        r == well_placed(tree_of(*node), source@),
    decreases node,
{
    let ghost tree = tree_of(*node);
    proof {
        lemma_trees_of(node.children@);
        encode_utf8_valid_utf8(source@);
    }
    let size: usize = source.as_bytes().len();
    if node.start > node.end || node.end > size || !source.is_char_boundary(node.start)
        || !source.is_char_boundary(node.end) {
        return false;
    }
    let mut behind: usize = node.start;
    let mut i: usize = 0;
    while i < node.children.len()
        invariant
            i <= node.children@.len(),
            tree == tree_of(*node),
            tree.children.len() == node.children@.len(),
            forall|k: int|
                0 <= k < node.children@.len() ==> #[trigger] tree.children[k] == tree_of(
                    node.children@[k],
                ),
            behind == if i == 0 {
                tree.start
            } else {
                tree.children[i - 1].end
            },
            text::in_text(tree.start, tree.end, source@),
            forall|k: int|
                0 <= k < i ==> {
                    &&& well_placed(#[trigger] tree.children[k], source@)
                    &&& tree.start <= tree.children[k].start
                    &&& tree.children[k].end <= tree.end
                    &&& tree.children[k].end <= behind
                },
            forall|k: int, m: int|
                0 <= k < m < i ==> (#[trigger] tree.children[k]).end <= (
                #[trigger] tree.children[m]).start,
        decreases node.children@.len() - i,
    {
        let child = &node.children[i];
        assert(tree.children[i as int] == tree_of(*child));
        if !is_well_placed(child, source) {
            return false;
        }
        if child.start < behind || child.end > node.end {
            return false;
        }
        behind = child.end;
        i = i + 1;
    }
    true
}

// ---------------------------------------------------------------------------
// The parser
// ---------------------------------------------------------------------------

/// A parsed tree of the parser.
#[verifier::external_type_specification]
#[verifier::external_body]
pub struct ExParserTree(tree_sitter::Tree);

/// The parser's error for a grammar that it cannot use.
#[verifier::external_type_specification]
#[verifier::external_body]
pub struct ExLanguageError(tree_sitter::LanguageError);

/// The named nodes that a parsed tree holds, in preorder.
pub uninterp spec fn held_rows(tree: tree_sitter::Tree) -> Seq<Row>;

/// What parsing a text by a grammar gives: `None` where the parser cannot use the
/// grammar, `Some(None)` where it gives up, and else the named nodes of the tree in
/// preorder.
pub uninterp spec fn parsed(grammar: Grammar, source: Seq<char>) -> Option<Option<Seq<Row>>>;

/// The size below which the parser's offsets do not wrap.
pub open spec fn parseable(source: Seq<char>) -> bool {
    encode_utf8(source).len() < 0xffff_ffff
}

/// The indentations of a text fit into the buffer of the grammar's scanner. Python's alone
/// keeps them.
pub open spec fn scannable(grammar: Grammar, source: Seq<char>) -> bool {
    grammar == Grammar::Python ==> margins::few_rises(source)
}

/// Calls `tree_sitter::Parser::set_language` and `tree_sitter::Parser::parse`.
///
/// The result depends on the grammar and the text alone: no old tree, no timeout
/// and no cancellation flag is set. What the parser makes of a text is named, not
/// stated. Its offsets have 32 bits, so longer texts are left out, and so are Python texts
/// whose nested indentations could overrun the buffer of the grammar's scanner.
#[verifier::external_body]
fn parse_source(grammar: Grammar, source: &str) -> (r: Result<
    Option<tree_sitter::Tree>,
    LanguageError,
>)
    requires
        parseable(source@),
        scannable(grammar, source@),
    ensures
        match r {
            Ok(Some(tree)) => parsed(grammar, source@) == Some(Some(held_rows(tree))),
            Ok(None) => parsed(grammar, source@) == Some(None::<Seq<Row>>),
            Err(_) => parsed(grammar, source@) is None,
        },
{
    let mut parser = Parser::new();
    parser.set_language(&tree_sitter::Language::new(match grammar {
        Grammar::Rust => tree_sitter_rust::LANGUAGE,
        Grammar::TypeScript => tree_sitter_typescript::LANGUAGE_TYPESCRIPT,
        Grammar::Tsx => tree_sitter_typescript::LANGUAGE_TSX,
        Grammar::JavaScript => tree_sitter_javascript::LANGUAGE,
        Grammar::Python => tree_sitter_python::LANGUAGE,
        Grammar::CSharp => tree_sitter_c_sharp::LANGUAGE,
        Grammar::Go => tree_sitter_go::LANGUAGE,
        Grammar::Java => tree_sitter_java::LANGUAGE,
    }))?;
    Ok(parser.parse(source, None))
}

/// Calls `tree_sitter::Tree::root_node` and `tree_sitter::Node::named_children` and
/// hands the nodes out in preorder, each with its `kind`, `start_byte`, `end_byte`
/// and `named_child_count`.
#[verifier::external_body]
fn named_nodes(tree: &tree_sitter::Tree) -> (r: Vec<NodeRow>)
    ensures
        rows(r@) == held_rows(*tree),
{
    let mut out = Vec::new();
    let mut open = vec![tree.root_node()];
    while let Some(node) = open.pop() {
        let children: Vec<_> = node.named_children(&mut node.walk()).collect();
        let (kind, count) = (node.kind().to_string(), children.len());
        out.push(NodeRow { kind, start: node.start_byte(), end: node.end_byte(), children: count });
        open.extend(children.into_iter().rev());
    }
    out
}

/// Why a source file has no syntax tree.
#[derive(Debug, Clone, Copy, PartialEq, Eq, Structural)]
pub enum ParseFailure {
    /// The parser cannot use the grammar.
    Language,
    /// The parser gave up.
    Cancelled,
    /// The parsed nodes do not lie in the source as a tree.
    Malformed,
    /// The indentations of the source rise too often for the grammar's scanner.
    Margins,
}

/// The tree of a source file, or why there is none.
pub open spec fn source_tree(grammar: Grammar, source: Seq<char>) -> Result<SyntaxTree, ParseFailure> {
    if !scannable(grammar, source) {
        Err(ParseFailure::Margins)
    } else {
        match parsed(grammar, source) {
            None => Err(ParseFailure::Language),
            Some(None) => Err(ParseFailure::Cancelled),
            Some(Some(list)) => placed_tree(list, source),
        }
    }
}

/// The tree of which `list` is the preorder, if it lies in its source.
pub open spec fn placed_tree(list: Seq<Row>, source: Seq<char>) -> Result<SyntaxTree, ParseFailure> {
    match tree_from(list) {
        Some(tree) => if well_placed(tree, source) {
            Ok(tree)
        } else {
            Err(ParseFailure::Malformed)
        },
        None => Err(ParseFailure::Malformed),
    }
}

/// Put parsed rows together into a tree that lies in its source.
pub fn place(list: Vec<NodeRow>, source: &str) -> (r: Result<SyntaxNode, ParseFailure>)
    ensures
        match r {
            Ok(node) => placed_tree(rows(list@), source@) == Ok::<SyntaxTree, ParseFailure>(tree_of(node)),
            Err(failure) => placed_tree(rows(list@), source@) == Err::<SyntaxTree, ParseFailure>(failure),
        },
{
    match build(list) {
        Some(node) => if is_well_placed(&node, source) {
            Ok(node)
        } else {
            Err(ParseFailure::Malformed)
        },
        None => Err(ParseFailure::Malformed),
    }
}

/// Parse a source file.
pub fn parse(grammar: Grammar, source: &str) -> (r: Result<SyntaxNode, ParseFailure>)
    requires
        parseable(source@),
    ensures
        match r {
            Ok(node) => source_tree(grammar, source@) == Ok::<SyntaxTree, ParseFailure>(tree_of(node)),
            Err(failure) => source_tree(grammar, source@) == Err::<SyntaxTree, ParseFailure>(failure),
        },
{
    if grammar == Grammar::Python && !margins::rises_rarely(source) {
        return Err(ParseFailure::Margins);
    }
    match parse_source(grammar, source) {
        Ok(Some(tree)) => place(named_nodes(&tree), source),
        Ok(None) => Err(ParseFailure::Cancelled),
        Err(_) => Err(ParseFailure::Language),
    }
}

// ---------------------------------------------------------------------------
// Trees and their rows
// ---------------------------------------------------------------------------

/// The rows of a tree in preorder: the node, and then the rows of its children.
pub open spec fn preorder(tree: SyntaxTree) -> Seq<Row>
    decreases tree,
{
    seq![
        Row {
            kind: tree.kind,
            start: tree.start,
            end: tree.end,
            children: tree.children.len() as usize,
        },
    ] + preorder_of_all(tree.children)
}

/// The rows of trees, one behind the other.
pub open spec fn preorder_of_all(trees: Seq<SyntaxTree>) -> Seq<Row>
    decreases trees,
{
    if trees.len() == 0 {
        seq![]
    } else {
        preorder_of_all(trees.drop_last()) + preorder(trees.last())
    }
}

/// The numbers of children are machine words.
pub open spec fn is_countable(tree: SyntaxTree) -> bool
    decreases tree,
{
    &&& tree.children.len() <= usize::MAX
    &&& forall|i: int| 0 <= i < tree.children.len() ==> is_countable(#[trigger] tree.children[i])
}

proof fn lemma_forest_of_tree(tree: SyntaxTree, rest: Seq<Row>)
    requires
        is_countable(tree),
        forest(rest) is Some,
    ensures
        forest(preorder(tree) + rest) == Some(seq![tree] + forest(rest)->0),
    decreases tree, 1nat, 0nat,
{
    let list = preorder(tree) + rest;
    let behind = preorder_of_all(tree.children) + rest;
    assert(list.drop_first() =~= behind);
    lemma_forest_of_trees(tree.children, tree, tree.children.len(), rest);
    assert(tree.children.take(tree.children.len() as int) =~= tree.children);
    let trees = tree.children + forest(rest)->0;
    let n = tree.children.len() as int;
    assert(trees.take(n) =~= tree.children);
    assert(trees.skip(n) =~= forest(rest)->0);
}

proof fn lemma_forest_of_trees(
    trees: Seq<SyntaxTree>,
    parent: SyntaxTree,
    n: nat,
    rest: Seq<Row>,
)
    requires
        trees == parent.children,
        is_countable(parent),
        n <= trees.len(),
        forest(rest) is Some,
    ensures
        forest(preorder_of_all(trees.take(n as int)) + rest) == Some(
            trees.take(n as int) + forest(rest)->0,
        ),
    decreases parent, 0nat, n,
{
    let some = trees.take(n as int);
    if n == 0 {
        assert(preorder_of_all(some) + rest =~= rest);
        assert(some + forest(rest)->0 =~= forest(rest)->0);
    } else {
        let last = trees[n - 1];
        assert(is_countable(last));
        lemma_forest_of_tree(last, rest);
        let next = preorder(last) + rest;
        lemma_forest_of_trees(trees, parent, (n - 1) as nat, next);
        let before = trees.take(n - 1);
        assert(some.drop_last() =~= before);
        assert(some.last() == last);
        assert(preorder_of_all(some) + rest =~= preorder_of_all(before) + next);
        assert(before + (seq![last] + forest(rest)->0) =~= some + forest(rest)->0);
    }
}

/// A tree is read back from its rows in preorder.
pub proof fn law_trees_are_read_back(tree: SyntaxTree)
    requires
        is_countable(tree),
    ensures
        tree_from(preorder(tree)) == Some(tree),
{
    let none: Seq<Row> = seq![];
    assert(forest(none) == Some(Seq::<SyntaxTree>::empty()));
    lemma_forest_of_tree(tree, none);
    assert(preorder(tree) + none =~= preorder(tree));
    assert(seq![tree] + Seq::<SyntaxTree>::empty() =~= seq![tree]);
}

} // verus!

//! The arena-backed abstract syntax tree.
//!
//! Nodes live in a vector and are addressed by index; a mutable cursor names
//! the current insertion point. Every child is appended after its parent, so
//! a child's index is always strictly greater than its parent's, which makes
//! the tree acyclic by construction. [`abs_node`] maps an arena and an index
//! to the abstract [`Ast`] the subtree there stands for; the builder's and
//! reducer's contracts are stated over that abstraction.

use crate::atomdict::AtomDict;
use crate::failures::ErrorCases;
use crate::grammar::{electron_key, eval_node, eval_parts, Ast};
use crate::node::NodeType;
use vstd::prelude::*;

verus! {

/// One arena slot: the node's tag and the indices of its children, in
/// insertion order.
pub struct Node {
    pub ntype: NodeType,
    pub children: Vec<usize>,
}

/// Every child index of node `i` lies strictly between `i` and the arena's
/// length.
pub open spec fn children_ok(nodes: Seq<Node>, i: int) -> bool {
    forall|k: int|
        0 <= k < nodes[i].children@.len() ==> i < #[trigger] nodes[i].children@[k] < nodes.len()
}

/// No index is the child of two nodes, nor twice of one: every non-root node
/// has exactly one parent.
pub open spec fn unique_parents(nodes: Seq<Node>) -> bool {
    forall|i1: int, k1: int, i2: int, k2: int|
        #![trigger nodes[i1].children@[k1], nodes[i2].children@[k2]]
        0 <= i1 < nodes.len() && 0 <= k1 < nodes[i1].children@.len() && 0 <= i2 < nodes.len() && 0
            <= k2 < nodes[i2].children@.len() && nodes[i1].children@[k1] == nodes[i2].children@[k2]
            ==> i1 == i2 && k1 == k2
}

/// A well-formed arena: a root group node at index zero, child indices
/// strictly above their parents and in bounds, and one parent per node.
pub open spec fn wf_nodes(nodes: Seq<Node>) -> bool {
    &&& nodes.len() >= 1
    &&& nodes[0].ntype is Group
    &&& forall|i: int| 0 <= i < nodes.len() ==> children_ok(nodes, i)
    &&& unique_parents(nodes)
}

/// The abstract trees of the children `cs` of the node at `lo`, left to
/// right; an out-of-range entry (impossible in a well-formed arena) is
/// skipped.
pub open spec fn abs_list(nodes: Seq<Node>, lo: int, cs: Seq<usize>) -> Seq<Ast>
    decreases nodes.len() - lo, cs.len(),
{
    if cs.len() == 0 {
        seq![]
    } else {
        let c: int = cs[0] as int;
        let rest: Seq<Ast> = abs_list(nodes, lo, cs.drop_first());
        if lo < c < nodes.len() {
            seq![abs_node(nodes, c)] + rest
        } else {
            rest
        }
    }
}

/// The abstract tree of the subtree rooted at index `i`.
pub open spec fn abs_node(nodes: Seq<Node>, i: int) -> Ast
    decreases nodes.len() - i, nodes[i].children@.len() + 1,
{
    if 0 <= i < nodes.len() {
        let parts: Seq<Ast> = abs_list(nodes, i, nodes[i].children@);
        match nodes[i].ntype {
            NodeType::Atom(name, count) => Ast::Atom { name: name@, count: count as int },
            NodeType::Molecule(prefix, charge) => Ast::Molecule {
                prefix: prefix as int,
                charge: charge as int,
                parts,
            },
            NodeType::ParenthesisWrapper(suffix) => Ast::Paren { suffix: suffix as int, parts },
            NodeType::Group => Ast::Group { parts },
        }
    } else {
        Ast::Group { parts: seq![] }
    }
}

/// Every node from `lo` up to the end of `pre` stands unchanged in `post`.
pub open spec fn nodes_frozen(pre: Seq<Node>, post: Seq<Node>, lo: int) -> bool {
    forall|j: int|
        lo <= j < pre.len() ==> j < post.len() && (#[trigger] post[j]).ntype == pre[j].ntype
            && post[j].children@ == pre[j].children@
}

/// `post` is `pre` with one fresh childless node appended and registered as
/// the last child of `parent`; nothing else moved.
pub open spec fn appended_node(pre: Seq<Node>, post: Seq<Node>, parent: int) -> bool {
    &&& post.len() == pre.len() + 1
    &&& 0 <= parent < pre.len()
    &&& post[pre.len() as int].children@ == Seq::<usize>::empty()
    &&& forall|j: int| 0 <= j < pre.len() ==> (#[trigger] post[j]).ntype == pre[j].ntype
    &&& forall|j: int|
        0 <= j < pre.len() && j != parent ==> (#[trigger] post[j]).children@ == pre[j].children@
    &&& post[parent].children@ == pre[parent].children@.push(pre.len() as usize)
}

/// `post` extends `pre` with new nodes only, all of them descendants of
/// `parent`: old nodes are untouched but for `parent`'s grown child list,
/// whose new entries all name new nodes.
pub open spec fn extended_under(pre: Seq<Node>, post: Seq<Node>, parent: int) -> bool {
    &&& pre.len() <= post.len()
    &&& 0 <= parent < pre.len()
    &&& forall|j: int| 0 <= j < pre.len() ==> (#[trigger] post[j]).ntype == pre[j].ntype
    &&& forall|j: int|
        0 <= j < pre.len() && j != parent ==> (#[trigger] post[j]).children@ == pre[j].children@
    &&& pre[parent].children@.is_prefix_of(post[parent].children@)
    &&& forall|k: int|
        pre[parent].children@.len() <= k < post[parent].children@.len() ==> pre.len() <= (
        #[trigger] post[parent].children@[k]) < post.len()
}

/// `post` extends `pre` with exactly one new subtree, rooted at the old
/// length and registered as one new child of `parent`.
pub open spec fn grown_under(pre: Seq<Node>, post: Seq<Node>, parent: int, root: int) -> bool {
    &&& extended_under(pre, post, parent)
    &&& root == pre.len()
    &&& pre.len() < post.len()
    &&& post[parent].children@ == pre[parent].children@.push(pre.len() as usize)
}

/// A subtree rooted among unchanged nodes keeps its abstract tree.
pub proof fn lemma_abs_frame(pre: Seq<Node>, post: Seq<Node>, i: int)
    requires
        forall|j: int| 0 <= j < pre.len() ==> children_ok(pre, j),
        nodes_frozen(pre, post, i),
        0 <= i < pre.len(),
    ensures
        abs_node(post, i) == abs_node(pre, i),
    decreases pre.len() - i, pre[i].children@.len() + 1,
{
    assert(post[i].children@ == pre[i].children@);
    assert(children_ok(pre, i));
    assert(forall|k: int|
        0 <= k < pre[i].children@.len() ==> i < #[trigger] pre[i].children@[k] < pre.len());
    lemma_abs_list_frame(pre, post, i, pre[i].children@);
}

/// Companion of [`lemma_abs_frame`] for child lists: the node at `lo`
/// itself may have changed, only the nodes above it must stand still.
pub proof fn lemma_abs_list_frame(pre: Seq<Node>, post: Seq<Node>, lo: int, cs: Seq<usize>)
    requires
        forall|j: int| 0 <= j < pre.len() ==> children_ok(pre, j),
        nodes_frozen(pre, post, lo + 1),
        0 <= lo,
        forall|k: int| 0 <= k < cs.len() ==> lo < #[trigger] cs[k] < pre.len(),
    ensures
        abs_list(post, lo, cs) == abs_list(pre, lo, cs),
    decreases pre.len() - lo, cs.len(),
{
    if cs.len() > 0 {
        let c: int = cs[0] as int;
        assert(post[pre.len() - 1].ntype == pre[pre.len() - 1].ntype);
        assert(pre.len() <= post.len());
        assert(nodes_frozen(pre, post, c));
        lemma_abs_frame(pre, post, c);
        let ct = cs.drop_first();
        assert(forall|k: int| 0 <= k < ct.len() ==> lo < #[trigger] ct[k] < pre.len());
        lemma_abs_list_frame(pre, post, lo, ct);
    }
}

/// A fresh node appended under the cursor is one grown subtree.
pub proof fn lemma_appended_grown(pre: Seq<Node>, post: Seq<Node>, parent: int)
    requires
        forall|j: int| 0 <= j < pre.len() ==> children_ok(pre, j),
        appended_node(pre, post, parent),
        pre.len() <= usize::MAX,
    ensures
        grown_under(pre, post, parent, pre.len() as int),
{
    assert(pre.len() as usize as int == pre.len());
    let pch = pre[parent].children@;
    let qch = post[parent].children@;
    assert(qch == pch.push(pre.len() as usize));
    assert(pch =~= qch.subrange(0, pch.len() as int));
    assert(pch.is_prefix_of(qch));
    assert(forall|k: int|
        pch.len() <= k < qch.len() ==> pre.len() <= #[trigger] qch[k] < post.len());
}

/// Growing strictly under one parent twice grows under it once.
pub proof fn lemma_extended_trans(a: Seq<Node>, b: Seq<Node>, c: Seq<Node>, parent: int)
    requires
        extended_under(a, b, parent),
        extended_under(b, c, parent),
    ensures
        extended_under(a, c, parent),
{
    let ach = a[parent].children@;
    let bch = b[parent].children@;
    let cch = c[parent].children@;
    assert(forall|j: int| 0 <= j < a.len() ==> (#[trigger] c[j]).ntype == b[j].ntype);
    assert(forall|j: int|
        0 <= j < a.len() && j != parent ==> (#[trigger] c[j]).children@ == b[j].children@);
    assert(forall|k: int| 0 <= k < ach.len() ==> ach[k] == bch[k]);
    assert(forall|k: int| 0 <= k < bch.len() ==> bch[k] == cch[k]);
    assert(ach =~= cch.subrange(0, ach.len() as int));
    assert(ach.is_prefix_of(cch));
    assert forall|k: int| ach.len() <= k < cch.len() implies a.len() <= (#[trigger] cch[k])
        < c.len() by {
        if k < bch.len() {
            assert(cch[k] == bch[k]);
            assert(a.len() <= bch[k] < b.len());
        } else {
            assert(b.len() <= cch[k] < c.len());
            assert(a.len() <= b.len());
        }
    }
}

/// Appending a child index appends its abstract tree.
pub proof fn lemma_abs_list_push(nodes: Seq<Node>, lo: int, cs: Seq<usize>, c: usize)
    requires
        lo < c < nodes.len(),
    ensures
        abs_list(nodes, lo, cs.push(c)) == abs_list(nodes, lo, cs) + seq![
            abs_node(nodes, c as int),
        ],
    decreases cs.len(),
{
    if cs.len() == 0 {
        let e: Seq<usize> = Seq::empty();
        assert(cs.push(c).drop_first() =~= e);
        assert(abs_list(nodes, lo, e) == Seq::<Ast>::empty());
        assert(cs =~= e);
        assert(cs.push(c)[0] == c);
        assert(abs_list(nodes, lo, cs.push(c)) == seq![abs_node(nodes, c as int)] + abs_list(
            nodes,
            lo,
            e,
        ));
        assert(abs_list(nodes, lo, cs.push(c)) =~= abs_list(nodes, lo, cs) + seq![
            abs_node(nodes, c as int),
        ]);
    } else {
        let ct = cs.drop_first();
        assert(cs.push(c).drop_first() =~= ct.push(c));
        lemma_abs_list_push(nodes, lo, ct, c);
        assert(cs.push(c)[0] == cs[0]);
        if lo < cs[0] < nodes.len() {
            assert(abs_list(nodes, lo, cs.push(c)) == seq![abs_node(nodes, cs[0] as int)]
                + abs_list(nodes, lo, ct.push(c)));
            assert(abs_list(nodes, lo, cs) == seq![abs_node(nodes, cs[0] as int)] + abs_list(
                nodes,
                lo,
                ct,
            ));
            assert(abs_list(nodes, lo, cs.push(c)) =~= abs_list(nodes, lo, cs) + seq![
                abs_node(nodes, c as int),
            ]);
        } else {
            assert(abs_list(nodes, lo, cs.push(c)) == abs_list(nodes, lo, ct.push(c)));
            assert(abs_list(nodes, lo, cs) == abs_list(nodes, lo, ct));
        }
    }
}

/// In a well-formed arena a child list's abstract trees line up with its
/// entries, one each.
pub proof fn lemma_abs_list_index(nodes: Seq<Node>, lo: int, cs: Seq<usize>)
    requires
        forall|k: int| 0 <= k < cs.len() ==> lo < #[trigger] cs[k] < nodes.len(),
    ensures
        abs_list(nodes, lo, cs).len() == cs.len(),
        forall|k: int|
            0 <= k < cs.len() ==> #[trigger] abs_list(nodes, lo, cs)[k] == abs_node(
                nodes,
                cs[k] as int,
            ),
    decreases cs.len(),
{
    if cs.len() > 0 {
        lemma_abs_list_index(nodes, lo, cs.drop_first());
        assert(forall|k: int|
            0 < k < cs.len() ==> #[trigger] abs_list(nodes, lo, cs)[k] == abs_list(
                nodes,
                lo,
                cs.drop_first(),
            )[k - 1]);
    }
}

/// Appending a fresh node under a live parent preserves well-formedness.
pub proof fn lemma_wf_append(pre: Seq<Node>, post: Seq<Node>, parent: int)
    requires
        wf_nodes(pre),
        appended_node(pre, post, parent),
        pre.len() <= usize::MAX,
    ensures
        wf_nodes(post),
{
    let n: int = pre.len() as int;
    let fresh: usize = pre.len() as usize;
    assert(fresh as int == n);
    assert(post[parent].children@ == pre[parent].children@.push(fresh));
    assert(post[parent].children@.len() == pre[parent].children@.len() + 1);
    assert(post[parent].children@[pre[parent].children@.len() as int] == fresh);
    assert(forall|k: int|
        0 <= k < pre[parent].children@.len() ==> #[trigger] post[parent].children@[k]
            == pre[parent].children@[k]);
    assert forall|i: int| 0 <= i < post.len() implies children_ok(post, i) by {
        if i < n {
            assert(children_ok(pre, i));
            if i == parent {
                assert forall|k: int| 0 <= k < post[i].children@.len() implies i
                    < #[trigger] post[i].children@[k] < post.len() by {
                    if k < pre[i].children@.len() {
                        assert(post[i].children@[k] == pre[i].children@[k]);
                    } else {
                        assert(post[i].children@[k] == fresh);
                    }
                }
            } else {
                assert(post[i].children@ == pre[i].children@);
            }
        } else {
            assert(post[i].children@.len() == 0);
        }
    }
    assert forall|i1: int, k1: int, i2: int, k2: int|
        0 <= i1 < post.len() && 0 <= k1 < post[i1].children@.len() && 0 <= i2 < post.len() && 0
            <= k2 < post[i2].children@.len() && #[trigger] post[i1].children@[k1]
            == #[trigger] post[i2].children@[k2] implies i1 == i2 && k1 == k2 by {
        assert(i1 < post.len() - 1 || post[i1].children@.len() == 0);
        assert(i1 < n && i2 < n);
        let new_child1 = i1 == parent && k1 == pre[parent].children@.len();
        let new_child2 = i2 == parent && k2 == pre[parent].children@.len();
        if !new_child1 {
            assert(k1 < pre[i1].children@.len());
            assert(post[i1].children@[k1] == pre[i1].children@[k1]);
            assert(children_ok(pre, i1));
            assert(pre[i1].children@[k1] < n);
        }
        if !new_child2 {
            assert(k2 < pre[i2].children@.len());
            assert(post[i2].children@[k2] == pre[i2].children@[k2]);
            assert(children_ok(pre, i2));
            assert(pre[i2].children@[k2] < n);
        }
        if new_child1 && !new_child2 {
            assert(post[i1].children@[k1] == fresh);
            assert(false);
        }
        if !new_child1 && new_child2 {
            assert(post[i2].children@[k2] == fresh);
            assert(false);
        }
        if !new_child1 && !new_child2 {
            assert(pre[i1].children@[k1] == pre[i2].children@[k2]);
        }
    }
}

/// The arena tree: an index-addressed node store and the insertion cursor.
pub struct ASTTree {
    nodes: Vec<Node>,
    cursor: usize,
}

impl View for ASTTree {
    type V = Seq<Node>;

    closed spec fn view(&self) -> Seq<Node> {
        self.nodes@
    }
}

impl ASTTree {
    /// The current insertion index.
    pub closed spec fn spec_cursor(self) -> int {
        self.cursor as int
    }

    /// The arena's length fits the index type: it is a vector's length.
    pub proof fn len_bound(&self)
        ensures
            self@.len() <= usize::MAX,
    {
        vstd::std_specs::vec::axiom_spec_len(&self.nodes);
    }

    /// A well-formed tree: a well-formed arena and a live cursor.
    pub open spec fn wf(self) -> bool {
        &&& wf_nodes(self@)
        &&& 0 <= self.spec_cursor() < self@.len()
    }

    /// A tree holding a single `Group` root; the cursor names it.
    pub fn new() -> (t: Self)
        ensures
            t.wf(),
            t@.len() == 1,
            t@[0].ntype is Group,
            t@[0].children@ == Seq::<usize>::empty(),
            t.spec_cursor() == 0,
    {
        let mut nodes: Vec<Node> = Vec::new();
        nodes.push(Node { ntype: NodeType::Group, children: Vec::new() });
        let t = ASTTree { nodes, cursor: 0 };
        proof {
            assert(t@.len() == 1);
            assert(t@[0].children@.len() == 0);
            assert(forall|i: int| 0 <= i < t@.len() ==> children_ok(t@, i));
        }
        t
    }

    /// The current insertion index.
    pub fn get_index(&self) -> (i: usize)
        ensures
            i as int == self.spec_cursor(),
    {
        self.cursor
    }

    /// Moves the cursor to `i`; a stale index is reported, never applied.
    pub fn change_index(&mut self, i: usize) -> (r: Result<(), ErrorCases>)
        ensures
            final(self)@ == old(self)@,
            (i as int) < old(self)@.len() ==> r is Ok && final(self).spec_cursor() == i as int,
            (i as int) >= old(self)@.len() ==> (r matches Err(e) && e is InternalError) && final(self).spec_cursor() == old(self).spec_cursor(),
    {
        if i < self.nodes.len() {
            self.cursor = i;
            Ok(())
        } else {
            Err(ErrorCases::InternalError)
        }
    }

    /// Appends a new childless node as the last child of the node at the
    /// cursor and returns its index; a stale cursor is reported.
    pub fn new_node(&mut self, ntype: NodeType) -> (r: Result<usize, ErrorCases>)
        ensures
            old(self).spec_cursor() < old(self)@.len() ==> {
                &&& r matches Ok(idx) && idx as int == old(self)@.len()
                &&& appended_node(old(self)@, final(self)@, old(self).spec_cursor())
                &&& final(self)@[old(self)@.len() as int].ntype == ntype
                &&& final(self).spec_cursor() == old(self).spec_cursor()
                &&& (wf_nodes(old(self)@) ==> wf_nodes(final(self)@))
            },
            old(self).spec_cursor() >= old(self)@.len() ==> (r matches Err(e)
                && e is InternalError) && final(self)@ == old(self)@ && final(self).spec_cursor()
                == old(self).spec_cursor(),
    {
        let c = self.cursor;
        if c < self.nodes.len() {
            let idx = self.nodes.len();
            self.nodes.push(Node { ntype, children: Vec::new() });
            self.nodes[c].children.push(idx);
            proof {
                assert(appended_node(old(self)@, self@, c as int));
                if wf_nodes(old(self)@) {
                    lemma_wf_append(old(self)@, self@, c as int);
                }
            }
            Ok(idx)
        } else {
            Err(ErrorCases::InternalError)
        }
    }

    /// Replaces the tag of the node at `i`, leaving the shape alone. The
    /// builder uses it to fill in a suffix or charge that the text reveals
    /// only after the node's children are parsed.
    pub(crate) fn set_nodetype(&mut self, i: usize, ntype: NodeType) -> (r: Result<
        (),
        ErrorCases,
    >)
        ensures
            0 < (i as int) && (i as int) < old(self)@.len() ==> {
                &&& r is Ok
                &&& final(self)@.len() == old(self)@.len()
                &&& final(self)@[i as int].ntype == ntype
                &&& final(self)@[i as int].children@ == old(self)@[i as int].children@
                &&& forall|j: int|
                    0 <= j < old(self)@.len() && j != i as int ==> (#[trigger] final(self)@[j])
                        == old(self)@[j]
                &&& final(self).spec_cursor() == old(self).spec_cursor()
                &&& (wf_nodes(old(self)@) ==> wf_nodes(final(self)@))
            },
            !(0 < (i as int) && (i as int) < old(self)@.len()) ==> (r matches Err(e) && e is InternalError)
                && final(self)@ == old(self)@ && final(self).spec_cursor() == old(self).spec_cursor(),
    {
        if 0 < i && i < self.nodes.len() {
            self.nodes[i].ntype = ntype;
            proof {
                if wf_nodes(old(self)@) {
                    assert(self@[0].ntype == old(self)@[0].ntype);
                    assert(forall|j: int|
                        0 <= j < self@.len() ==> (#[trigger] self@[j]).children@ == old(self)@[j].children@);
                    assert forall|j: int| 0 <= j < self@.len() implies children_ok(self@, j) by {
                        assert(children_ok(old(self)@, j));
                    }
                }
            }
            Ok(())
        } else {
            Err(ErrorCases::InternalError)
        }
    }
}

impl ASTTree {
    /// Reduces the tree into its element-count mapping: exactly the checked
    /// depth-first evaluation [`eval_node`] of the tree's abstract form,
    /// started at the root with multiplier one and an empty mapping; an
    /// arithmetic step outside the coefficient range is reported as a parse
    /// failure.
    pub fn to_atomdict(&self) -> (r: Result<AtomDict, ErrorCases>)
        requires
            self.wf(),
        ensures
            match eval_node(abs_node(self@, 0), 1, Seq::<(Seq<u8>, int)>::empty()) {
                Some(d) => r matches Ok(ad) && ad@ == d,
                None => r matches Err(e) && e is ParserError,
            },
    {
        let mut ad = AtomDict::new();
        match Self::reduce(&self.nodes, 0, 1, &mut ad) {
            Ok(()) => Ok(ad),
            Err(e) => Err(e),
        }
    }

    /// One node of the depth-first walk: multiplies the accumulated
    /// multiplier into the node's own coefficient, books a nonzero charge
    /// under the charge ledger key, and recurses into the children.
    fn reduce(nodes: &Vec<Node>, i: usize, mult: i32, ad: &mut AtomDict) -> (r: Result<
        (),
        ErrorCases,
    >)
        requires
            wf_nodes(nodes@),
            i < nodes@.len(),
        ensures
            match eval_node(abs_node(nodes@, i as int), mult as int, old(ad)@) {
                Some(d) => r is Ok && final(ad)@ == d,
                None => r matches Err(e) && e is ParserError,
            },
        decreases nodes@.len() - i, 1int,
    {
        let ghost a = abs_node(nodes@, i as int);
        match &nodes[i].ntype {
            NodeType::Atom(name, count) => {
                match mult.checked_mul(*count) {
                    Some(prod) => ad.add(name, prod),
                    None => Err(ErrorCases::ParserError("[AtomDict] count overflow".to_owned())),
                }
            },
            NodeType::Molecule(prefix, charge) => {
                match mult.checked_mul(*prefix) {
                    Some(nm) => {
                        if *charge != 0 {
                            match nm.checked_mul(*charge) {
                                Some(ch) => {
                                    let mut key: Vec<u8> = Vec::new();
                                    key.push(101);
                                    proof {
                                        assert(key@ =~= electron_key());
                                    }
                                    match ad.add(&key, ch) {
                                        Ok(()) => Self::reduce_children(nodes, i, nm, ad),
                                        Err(e) => Err(e),
                                    }
                                },
                                None => Err(
                                    ErrorCases::ParserError(
                                        "[AtomDict] charge overflow".to_owned(),
                                    ),
                                ),
                            }
                        } else {
                            Self::reduce_children(nodes, i, nm, ad)
                        }
                    },
                    None => Err(
                        ErrorCases::ParserError("[AtomDict] multiplier overflow".to_owned()),
                    ),
                }
            },
            NodeType::ParenthesisWrapper(suffix) => {
                match mult.checked_mul(*suffix) {
                    Some(nm) => Self::reduce_children(nodes, i, nm, ad),
                    None => Err(
                        ErrorCases::ParserError("[AtomDict] multiplier overflow".to_owned()),
                    ),
                }
            },
            NodeType::Group => Self::reduce_children(nodes, i, mult, ad),
        }
    }

    /// The walk over a node's children, threading the mapping through.
    fn reduce_children(nodes: &Vec<Node>, i: usize, mult: i32, ad: &mut AtomDict) -> (r: Result<
        (),
        ErrorCases,
    >)
        requires
            wf_nodes(nodes@),
            i < nodes@.len(),
        ensures
            match eval_parts(
                abs_list(nodes@, i as int, nodes@[i as int].children@),
                0,
                mult as int,
                old(ad)@,
            ) {
                Some(d) => r is Ok && final(ad)@ == d,
                None => r matches Err(e) && e is ParserError,
            },
        decreases nodes@.len() - i, 0int,
    {
        let ghost parts = abs_list(nodes@, i as int, nodes@[i as int].children@);
        proof {
            assert(children_ok(nodes@, i as int));
            lemma_abs_list_index(nodes@, i as int, nodes@[i as int].children@);
        }
        let n = nodes[i].children.len();
        let mut k: usize = 0;
        while k < n
            invariant
                wf_nodes(nodes@),
                i < nodes@.len(),
                n == nodes@[i as int].children@.len(),
                0 <= k <= n,
                parts == abs_list(nodes@, i as int, nodes@[i as int].children@),
                parts.len() == n,
                forall|j: int|
                    0 <= j < n ==> #[trigger] parts[j] == abs_node(
                        nodes@,
                        nodes@[i as int].children@[j] as int,
                    ),
                eval_parts(parts, 0, mult as int, old(ad)@) == eval_parts(
                    parts,
                    k as int,
                    mult as int,
                    ad@,
                ),
            decreases n - k,
        {
            let c = nodes[i].children[k];
            proof {
                assert(children_ok(nodes@, i as int));
                assert((i as int) < c < nodes@.len());
            }
            match Self::reduce(nodes, c, mult, ad) {
                Ok(()) => {},
                Err(e) => {
                    return Err(e);
                },
            }
            k += 1;
        }
        Ok(())
    }
}

} // verus!

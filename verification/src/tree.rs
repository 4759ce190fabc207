//! A box as a tree of nodes, each with its color, multiplicity and children.
use crate::canon::{all_inv, child_boxes, views};
use crate::model::{all_trees, children, flatten, is_forest, is_tree, lemma_tree_split, Row};
use crate::natural::Natural;
use crate::value::BoxValue;
use crate::variant::BoxVariant;
use crate::{BoxType, Color};
use vstd::prelude::*;

verus! {

/// A node of a box: its color, multiplicity and children.
#[derive(Debug, PartialEq, Eq)]
pub struct TreeNode {
    pub color: Color,
    pub multiplicity: Natural,
    pub children: Vec<TreeNode>,
}

/// The node describes the box with rows `t`: the colors and multiplicities agree all the
/// way down, and each node has as many children as the box.
pub open spec fn describes(n: TreeNode, t: Seq<Row>) -> bool
    decreases n,
{
    &&& t.len() > 0
    &&& n.color == t[0].color
    &&& n.multiplicity@ == t[0].mult
    &&& n.children@.len() == children(t).len()
    &&& forall|i: int|
        0 <= i < n.children@.len() ==> #[trigger] describes_child(n, i, children(t)[i])
}

/// The `i`-th child of the node describes the box with rows `t`.
pub open spec fn describes_child(n: TreeNode, i: int, t: Seq<Row>) -> bool
    decreases n, 0int,
{
    if 0 <= i < n.children@.len() {
        describes(n.children@[i], t)
    } else {
        false
    }
}

impl TreeNode {
    pub fn new(color: Color, multiplicity: usize, children: Vec<TreeNode>) -> (r: Self)
        ensures
            r.color == color,
            r.multiplicity@ == multiplicity,
            r.children@ == children@,
    {
        TreeNode { color, multiplicity: Natural::from_u64(multiplicity as u64), children }
    }

    pub fn leaf(color: Color, multiplicity: usize) -> (r: Self)
        ensures
            r.color == color,
            r.multiplicity@ == multiplicity,
            r.children@.len() == 0,
    {
        Self::new(color, multiplicity, Vec::new())
    }

    /// The tree of a box.
    pub fn from_box<T: BoxType>(value: &BoxValue<T>) -> (r: Self)
        requires
            value.wf(),
        ensures
            describes(r, value@),
        decreases value@.len(),
    {
        proof {
            lemma_tree_split(value@);
            crate::mul::lemma_child_lens(children(value@));
        }
        let color = value.get_color(0);
        let multiplicity = value.get_multiplicity(0);
        let cs = child_boxes(value);
        let ghost vc = views(cs@);
        let mut nodes: Vec<TreeNode> = Vec::new();
        let mut i: usize = 0;
        while i < cs.len()
            invariant
                vc == views(cs@),
                vc == children(value@),
                all_inv(cs@),
                all_trees(vc),
                forall|k: int| 0 <= k < vc.len() ==> (#[trigger] vc[k]).len() < value@.len(),
                i <= cs@.len(),
                nodes@.len() == i,
                forall|k: int| 0 <= k < i ==> describes(#[trigger] nodes@[k], vc[k]),
            decreases cs@.len() - i,
        {
            proof {
                assert(cs@[i as int].inv());
                assert(is_tree(vc[i as int]));
                assert(views(cs@)[i as int] == cs@[i as int]@);
                assert(vc[i as int].len() < value@.len());
            }
            let node = TreeNode::from_box(&cs[i]);
            let ghost old_nodes = nodes@;
            nodes.push(node);
            proof {
                assert forall|k: int| 0 <= k < i + 1 implies describes(#[trigger] nodes@[k], vc[k]) by {
                    if k < i {
                        assert(nodes@[k] == old_nodes[k]);
                    }
                }
            }
            i = i + 1;
        }
        let r = TreeNode { color, multiplicity, children: nodes };
        proof {
            assert forall|k: int| 0 <= k < r.children@.len() implies #[trigger] describes_child(
                r,
                k,
                children(value@)[k],
            ) by {
                assert(describes(r.children@[k], vc[k]));
            }
        }
        r
    }

    /// The tree of a variant.
    pub fn from_variant(value: &BoxVariant) -> (r: Self)
        requires
            value.wf(),
        ensures
            describes(r, value@),
    {
        match value {
            BoxVariant::Any(v) => TreeNode::from_box(v),
            BoxVariant::Empty(v) => TreeNode::from_box(v),
            BoxVariant::Num(v) => TreeNode::from_box(v),
            BoxVariant::Polynum(v) => TreeNode::from_box(v),
            BoxVariant::Multinum(v) => TreeNode::from_box(v),
            BoxVariant::Unixel(v) => TreeNode::from_box(v),
            BoxVariant::Vexel(v) => TreeNode::from_box(v),
            BoxVariant::Pixel(v) => TreeNode::from_box(v),
            BoxVariant::Maxel(v) => TreeNode::from_box(v),
            BoxVariant::SetBox(v) => TreeNode::from_box(v),
            BoxVariant::List(v) => TreeNode::from_box(v),
        }
    }
}

/// Whether the rows `start..end` form one box.
fn check_tree<T: BoxType>(v: &BoxValue<T>, start: usize, end: usize) -> (r: bool)
    requires
        v.inv(),
        start <= end <= v@.len(),
    ensures
        r == is_tree(v@.subrange(start as int, end as int)),
    decreases end - start, 0int,
{
    let ghost s = v@.subrange(start as int, end as int);
    if start == end {
        return false;
    }
    proof {
        assert(s[0] == v@[start as int]);
        assert(s.drop_first() =~= v@.subrange(start + 1, end as int));
    }
    if v.lengths[start] as usize != end - start {
        return false;
    }
    check_forest(v, start + 1, end)
}

/// Whether the rows `start..end` form boxes one after the other.
fn check_forest<T: BoxType>(v: &BoxValue<T>, start: usize, end: usize) -> (r: bool)
    requires
        v.inv(),
        start <= end <= v@.len(),
    ensures
        r == is_forest(v@.subrange(start as int, end as int)),
    decreases end - start, 1int,
{
    let ghost s = v@.subrange(start as int, end as int);
    if start == end {
        return true;
    }
    let k = v.lengths[start] as usize;
    proof {
        assert(s[0] == v@[start as int]);
    }
    if k < 1 || k > end - start {
        return false;
    }
    proof {
        assert(s.take(k as int) =~= v@.subrange(start as int, (start + k) as int));
        assert(s.skip(k as int) =~= v@.subrange((start + k) as int, end as int));
    }
    check_tree(v, start, start + k) && check_forest(v, start + k, end)
}

impl<T: BoxType> BoxValue<T> {
    /// Whether the rows form one box.
    pub fn is_box(&self) -> (r: bool)
        ensures
            r == self.wf(),
    {
        let n = self.kinds.len();
        if self.colors.len() != n || self.multiplicities.len() != n || self.lengths.len() != n {
            return false;
        }
        proof {
            assert(self@.subrange(0, n as int) =~= self@);
        }
        check_tree(self, 0, n)
    }
}

impl<T: BoxType> From<BoxValue<T>> for TreeNode {
    /// The tree of a box; rows that do not form a box give a black leaf of multiplicity zero.
    fn from(value: BoxValue<T>) -> (r: Self)
        ensures
            value.wf() ==> describes(r, value@),
            !value.wf() ==> r.color == Color::Black && r.multiplicity@ == 0 && r.children@.len() == 0,
    {
        if value.is_box() {
            TreeNode::from_box(&value)
        } else {
            TreeNode::leaf(Color::Black, 0)
        }
    }
}

impl<T: BoxType> vstd::std_specs::convert::FromSpecImpl<BoxValue<T>> for TreeNode {
    open spec fn obeys_from_spec() -> bool {
        false
    }

    open spec fn from_spec(v: BoxValue<T>) -> Self {
        arbitrary()
    }
}

impl From<BoxVariant> for TreeNode {
    /// The tree of a variant; rows that do not form a box give a black leaf of multiplicity zero.
    fn from(value: BoxVariant) -> (r: Self)
        ensures
            value.wf() ==> describes(r, value@),
            !value.wf() ==> r.color == Color::Black && r.multiplicity@ == 0 && r.children@.len() == 0,
    {
        let raw = value.into_any_raw();
        if raw.is_box() {
            TreeNode::from_box(&raw)
        } else {
            TreeNode::leaf(Color::Black, 0)
        }
    }
}

impl vstd::std_specs::convert::FromSpecImpl<BoxVariant> for TreeNode {
    open spec fn obeys_from_spec() -> bool {
        false
    }

    open spec fn from_spec(v: BoxVariant) -> Self {
        arbitrary()
    }
}

} // verus!

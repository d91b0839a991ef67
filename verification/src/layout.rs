//! Where the picture of the tree puts each node: nodes are drawn level by
//! level, each level spread evenly across the picture, each node joined by
//! a line to a point of the level above.

use vstd::prelude::*;
use std::collections::HashMap;
use crate::link_tree::LinkTreeNode;

verus! {

/// The diameter of a node's circle, and the width each unit of `width`
/// gives the picture.
pub const NODE_SIZE: u32 = 40;

/// The radius of a node's circle.
pub const RADIUS: u32 = 20;

/// How far the text of an id stands left of and above its node's center.
pub const TEXT_OFFSET: u32 = 7;

/// The drawing state between nodes: depth of the last level entered, the
/// horizontal step on the current level, the next center, and the point
/// that lines start from.
pub struct Cursor {
    pub depth: u32,
    pub x_step: u32,
    pub center_x: u32,
    pub center_y: u32,
    pub from_x: u32,
    pub from_y: u32,
}

/// Where one node is drawn.
pub struct NodeMark {
    pub id: u32,
    pub center_x: u32,
    pub center_y: u32,
    pub from_x: u32,
    pub from_y: u32,
    pub text_x: u32,
    pub text_y: u32,
}

/// The picture of the tree: its size, the circles' radius and every node.
pub struct TreePicture {
    pub img_width: u32,
    pub img_height: u32,
    pub radius: u32,
    pub marks: Vec<NodeMark>,
}

/// The state before the first node of a picture `img_width` wide.
pub open spec fn start_cursor(img_width: u32) -> Cursor {
    Cursor {
        depth: 0,
        x_step: img_width / 2,
        center_x: img_width / 2,
        center_y: RADIUS,
        from_x: img_width / 2,
        from_y: RADIUS,
    }
}

/// The state once a node at `depth` is reached: entering a level that
/// `levels` gives a count for moves down by four radii, spreads that many
/// nodes plus one step over the width, and starts the lines at the last
/// center; `None` where a value leaves the range of `u32`.
pub open spec fn enter(c: Cursor, depth: u32, img_width: u32, levels: Map<u32, u32>) -> Option<Cursor> {
    if depth == c.depth {
        Some(c)
    } else if !levels.contains_key(depth) {
        Some(Cursor { depth, ..c })
    } else {
        let count = levels[depth];
        if c.center_x < c.x_step || count == u32::MAX || c.center_y + 4 * RADIUS > u32::MAX {
            None
        } else {
            let step = (img_width as int / (count + 1)) as u32;
            Some(Cursor {
                depth,
                x_step: step,
                center_x: step,
                center_y: (c.center_y + 4 * RADIUS) as u32,
                from_x: (c.center_x - c.x_step) as u32,
                from_y: c.center_y,
            })
        }
    }
}

/// The mark of node `id` at `depth` and the state after it; `None` where a
/// value leaves the range of `u32`.
pub open spec fn place(c: Cursor, id: u32, depth: u32, img_width: u32, levels: Map<u32, u32>) -> Option<(Cursor, NodeMark)> {
    match enter(c, depth, img_width, levels) {
        None => None,
        Some(e) => if e.center_x < TEXT_OFFSET || e.center_y < TEXT_OFFSET || e.center_x + e.x_step > u32::MAX {
            None
        } else {
            Some((
                Cursor { center_x: (e.center_x + e.x_step) as u32, ..e },
                NodeMark {
                    id,
                    center_x: e.center_x,
                    center_y: e.center_y,
                    from_x: e.from_x,
                    from_y: e.from_y,
                    text_x: (e.center_x - TEXT_OFFSET) as u32,
                    text_y: (e.center_y - TEXT_OFFSET) as u32,
                },
            ))
        },
    }
}

/// The marks of `nodes` (ids with depths), in order, and the final state.
pub open spec fn place_all(nodes: Seq<(u32, u32)>, img_width: u32, levels: Map<u32, u32>) -> Option<(Cursor, Seq<NodeMark>)>
    decreases nodes.len(),
{
    if nodes.len() == 0 {
        Some((start_cursor(img_width), Seq::empty()))
    } else {
        match place_all(nodes.drop_last(), img_width, levels) {
            None => None,
            Some((c, marks)) => match place(c, nodes.last().0, nodes.last().1, img_width, levels) {
                None => None,
                Some((c2, m)) => Some((c2, marks.push(m))),
            },
        }
    }
}

fn enter_exec(c: Cursor, depth: u32, img_width: u32, depth_map: &HashMap<u32, u32>) -> (r: Option<Cursor>)
    ensures
        r == enter(c, depth, img_width, depth_map@),
{
    broadcast use vstd::std_specs::hash::group_hash_axioms;
    if depth == c.depth {
        return Some(c);
    }
    match depth_map.get(&depth) {
        None => Some(Cursor { depth, ..c }),
        Some(count) => {
            let count: u32 = *count;
            if c.center_x < c.x_step || count == u32::MAX || c.center_y > u32::MAX - 4 * RADIUS {
                None
            } else {
                let step = img_width / (count + 1);
                Some(Cursor {
                    depth,
                    x_step: step,
                    center_x: step,
                    center_y: c.center_y + 4 * RADIUS,
                    from_x: c.center_x - c.x_step,
                    from_y: c.center_y,
                })
            }
        },
    }
}

fn place_exec(c: Cursor, id: u32, depth: u32, img_width: u32, depth_map: &HashMap<u32, u32>) -> (r: Option<(Cursor, NodeMark)>)
    ensures
        r == place(c, id, depth, img_width, depth_map@),
{
    match enter_exec(c, depth, img_width, depth_map) {
        None => None,
        Some(e) => {
            if e.center_x < TEXT_OFFSET || e.center_y < TEXT_OFFSET || e.center_x > u32::MAX - e.x_step {
                None
            } else {
                let mark = NodeMark {
                    id,
                    center_x: e.center_x,
                    center_y: e.center_y,
                    from_x: e.from_x,
                    from_y: e.from_y,
                    text_x: e.center_x - TEXT_OFFSET,
                    text_y: e.center_y - TEXT_OFFSET,
                };
                Some((Cursor { center_x: e.center_x + e.x_step, ..e }, mark))
            }
        },
    }
}

/// The picture of the tree at `root`: `width` units of 40 wide, `height`
/// units of 160 high, its nodes placed in breadth-first order with
/// `depth_map` giving how many nodes each level holds. `None` where a size
/// or a position leaves the range of `u32`.
pub fn tree_picture(root: &LinkTreeNode, width: u32, height: u32, depth_map: &HashMap<u32, u32>) -> (r: Option<TreePicture>)
    requires
        root.height() < u32::MAX,
    ensures
        width * NODE_SIZE > u32::MAX || height * NODE_SIZE * 4 > u32::MAX ==> r is None,
        width * NODE_SIZE <= u32::MAX && height * NODE_SIZE * 4 <= u32::MAX ==> {
            let order = LinkTreeNode::level_order(seq![*root], 0).map_values(|e: (nat, nat)| (e.0 as u32, e.1 as u32));
            match place_all(order, (width * NODE_SIZE) as u32, depth_map@) {
                None => r is None,
                Some((_, marks)) => r matches Some(p) && p.img_width == width * NODE_SIZE && p.img_height
                    == height * NODE_SIZE * 4 && p.radius == RADIUS && p.marks@ == marks,
            }
        },
{
    let img_width = match width.checked_mul(NODE_SIZE) {
        Some(v) => v,
        None => {
            return None;
        },
    };
    let column = match height.checked_mul(NODE_SIZE) {
        Some(v) => v,
        None => {
            return None;
        },
    };
    let img_height = match column.checked_mul(4) {
        Some(v) => v,
        None => {
            return None;
        },
    };
    let nodes = root.breadth_first();
    let ghost order = nodes@;
    assert(order =~= LinkTreeNode::level_order(seq![*root], 0).map_values(|e: (nat, nat)| (e.0 as u32, e.1 as u32))) by {
        assert forall|i: int| 0 <= i < order.len() implies order[i] == LinkTreeNode::level_order(seq![*root], 0).map_values(|e: (nat, nat)| (e.0 as u32, e.1 as u32))[i] by {
            assert(nodes@.map_values(|e: (u32, u32)| (e.0 as nat, e.1 as nat))[i] == (order[i].0 as nat, order[i].1 as nat));
        }
    }
    let mut cursor = Cursor {
        depth: 0,
        x_step: img_width / 2,
        center_x: img_width / 2,
        center_y: RADIUS,
        from_x: img_width / 2,
        from_y: RADIUS,
    };
    let mut marks: Vec<NodeMark> = Vec::new();
    let mut i: usize = 0;
    assert(order.take(0) =~= Seq::<(u32, u32)>::empty());
    while i < nodes.len()
        invariant
            i <= nodes.len(),
            order == nodes@,
            order == LinkTreeNode::level_order(seq![*root], 0).map_values(|e: (nat, nat)| (e.0 as u32, e.1 as u32)),
            img_width == width * NODE_SIZE,
            place_all(order.take(i as int), img_width, depth_map@) == Some((cursor, marks@)),
        decreases nodes.len() - i,
    {
        let (id, depth) = nodes[i];
        assert(order.take(i + 1).drop_last() =~= order.take(i as int));
        assert(order.take(i + 1).last() == (id, depth));
        match place_exec(cursor, id, depth, img_width, depth_map) {
            None => {
                proof {
                    lemma_place_all_stays_none(order, (i + 1) as int, img_width, depth_map@);
                }
                return None;
            },
            Some((c2, m)) => {
                cursor = c2;
                marks.push(m);
            },
        }
        i = i + 1;
    }
    assert(order.take(nodes.len() as int) =~= order);
    Some(TreePicture { img_width, img_height, radius: RADIUS, marks })
}

proof fn lemma_place_all_stays_none(order: Seq<(u32, u32)>, k: int, img_width: u32, levels: Map<u32, u32>)
    requires
        0 <= k <= order.len(),
        place_all(order.take(k), img_width, levels) is None,
    ensures
        place_all(order, img_width, levels) is None,
    decreases order.len() - k,
{
    if k < order.len() {
        assert(order.take(k + 1).drop_last() =~= order.take(k));
        lemma_place_all_stays_none(order, k + 1, img_width, levels);
    } else {
        assert(order.take(k) =~= order);
    }
}

} // verus!

verus! {

/// The state after placing `nodes` (where `place_all` gives one).
pub open spec fn placed_cursor(nodes: Seq<(u32, u32)>, img_width: u32, levels: Map<u32, u32>) -> Cursor {
    match place_all(nodes, img_width, levels) {
        Some((c, _)) => c,
        None => start_cursor(img_width),
    }
}

/// The marks of `nodes` (where `place_all` gives them).
pub open spec fn placed_marks(nodes: Seq<(u32, u32)>, img_width: u32, levels: Map<u32, u32>) -> Seq<NodeMark> {
    match place_all(nodes, img_width, levels) {
        Some((_, marks)) => marks,
        None => Seq::empty(),
    }
}

proof fn lemma_place_all_cursor(nodes: Seq<(u32, u32)>, img_width: u32, levels: Map<u32, u32>)
    requires
        place_all(nodes, img_width, levels) is Some,
    ensures
        ({
            let c = placed_cursor(nodes, img_width, levels);
            let marks = placed_marks(nodes, img_width, levels);
            &&& marks.len() == nodes.len()
            &&& nodes.len() > 0 ==> {
                &&& c.depth == nodes.last().1
                &&& c.center_y == marks.last().center_y
                &&& c.from_x == marks.last().from_x
                &&& c.from_y == marks.last().from_y
                &&& c.center_x == marks.last().center_x + c.x_step
            }
            &&& nodes.len() == 0 ==> c == start_cursor(img_width)
            &&& nodes.len() > 0 ==> place_all(nodes.drop_last(), img_width, levels) is Some
            &&& nodes.len() > 0 ==> marks.drop_last() == placed_marks(nodes.drop_last(), img_width, levels)
        }),
    decreases nodes.len(),
{
    if nodes.len() > 0 {
        lemma_place_all_cursor(nodes.drop_last(), img_width, levels);
        let marks = placed_marks(nodes, img_width, levels);
        let prev = placed_marks(nodes.drop_last(), img_width, levels);
        assert(marks.drop_last() =~= prev);
    }
}

/// How the picture's marks follow the nodes: each mark is its node's; the
/// first node, at depth 0, sits at the top center; a node on the same level
/// as the one before stays on its row and keeps its line's start; a node
/// that enters a level `levels` counts moves down four radii, onto the
/// column the level's count gives, and its line starts at the node placed
/// just before, on the level above; a node entering an uncounted level
/// stays as on the same level; and every id is written left of and above
/// its center.
pub proof fn lemma_marks_follow_levels(nodes: Seq<(u32, u32)>, img_width: u32, levels: Map<u32, u32>)
    requires
        place_all(nodes, img_width, levels) is Some,
    ensures
        ({
            let marks = placed_marks(nodes, img_width, levels);
            &&& marks.len() == nodes.len()
            &&& forall|i: int| 0 <= i < nodes.len() ==> {
                &&& (#[trigger] marks[i]).id == nodes[i].0
                &&& marks[i].text_x + TEXT_OFFSET == marks[i].center_x
                &&& marks[i].text_y + TEXT_OFFSET == marks[i].center_y
            }
            &&& nodes.len() > 0 && nodes[0].1 == 0 ==> {
                &&& marks[0].center_x == img_width / 2
                &&& marks[0].center_y == RADIUS
                &&& marks[0].from_x == img_width / 2
                &&& marks[0].from_y == RADIUS
            }
            &&& forall|i: int|
                0 < i < nodes.len() && (nodes[i].1 == nodes[i - 1].1 || !levels.contains_key(nodes[i].1)) ==> {
                    &&& (#[trigger] marks[i]).center_y == marks[i - 1].center_y
                    &&& marks[i].from_x == marks[i - 1].from_x
                    &&& marks[i].from_y == marks[i - 1].from_y
                }
            &&& forall|i: int|
                0 < i < nodes.len() && nodes[i].1 != nodes[i - 1].1 && levels.contains_key(nodes[i].1) ==> {
                    &&& (#[trigger] marks[i]).from_x == marks[i - 1].center_x
                    &&& marks[i].from_y == marks[i - 1].center_y
                    &&& marks[i].center_y == marks[i - 1].center_y + 4 * RADIUS
                    &&& marks[i].center_x == img_width as int / (levels[nodes[i].1] + 1)
                }
        }),
    decreases nodes.len(),
{
    lemma_place_all_cursor(nodes, img_width, levels);
    if nodes.len() > 0 {
        let pre = nodes.drop_last();
        lemma_marks_follow_levels(pre, img_width, levels);
        lemma_place_all_cursor(pre, img_width, levels);
        let marks = placed_marks(nodes, img_width, levels);
        let prev = placed_marks(pre, img_width, levels);
        let n = nodes.len() - 1;
        assert forall|i: int| 0 <= i < n implies #[trigger] marks[i] == prev[i] by {
            assert(marks.drop_last()[i] == marks[i]);
        }
        assert forall|i: int| 0 <= i < nodes.len() implies nodes[i] == (if i < n { pre[i] } else { nodes.last() }) by {
        }
    }
}

} // verus!

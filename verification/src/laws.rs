//! Laws of the router, proved over the model. The main one: re-inserting a
//! pattern replaces the terminal node's metadata and changes nothing else —
//! in particular the fast-path index keeps its size.
use crate::meta::MetaValue;
use crate::model::all_static;
use crate::model::bump_depths;
use crate::model::insert_descend;
use crate::model::insert_step;
use crate::model::insert_terminal;
use crate::model::node_in_bounds;
use crate::model::spec_insert;
use crate::model::spec_normalize;
use crate::model::InsertState;
use crate::model::RouteNodeView;
use crate::model::RouterView;
use crate::strutil::spec_split;
use vstd::prelude::*;

verus! {

/// An insertion-descent state whose links all land inside its arena.
pub open spec fn arena_ok(st: InsertState) -> bool {
    &&& st.nodes.len() >= 1
    &&& 0 <= st.cur < st.nodes.len()
    &&& (forall|j: int|
        0 <= j < st.nodes.len() ==> node_in_bounds(#[trigger] st.nodes[j], st.nodes.len() as int))
    &&& (forall|d: int| 0 <= d < st.matched.len() ==> 0 <= #[trigger] st.matched[d] < st.nodes.len())
}

/// Arena `b` still holds, with the same targets, every literal-child link
/// that the first `len` nodes of arena `a` hold.
pub open spec fn children_extend(a: Seq<RouteNodeView>, b: Seq<RouteNodeView>, len: int) -> bool {
    forall|j: int, k: Seq<char>|
        0 <= j < len && #[trigger] a[j].children.contains_key(k) ==> b[j].children.contains_key(k)
            && b[j].children[k] == a[j].children[k]
}

/// One descent step keeps the arena well-formed, only grows it, only extends
/// literal-child links, and leaves the stepped-from node's link to the next
/// node in place.
proof fn lemma_step_props(st: InsertState, seg: Seq<char>)
    requires
        arena_ok(st),
    ensures
        ({
            let st2 = insert_step(st, seg);
            &&& arena_ok(st2)
            &&& st2.nodes.len() >= st.nodes.len()
            &&& st2.matched == st.matched.push(st2.cur)
            &&& children_extend(st.nodes, st2.nodes, st.nodes.len() as int)
            &&& st2.nodes[st.cur].children.contains_key(seg)
            &&& st2.nodes[st.cur].children[seg] == st2.cur
        }),
{
    let st2 = insert_step(st, seg);
    if st.nodes[st.cur].children.contains_key(seg) {
        assert(node_in_bounds(st.nodes[st.cur], st.nodes.len() as int));
    } else {
        let len0 = st.nodes.len() as int;
        assert forall|j: int|
            0 <= j < st2.nodes.len() implies node_in_bounds(
            #[trigger] st2.nodes[j],
            st2.nodes.len() as int,
        ) by {
            if j < len0 && j != st.cur {
                assert(st2.nodes[j] == st.nodes[j]);
                assert(node_in_bounds(st.nodes[j], len0));
            }
            if j == st.cur {
                assert(node_in_bounds(st.nodes[st.cur], len0));
            }
        };
        assert(children_extend(st.nodes, st2.nodes, len0));
    }
}

/// The whole descent keeps the arena well-formed, only grows it, only
/// extends literal-child links, and only appends to the visited list.
proof fn lemma_descend_props(st: InsertState, segs: Seq<Seq<char>>, i: int)
    requires
        arena_ok(st),
    ensures
        ({
            let stf = insert_descend(st, segs, i);
            &&& arena_ok(stf)
            &&& stf.nodes.len() >= st.nodes.len()
            &&& children_extend(st.nodes, stf.nodes, st.nodes.len() as int)
            &&& stf.matched.len() >= st.matched.len()
            &&& stf.matched.take(st.matched.len() as int) == st.matched
        }),
    decreases segs.len() - i,
{
    let stf = insert_descend(st, segs, i);
    if 0 <= i < segs.len() {
        lemma_step_props(st, segs[i]);
        let stm = insert_step(st, segs[i]);
        lemma_descend_props(stm, segs, i + 1);
        assert forall|j: int, k: Seq<char>|
            0 <= j < st.nodes.len() && #[trigger] st.nodes[j].children.contains_key(
                k,
            ) implies stf.nodes[j].children.contains_key(k) && stf.nodes[j].children[k]
            == st.nodes[j].children[k] by {
            assert(stm.nodes[j].children.contains_key(k));
            assert(stm.nodes[j].children[k] == st.nodes[j].children[k]);
        };
        let m = st.matched.len() as int;
        assert(stm.matched.take(m) =~= st.matched);
        assert(stf.matched.take(m + 1) == stm.matched);
        assert(stf.matched.take(m) =~= stf.matched.take(m + 1).take(m));
        assert(stf.matched.take(m) =~= st.matched);
    } else {
        assert(stf.matched.take(st.matched.len() as int) =~= st.matched);
    }
}

/// Replaying the descent on an arena that already holds every literal-child
/// link the first run laid down creates nothing: it visits the same node
/// positions and leaves the arena untouched.
proof fn lemma_replay(st: InsertState, st2: InsertState, segs: Seq<Seq<char>>, i: int)
    requires
        arena_ok(st),
        st2.cur == st.cur,
        st2.nodes.len() == insert_descend(st, segs, i).nodes.len(),
        forall|j: int|
            0 <= j < st2.nodes.len() ==> (#[trigger] st2.nodes[j]).children == insert_descend(
                st,
                segs,
                i,
            ).nodes[j].children,
    ensures
        ({
            let stf = insert_descend(st, segs, i);
            let stf2 = insert_descend(st2, segs, i);
            &&& stf2.nodes == st2.nodes
            &&& stf2.cur == stf.cur
            &&& stf2.matched == st2.matched + stf.matched.skip(st.matched.len() as int)
        }),
    decreases segs.len() - i,
{
    let stf = insert_descend(st, segs, i);
    let stf2 = insert_descend(st2, segs, i);
    if !(0 <= i < segs.len()) {
        assert(stf2.matched =~= st2.matched + stf.matched.skip(st.matched.len() as int));
    } else {
        lemma_step_props(st, segs[i]);
        let stm = insert_step(st, segs[i]);
        lemma_descend_props(stm, segs, i + 1);
        assert(stf == insert_descend(stm, segs, i + 1));
        assert(stf.nodes[st.cur].children.contains_key(segs[i]));
        assert(stf.nodes[st.cur].children[segs[i]] == stm.cur);
        assert(st2.nodes[st2.cur].children.contains_key(segs[i]));
        assert(st2.nodes[st2.cur].children[segs[i]] == stm.cur);
        let st2m = insert_step(st2, segs[i]);
        assert(st2m.nodes == st2.nodes);
        assert(st2m.cur == stm.cur);
        assert(st2m.matched == st2.matched.push(stm.cur));
        lemma_replay(stm, st2m, segs, i + 1);
        let m = st.matched.len() as int;
        assert(stf.matched.take(m + 1) == stm.matched);
        assert(stm.matched[m] == stm.cur);
        assert(stf.matched.take(m + 1)[m] == stf.matched[m]);
        assert(stf.matched[m] == stm.cur);
        assert(stf2.matched == st2m.matched + stf.matched.skip(m + 1));
        assert(st2.matched.push(stm.cur) + stf.matched.skip(m + 1) =~= st2.matched
            + stf.matched.skip(m));
    }
}

/// Raising depths changes nothing but the visited nodes' `max_depth`, and
/// never lowers any `max_depth`.
proof fn lemma_bump_frame(nodes: Seq<RouteNodeView>, matched: Seq<int>, d: int)
    requires
        forall|e: int| 0 <= e < matched.len() ==> 0 <= #[trigger] matched[e] < nodes.len(),
    ensures
        ({
            let b = bump_depths(nodes, matched, d);
            &&& b.len() == nodes.len()
            &&& (forall|j: int|
                0 <= j < nodes.len() ==> {
                    let bn = #[trigger] b[j];
                    let n = nodes[j];
                    bn.children == n.children && bn.meta == n.meta && bn.kind == n.kind
                        && bn.parent == n.parent && bn.param_name == n.param_name
                        && bn.wildcard_child == n.wildcard_child && bn.placeholder_children
                        == n.placeholder_children && bn.max_depth >= n.max_depth
                })
        }),
    decreases matched.len() - d,
{
    if 0 <= d < matched.len() {
        let idx = matched[d];
        let n = nodes[idx];
        let remaining = matched.len() - d;
        let n2 = RouteNodeView {
            max_depth: if remaining > n.max_depth {
                remaining as int
            } else {
                n.max_depth
            },
            ..n
        };
        lemma_bump_frame(nodes.update(idx, n2), matched, d + 1);
    }
}

/// After raising depths from position `d`, every visited node's `max_depth`
/// is at least the count of positions remaining from its visit.
proof fn lemma_bump_raises(nodes: Seq<RouteNodeView>, matched: Seq<int>, d: int)
    requires
        0 <= d,
        forall|e: int| 0 <= e < matched.len() ==> 0 <= #[trigger] matched[e] < nodes.len(),
    ensures
        forall|e: int|
            d <= e < matched.len() ==> bump_depths(nodes, matched, d)[#[trigger] matched[e]].max_depth
                >= matched.len() - e,
    decreases matched.len() - d,
{
    if 0 <= d < matched.len() {
        let idx = matched[d];
        let n = nodes[idx];
        let remaining = matched.len() - d;
        let n2 = RouteNodeView {
            max_depth: if remaining > n.max_depth {
                remaining as int
            } else {
                n.max_depth
            },
            ..n
        };
        let upd = nodes.update(idx, n2);
        lemma_bump_raises(upd, matched, d + 1);
        lemma_bump_frame(upd, matched, d + 1);
        assert(bump_depths(nodes, matched, d)[idx].max_depth >= n2.max_depth);
    }
}

/// Raising depths where every visited node's `max_depth` already reaches its
/// remaining count changes nothing.
proof fn lemma_bump_noop(nodes: Seq<RouteNodeView>, matched: Seq<int>, d: int)
    requires
        0 <= d,
        forall|e: int| 0 <= e < matched.len() ==> 0 <= #[trigger] matched[e] < nodes.len(),
        forall|e: int|
            d <= e < matched.len() ==> nodes[#[trigger] matched[e]].max_depth >= matched.len() - e,
    ensures
        bump_depths(nodes, matched, d) == nodes,
    decreases matched.len() - d,
{
    if 0 <= d < matched.len() {
        let idx = matched[d];
        let n = nodes[idx];
        let remaining = matched.len() - d;
        assert(n.max_depth >= remaining);
        let n2 = RouteNodeView { max_depth: n.max_depth, ..n };
        assert(n2 =~= n);
        assert(nodes.update(idx, n2) =~= nodes);
        lemma_bump_noop(nodes, matched, d + 1);
        assert(bump_depths(nodes, matched, d) == bump_depths(nodes.update(idx, n2), matched, d + 1));
    }
}

/// Re-insertion idempotence: inserting the same pattern a second time, with
/// any other metadata, replaces the terminal node's metadata and changes
/// nothing else — the arena keeps its shape and the fast-path index is left
/// exactly as the first insertion left it, so its size is unchanged.
pub proof fn lemma_reinsert_replaces_metadata(
    rv: RouterView,
    path: Seq<char>,
    m1: Map<Seq<char>, MetaValue>,
    m2: Map<Seq<char>, MetaValue>,
)
    requires
        rv.wf(),
    ensures
        ({
            let rv1 = spec_insert(rv, path, m1);
            let rv2 = spec_insert(rv1, path, m2);
            let t = insert_terminal(rv, path);
            &&& rv2.static_routes == rv1.static_routes
            &&& rv1.nodes[t].meta == Some(m1)
            &&& rv2.nodes == rv1.nodes.update(
                t,
                RouteNodeView { meta: Some(m2), ..rv1.nodes[t] },
            )
        }),
{
    let strict = rv.strict;
    let norm = spec_normalize(path, strict);
    let segs = spec_split(norm, '/');
    let st0 = InsertState { nodes: rv.nodes, cur: 0, matched: seq![0int], ctr: 0 };
    assert(arena_ok(st0));
    let stf = insert_descend(st0, segs, 0);
    lemma_descend_props(st0, segs, 0);
    let t = stf.cur;
    lemma_bump_frame(stf.nodes, stf.matched, 0);
    lemma_bump_raises(stf.nodes, stf.matched, 0);
    let bumped = bump_depths(stf.nodes, stf.matched, 0);
    let rv1 = spec_insert(rv, path, m1);
    assert(rv1.nodes == bumped.update(t, RouteNodeView { meta: Some(m1), ..bumped[t] }));
    assert(rv1.nodes[t].meta == Some(m1));
    assert(rv1.strict == strict);

    let st0b = InsertState { nodes: rv1.nodes, cur: 0, matched: seq![0int], ctr: 0 };
    assert(rv1.nodes.len() == stf.nodes.len());
    assert forall|j: int|
        0 <= j < st0b.nodes.len() implies (#[trigger] st0b.nodes[j]).children == insert_descend(
        st0,
        segs,
        0,
    ).nodes[j].children by {
        assert(bumped[j].children == stf.nodes[j].children);
        if j != t {
            assert(rv1.nodes[j] == bumped[j]);
        }
    };
    lemma_replay(st0, st0b, segs, 0);
    let stf2 = insert_descend(st0b, segs, 0);
    assert(stf2.nodes == rv1.nodes);
    assert(stf2.cur == t);
    assert(stf.matched.take(1) == seq![0int]);
    assert(stf.matched.take(1)[0] == stf.matched[0]);
    assert(stf.matched[0] == 0int);
    assert(stf2.matched =~= stf.matched);

    assert forall|e: int|
        0 <= e < stf2.matched.len() implies rv1.nodes[#[trigger] stf2.matched[e]].max_depth
        >= stf2.matched.len() - e by {
        let idx = stf.matched[e];
        assert(bumped[idx].max_depth >= stf.matched.len() - e);
        if idx != t {
            assert(rv1.nodes[idx] == bumped[idx]);
        } else {
            assert(rv1.nodes[t].max_depth == bumped[t].max_depth);
        }
    };
    lemma_bump_noop(rv1.nodes, stf2.matched, 0);

    let rv2 = spec_insert(rv1, path, m2);
    assert(bump_depths(stf2.nodes, stf2.matched, 0) == rv1.nodes);
    assert(rv2.nodes == rv1.nodes.update(t, RouteNodeView { meta: Some(m2), ..rv1.nodes[t] }));

    if all_static(segs) {
        assert(rv1.static_routes == rv.static_routes.insert(norm, t));
        assert(rv1.static_routes.contains_key(norm) && rv1.static_routes[norm] == t);
        assert(rv2.static_routes == rv1.static_routes.insert(norm, t));
        assert(rv1.static_routes.insert(norm, t) =~= rv1.static_routes);
    }
}

} // verus!

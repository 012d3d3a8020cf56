//! The mathematical model of the router: ghost views of the node arena, the
//! fast-path index and a match result, and spec functions describing exactly
//! what insertion, lookup and removal do to those views.
use crate::meta::MetaValue;
use crate::router::RouteType;
use crate::strutil::dec_digits;
use crate::strutil::spec_join;
use crate::strutil::spec_split;
use crate::strutil::spec_trim_trailing;
use vstd::prelude::*;

verus! {

/// How one path segment of a pattern matches: `**` alone or the `**:name`
/// form is a wildcard, `:name` or a bare `*` is a placeholder, anything else
/// is literal text.
pub open spec fn spec_node_type(section: Seq<char>) -> RouteType {
    if section.len() >= 2 && section[0] == '*' && section[1] == '*' && (section.len() == 2
        || section[2] == ':') {
        RouteType::Wildcard
    } else if (section.len() >= 1 && section[0] == ':') || section == seq!['*'] {
        RouteType::Placeholder
    } else {
        RouteType::Normal
    }
}

/// The pattern as stored: unchanged under strict trailing-slash handling;
/// otherwise `/` stays `/`, the empty path becomes `/`, and trailing slashes
/// are trimmed from anything else.
pub open spec fn spec_normalize(path: Seq<char>, strict: bool) -> Seq<char> {
    if strict {
        path
    } else if path == seq!['/'] {
        path
    } else if path.len() == 0 {
        seq!['/']
    } else {
        spec_trim_trailing(path, '/')
    }
}

/// The parameter name of a placeholder segment: `_N` for the bare `*`, where
/// `N` counts the unnamed placeholders already used by this insertion;
/// otherwise the segment with its leading `:` stripped.
pub open spec fn placeholder_name(seg: Seq<char>, ctr: nat) -> Seq<char> {
    if seg == seq!['*'] {
        seq!['_'] + dec_digits(ctr)
    } else {
        seg.drop_first()
    }
}

/// The parameter name of a wildcard segment: what follows the three-character
/// prefix, or `_` when nothing does.
pub open spec fn wildcard_name(seg: Seq<char>) -> Seq<char> {
    if seg.len() <= 3 {
        seq!['_']
    } else {
        seg.skip(3)
    }
}

/// One tree level: how it matches, the depth bookkeeping, its links, and the
/// metadata of the pattern it terminates, if any.
#[verifier::ext_equal]
pub ghost struct RouteNodeView {
    pub kind: RouteType,
    pub max_depth: int,
    pub parent: Option<int>,
    pub children: Map<Seq<char>, int>,
    pub meta: Option<Map<Seq<char>, MetaValue>>,
    pub param_name: Option<Seq<char>>,
    pub wildcard_child: Option<int>,
    pub placeholder_children: Seq<int>,
}

/// The whole router: the node arena (the root is node 0), the fast-path index
/// from fully literal normalized paths to their terminal node, and the
/// trailing-slash configuration.
#[verifier::ext_equal]
pub ghost struct RouterView {
    pub strict: bool,
    pub nodes: Seq<RouteNodeView>,
    pub static_routes: Map<Seq<char>, int>,
}

/// The outcome of a lookup: the matched route's metadata, the captured
/// parameters, and whether the fast path resolved it.
#[verifier::ext_equal]
pub ghost struct MatchedRouteView {
    pub meta: Option<Map<Seq<char>, MetaValue>>,
    pub params: Option<Map<Seq<char>, Seq<char>>>,
    pub is_static: bool,
}

/// A node all of whose links land inside the arena.
pub open spec fn node_in_bounds(n: RouteNodeView, len: int) -> bool {
    &&& (n.parent matches Some(p) ==> 0 <= p < len)
    &&& (forall|k: Seq<char>| n.children.contains_key(k) ==> 0 <= #[trigger] n.children[k] < len)
    &&& (n.wildcard_child matches Some(w) ==> 0 <= w < len)
    &&& (forall|i: int|
        0 <= i < n.placeholder_children.len() ==> 0 <= #[trigger] n.placeholder_children[i] < len)
}

impl RouterView {
    /// Well-formed: the root exists and every link lands inside the arena.
    pub open spec fn wf(self) -> bool {
        &&& self.nodes.len() >= 1
        &&& (forall|i: int|
            0 <= i < self.nodes.len() ==> node_in_bounds(
                #[trigger] self.nodes[i],
                self.nodes.len() as int,
            ))
        &&& (forall|k: Seq<char>|
            self.static_routes.contains_key(k) ==> 0 <= #[trigger] self.static_routes[k]
                < self.nodes.len())
    }
}

/// A node with nothing registered through it yet.
pub open spec fn empty_node() -> RouteNodeView {
    RouteNodeView {
        kind: RouteType::Normal,
        max_depth: 0,
        parent: None,
        children: Map::<Seq<char>, int>::empty(),
        meta: None,
        param_name: None,
        wildcard_child: None,
        placeholder_children: Seq::<int>::empty(),
    }
}

/// A router holding no routes: a lone root node and an empty fast-path index.
pub open spec fn initial_router(strict: bool) -> RouterView {
    RouterView {
        strict,
        nodes: seq![empty_node()],
        static_routes: Map::<Seq<char>, int>::empty(),
    }
}

/// The moving state of an insertion descent: the arena so far, the node the
/// descent stands on, the nodes visited so far (root included), and the count
/// of unnamed placeholders used so far.
#[verifier::ext_equal]
pub ghost struct InsertState {
    pub nodes: Seq<RouteNodeView>,
    pub cur: int,
    pub matched: Seq<int>,
    pub ctr: nat,
}

/// One step of the insertion descent on segment `seg`: move to the literal
/// child when one exists; otherwise create a node of the segment's kind,
/// register it with its parent, and move to it.
pub open spec fn insert_step(st: InsertState, seg: Seq<char>) -> InsertState {
    let node = st.nodes[st.cur];
    if node.children.contains_key(seg) {
        let child = node.children[seg];
        InsertState { cur: child, matched: st.matched.push(child), ..st }
    } else {
        let idx = st.nodes.len() as int;
        let kind = spec_node_type(seg);
        let pname = if kind == RouteType::Placeholder {
            Some(placeholder_name(seg, st.ctr))
        } else if kind == RouteType::Wildcard {
            Some(wildcard_name(seg))
        } else {
            None
        };
        let fresh = RouteNodeView {
            kind,
            max_depth: 0,
            parent: Some(st.cur),
            children: Map::<Seq<char>, int>::empty(),
            meta: None,
            param_name: pname,
            wildcard_child: None,
            placeholder_children: Seq::<int>::empty(),
        };
        let parent0 = st.nodes[st.cur];
        let parent1 = RouteNodeView {
            children: parent0.children.insert(seg, idx),
            placeholder_children: if kind == RouteType::Placeholder {
                parent0.placeholder_children.push(idx)
            } else {
                parent0.placeholder_children
            },
            wildcard_child: if kind == RouteType::Wildcard {
                Some(idx)
            } else {
                parent0.wildcard_child
            },
            ..parent0
        };
        let ctr2 = if kind == RouteType::Placeholder && seg == seq!['*'] {
            st.ctr + 1
        } else {
            st.ctr
        };
        InsertState {
            nodes: st.nodes.push(fresh).update(st.cur, parent1),
            cur: idx,
            matched: st.matched.push(idx),
            ctr: ctr2,
        }
    }
}

/// The insertion descent over the segments from position `i` on.
pub open spec fn insert_descend(st: InsertState, segs: Seq<Seq<char>>, i: int) -> InsertState
    decreases segs.len() - i,
{
    if 0 <= i < segs.len() {
        insert_descend(insert_step(st, segs[i]), segs, i + 1)
    } else {
        st
    }
}

/// After the descent, each visited node's `max_depth` is raised to the number
/// of segments remaining from it (visited nodes count one past the segments,
/// so the node visited at position `d` has `matched.len() - d` remaining).
pub open spec fn bump_depths(nodes: Seq<RouteNodeView>, matched: Seq<int>, d: int) -> Seq<
    RouteNodeView,
>
    decreases matched.len() - d,
{
    if 0 <= d < matched.len() {
        let idx = matched[d];
        let n = nodes[idx];
        let remaining = matched.len() - d;
        let n2 = RouteNodeView {
            max_depth: if remaining > n.max_depth {
                remaining
            } else {
                n.max_depth
            },
            ..n
        };
        bump_depths(nodes.update(idx, n2), matched, d + 1)
    } else {
        nodes
    }
}

/// Whether every segment of the pattern is literal text.
pub open spec fn all_static(segs: Seq<Seq<char>>) -> bool {
    forall|i: int| 0 <= i < segs.len() ==> spec_node_type(#[trigger] segs[i]) == RouteType::Normal
}

/// Extending the checked prefix by one segment keeps it fully literal exactly
/// when the prefix was and the new segment is.
pub proof fn lemma_all_static_extend(segs: Seq<Seq<char>>, i: int)
    requires
        0 <= i < segs.len(),
    ensures
        all_static(segs.take(i + 1)) == (all_static(segs.take(i)) && spec_node_type(segs[i])
            == RouteType::Normal),
{
    if all_static(segs.take(i)) && spec_node_type(segs[i]) == RouteType::Normal {
        assert forall|j: int| 0 <= j < segs.take(i + 1).len() implies spec_node_type(
            #[trigger] segs.take(i + 1)[j],
        ) == RouteType::Normal by {
            if j < i {
                assert(segs.take(i)[j] == segs[j]);
                assert(spec_node_type(segs.take(i)[j]) == RouteType::Normal);
            }
            assert(segs.take(i + 1)[j] == segs[j]);
        };
    }
    if all_static(segs.take(i + 1)) {
        assert forall|j: int| 0 <= j < segs.take(i).len() implies spec_node_type(
            #[trigger] segs.take(i)[j],
        ) == RouteType::Normal by {
            assert(segs.take(i + 1)[j] == segs[j]);
            assert(spec_node_type(segs.take(i + 1)[j]) == RouteType::Normal);
        };
        assert(spec_node_type(segs.take(i + 1)[i]) == RouteType::Normal);
    }
}

/// What inserting `path` with metadata `meta` does: normalize, split, descend
/// creating nodes as needed, raise the visited nodes' depth bookkeeping,
/// attach the metadata to the terminal node (replacing any previous), and
/// index the normalized path when the pattern is fully literal.
pub open spec fn spec_insert(
    rv: RouterView,
    path: Seq<char>,
    meta: Map<Seq<char>, MetaValue>,
) -> RouterView {
    let norm = spec_normalize(path, rv.strict);
    let segs = spec_split(norm, '/');
    let st0 = InsertState { nodes: rv.nodes, cur: 0, matched: seq![0int], ctr: 0 };
    let st = insert_descend(st0, segs, 0);
    let bumped = bump_depths(st.nodes, st.matched, 0);
    let nodes2 = bumped.update(st.cur, RouteNodeView { meta: Some(meta), ..bumped[st.cur] });
    let statics = if all_static(segs) {
        rv.static_routes.insert(norm, st.cur)
    } else {
        rv.static_routes
    };
    RouterView { strict: rv.strict, nodes: nodes2, static_routes: statics }
}

/// The arena position of the node that terminates `path` when it is inserted
/// into `rv`.
pub open spec fn insert_terminal(rv: RouterView, path: Seq<char>) -> int {
    let segs = spec_split(spec_normalize(path, rv.strict), '/');
    let st0 = InsertState { nodes: rv.nodes, cur: 0, matched: seq![0int], ctr: 0 };
    insert_descend(st0, segs, 0).cur
}

/// The first node of `list`, in registration order, whose `max_depth` equals
/// `depth`, if any.
pub open spec fn first_matching_depth(
    nodes: Seq<RouteNodeView>,
    list: Seq<int>,
    depth: int,
) -> Option<int>
    decreases list.len(),
{
    if list.len() == 0 {
        None
    } else if nodes[list[0]].max_depth == depth {
        Some(list[0])
    } else {
        first_matching_depth(nodes, list.drop_first(), depth)
    }
}

/// Captures one parameter, starting the mapping on its first use.
pub open spec fn param_insert(
    params: Option<Map<Seq<char>, Seq<char>>>,
    k: Seq<char>,
    v: Seq<char>,
) -> Option<Map<Seq<char>, Seq<char>>> {
    match params {
        None => Some(Map::<Seq<char>, Seq<char>>::empty().insert(k, v)),
        Some(m) => Some(m.insert(k, v)),
    }
}

/// Where a lookup descent ends: the node reached (none when it stopped with
/// no way down), the parameters captured, and the deepest wildcard fallback
/// recorded with the remaining path at its recording.
#[verifier::ext_equal]
pub ghost struct LookupOutcome {
    pub end: Option<int>,
    pub params: Option<Map<Seq<char>, Seq<char>>>,
    pub fallback: Option<(int, Seq<char>)>,
}

/// The lookup descent from segment `i` standing on `cur`: record a wildcard
/// fallback whenever the node has a wildcard child, follow the literal child
/// when one exists, and otherwise pick a placeholder child — by matching
/// depth when several are registered, unconditionally when exactly one is —
/// capturing its parameter.
pub open spec fn lookup_descend(
    nodes: Seq<RouteNodeView>,
    segs: Seq<Seq<char>>,
    i: int,
    cur: int,
    params: Option<Map<Seq<char>, Seq<char>>>,
    fallback: Option<(int, Seq<char>)>,
) -> LookupOutcome
    decreases segs.len() - i,
{
    if !(0 <= i < segs.len()) {
        LookupOutcome { end: Some(cur), params, fallback }
    } else {
        let node = nodes[cur];
        let fb = match node.wildcard_child {
            Some(w) => Some((w, spec_join(segs.skip(i), '/'))),
            None => fallback,
        };
        if node.children.contains_key(segs[i]) {
            lookup_descend(nodes, segs, i + 1, node.children[segs[i]], params, fb)
        } else {
            let cand = if node.placeholder_children.len() > 1 {
                first_matching_depth(nodes, node.placeholder_children, segs.len() - i)
            } else if node.placeholder_children.len() == 1 {
                Some(node.placeholder_children[0])
            } else {
                None
            };
            match cand {
                None => LookupOutcome { end: None, params, fallback: fb },
                Some(c) => {
                    let params2 = match nodes[c].param_name {
                        Some(pn) => param_insert(params, pn, segs[i]),
                        None => params,
                    };
                    lookup_descend(nodes, segs, i + 1, c, params2, fb)
                },
            }
        }
    }
}

/// What looking up `path` returns: a fast-path hit on the index probed with
/// the path exactly as given; otherwise the tree descent, falling back to the
/// recorded wildcard — capturing the remaining path under its parameter —
/// when the descent ends nowhere or on a node without metadata.
pub open spec fn spec_lookup(rv: RouterView, path: Seq<char>) -> Option<MatchedRouteView> {
    if rv.static_routes.contains_key(path) {
        let node = rv.nodes[rv.static_routes[path]];
        Some(MatchedRouteView { meta: node.meta, params: None, is_static: true })
    } else {
        let segs = spec_split(path, '/');
        let o = lookup_descend(rv.nodes, segs, 0, 0, None, None);
        let missing = match o.end {
            None => true,
            Some(e) => rv.nodes[e].meta is None,
        };
        if missing && o.fallback is Some {
            let (w, rem) = o.fallback->0;
            let pn = match rv.nodes[w].param_name {
                Some(p) => p,
                None => seq!['_'],
            };
            Some(
                MatchedRouteView {
                    meta: rv.nodes[w].meta,
                    params: param_insert(o.params, pn, rem),
                    is_static: false,
                },
            )
        } else {
            match o.end {
                None => None,
                Some(e) => Some(
                    MatchedRouteView { meta: rv.nodes[e].meta, params: o.params, is_static: false },
                ),
            }
        }
    }
}

/// The removal descent: strictly through literal children; `None` when a
/// segment has no literal child.
pub open spec fn remove_descend(
    nodes: Seq<RouteNodeView>,
    segs: Seq<Seq<char>>,
    i: int,
    cur: int,
) -> Option<int>
    decreases segs.len() - i,
{
    if !(0 <= i < segs.len()) {
        Some(cur)
    } else if nodes[cur].children.contains_key(segs[i]) {
        remove_descend(nodes, segs, i + 1, nodes[cur].children[segs[i]])
    } else {
        None
    }
}

/// What removing `path` does and whether it succeeded. The path is split as
/// given; a failed descent changes nothing. A reached node is dropped from
/// the fast-path index; when it carries metadata the metadata is cleared and,
/// if the node has no children, it is detached from its parent's child map —
/// the parent's wildcard child and placeholder children are reset as well.
pub open spec fn spec_remove(rv: RouterView, path: Seq<char>) -> (RouterView, bool) {
    let segs = spec_split(path, '/');
    match remove_descend(rv.nodes, segs, 0, 0) {
        None => (rv, false),
        Some(n) => {
            let statics = rv.static_routes.remove(path);
            if rv.nodes[n].meta is Some {
                let cleared = RouteNodeView { meta: None, ..rv.nodes[n] };
                let nodes1 = rv.nodes.update(n, cleared);
                if cleared.children == Map::<Seq<char>, int>::empty() && cleared.parent is Some {
                    let p = cleared.parent->0;
                    let parent1 = RouteNodeView {
                        children: nodes1[p].children.remove(segs.last()),
                        wildcard_child: None,
                        placeholder_children: Seq::<int>::empty(),
                        ..nodes1[p]
                    };
                    (
                        RouterView {
                            nodes: nodes1.update(p, parent1),
                            static_routes: statics,
                            ..rv
                        },
                        true,
                    )
                } else {
                    (RouterView { nodes: nodes1, static_routes: statics, ..rv }, true)
                }
            } else {
                (RouterView { static_routes: statics, ..rv }, false)
            }
        },
    }
}

/// A removal whose descent finds no literal child changes nothing and fails.
pub proof fn lemma_remove_miss(rv: RouterView, path: Seq<char>)
    requires
        remove_descend(rv.nodes, spec_split(path, '/'), 0, 0) is None,
    ensures
        spec_remove(rv, path).0 == rv,
        spec_remove(rv, path).1 == false,
{
}

} // verus!

//! The router itself: the node arena, the fast-path index, and the three
//! engines — insertion, lookup and removal. Every method's contract states
//! its effect as equality with the corresponding spec function of the model.
use crate::kvlist::find_key;
use crate::kvlist::keys_unique;
use crate::kvlist::lemma_pairs_map_contains;
use crate::kvlist::lemma_pairs_map_index;
use crate::kvlist::lemma_pairs_map_push;
use crate::kvlist::lemma_pairs_map_remove;
use crate::kvlist::lemma_pairs_map_update;
use crate::kvlist::pairs_map;
use crate::meta::Meta;
use crate::model::all_static;
use crate::model::bump_depths;
use crate::model::lemma_all_static_extend;
use crate::model::lemma_remove_miss;
use crate::model::empty_node;
use crate::model::first_matching_depth;
use crate::model::initial_router;
use crate::model::insert_descend;
use crate::model::insert_step;
use crate::model::lookup_descend;
use crate::model::node_in_bounds;
use crate::model::param_insert;
use crate::model::placeholder_name;
use crate::model::remove_descend;
use crate::model::spec_insert;
use crate::model::spec_lookup;
use crate::model::spec_node_type;
use crate::model::spec_normalize;
use crate::model::spec_remove;
use crate::model::wildcard_name;
use crate::model::InsertState;
use crate::model::LookupOutcome;
use crate::model::MatchedRouteView;
use crate::model::RouteNodeView;
use crate::model::RouterView;
use crate::strutil::dec_str;
use crate::strutil::join_from;
use crate::strutil::seq_views;
use crate::strutil::spec_split;
use crate::strutil::split_str;
use crate::strutil::str_eq;
use crate::strutil::trim_trailing;
use vstd::prelude::*;
use vstd::string::StrSliceExecFns;
use vstd::string::StringExecFns;

verus! {

/// How a node matches its segment.
#[derive(Debug, Clone, Copy, PartialEq, Eq, Structural)]
pub enum RouteType {
    Normal,
    Wildcard,
    Placeholder,
}

/// The pattern as stored, per `spec_normalize`: unchanged when strict;
/// otherwise `/` stays `/`, the empty path becomes `/`, and trailing slashes
/// are trimmed from anything else.
pub fn normalize_trailing_slash<'a>(path: &'a str, strict_trailing_slash: bool) -> (r: &'a str)
    ensures
        r@ == spec_normalize(path@, strict_trailing_slash),
{
    if strict_trailing_slash {
        return path;
    }
    let len = path.unicode_len();
    if len == 1 && path.get_char(0) == '/' {
        proof {
            assert(path@ =~= seq!['/']);
        }
        return path;
    }
    if len == 0 {
        proof {
            reveal_strlit("/");
            assert("/"@ =~= seq!['/']);
        }
        return "/";
    }
    proof {
        if path@ == seq!['/'] {
            assert(path@.len() == 1 && path@[0] == '/');
        }
    }
    trim_trailing(path, '/')
}

/// The segment's kind, per `spec_node_type`.
pub fn get_node_type(section: &str) -> (t: RouteType)
    ensures
        t == spec_node_type(section@),
{
    let len = section.unicode_len();
    if len >= 2 && section.get_char(0) == '*' && section.get_char(1) == '*' {
        if len == 2 || section.get_char(2) == ':' {
            return RouteType::Wildcard;
        }
        // opens with the two stars but is neither bare `**` nor `**:name`:
        // not a wildcard, and its first character rules the other kinds out
        proof {
            if section@ == seq!['*'] {
                assert(section@.len() == 1);
            }
        }
        return RouteType::Normal;
    }
    if len >= 1 && section.get_char(0) == ':' {
        return RouteType::Placeholder;
    }
    if len == 1 && section.get_char(0) == '*' {
        proof {
            assert(section@ =~= seq!['*']);
        }
        return RouteType::Placeholder;
    }
    proof {
        if section@ == seq!['*'] {
            assert(section@.len() == 1 && section@[0] == '*');
        }
    }
    RouteType::Normal
}

/// The spec-level entries of a list that maps strings to node positions.
pub open spec fn index_entry_views(s: Seq<(String, usize)>) -> Seq<(Seq<char>, int)> {
    Seq::new(s.len(), |i: int| (s[i].0@, s[i].1 as int))
}

/// The spec-level entries of a captured-parameter list.
pub open spec fn param_entry_views(s: Seq<(String, String)>) -> Seq<(Seq<char>, Seq<char>)> {
    Seq::new(s.len(), |i: int| (s[i].0@, s[i].1@))
}

/// The node positions a list holds, as spec-level integers.
pub open spec fn ints_of(s: Seq<usize>) -> Seq<int> {
    Seq::new(s.len(), |i: int| s[i] as int)
}

/// The result of a lookup: the matched route's metadata, the captured
/// parameters, and whether the fast path resolved it. The metadata held here
/// is the result's own copy, equal in value to what the tree holds.
#[derive(Debug)]
pub struct MatchedRoute {
    pub meta: Option<Meta>,
    pub params: Option<Vec<(String, String)>>,
    pub is_static: bool,
}

impl View for MatchedRoute {
    type V = MatchedRouteView;

    open spec fn view(&self) -> MatchedRouteView {
        MatchedRouteView {
            meta: match self.meta {
                Some(m) => Some(m@),
                None => None,
            },
            params: match self.params {
                Some(p) => Some(pairs_map(param_entry_views(p@))),
                None => None,
            },
            is_static: self.is_static,
        }
    }
}

impl Default for MatchedRoute {
    fn default() -> (r: Self)
        ensures
            r@ == (MatchedRouteView { meta: None, params: None, is_static: false }),
            r.wf(),
    {
        MatchedRoute { meta: None, params: None, is_static: false }
    }
}

impl MatchedRoute {
    /// Well-formed: captured parameters carry unique names, and held metadata
    /// is itself well-formed.
    pub open spec fn wf(&self) -> bool {
        &&& (self.params matches Some(p) ==> keys_unique(param_entry_views(p@)))
        &&& (self.meta matches Some(m) ==> m.wf())
    }

    /// Captures one parameter, starting the mapping on its first use.
    pub(crate) fn insert_params(&mut self, key: &str, value: &str)
        requires
            old(self).wf(),
        ensures
            final(self).wf(),
            final(self)@ == (MatchedRouteView {
                params: param_insert(old(self)@.params, key@, value@),
                ..old(self)@
            }),
    {
        match self.params.take() {
            None => {
                let mut entries: Vec<(String, String)> = Vec::new();
                entries.push((key.to_owned(), value.to_owned()));
                proof {
                    let none: Seq<(Seq<char>, Seq<char>)> = Seq::empty();
                    lemma_pairs_map_push(none, key@, value@);
                    assert(param_entry_views(entries@) =~= none.push((key@, value@)));
                    assert(keys_unique(param_entry_views(entries@)));
                }
                self.params = Some(entries);
            },
            Some(mut entries) => {
                let views = Ghost(param_entry_views(entries@));
                match find_key(&entries, key) {
                    Some(i) => {
                        proof {
                            lemma_pairs_map_update(views@, i as int, key@, value@);
                        }
                        let (k_old, _v_old) = entries.remove(i);
                        entries.insert(i, (k_old, value.to_owned()));
                        proof {
                            let upd = views@.update(i as int, (key@, value@));
                            assert(keys_unique(views@));
                            assert forall|a: int, b: int|
                                0 <= a < b < upd.len() implies upd[a].0 != upd[b].0 by {
                                assert(views@[a].0 != views@[b].0);
                                assert(views@[i as int].0 == key@);
                            };
                            assert(keys_unique(upd));
                            assert(param_entry_views(entries@) =~= upd);
                        }
                    },
                    None => {
                        proof {
                            lemma_pairs_map_push(views@, key@, value@);
                        }
                        entries.push((key.to_owned(), value.to_owned()));
                        proof {
                            assert(param_entry_views(entries@) =~= views@.push((key@, value@)));
                            assert(keys_unique(param_entry_views(entries@)));
                        }
                    },
                }
                self.params = Some(entries);
            },
        }
        proof {
            assert(self@ =~= (MatchedRouteView {
                params: param_insert(old(self)@.params, key@, value@),
                ..old(self)@
            }));
        }
    }

    /// The value captured under `key`, if any.
    pub fn get_param(&self, key: &str) -> (r: Option<&String>)
        requires
            self.wf(),
        ensures
            match r {
                Some(v) => self@.params matches Some(m) && m.contains_key(key@) && v@ == m[key@],
                None => (self@.params matches Some(m) ==> !m.contains_key(key@)),
            },
    {
        match &self.params {
            None => None,
            Some(entries) => {
                let views = Ghost(param_entry_views(entries@));
                match find_key(entries, key) {
                    Some(i) => {
                        proof {
                            lemma_pairs_map_index(views@, i as int);
                        }
                        Some(&entries[i].1)
                    },
                    None => {
                        proof {
                            lemma_pairs_map_contains(views@, key@);
                        }
                        None
                    },
                }
            },
        }
    }
}

/// Configuration: whether insertion leaves trailing slashes as given.
#[derive(Debug)]
pub struct RouterOptions {
    pub strict_trailing_slash: bool,
}

impl Default for RouterOptions {
    fn default() -> (r: Self)
        ensures
            r.strict_trailing_slash == false,
    {
        RouterOptions { strict_trailing_slash: false }
    }
}

/// One tree level, held in the arena; links are arena positions.
#[derive(Debug)]
pub struct RouteNode {
    pub kind: RouteType,
    pub max_depth: usize,
    pub parent: Option<usize>,
    pub children: Vec<(String, usize)>,
    pub meta: Option<Meta>,
    pub param_name: Option<String>,
    pub wildcard_child: Option<usize>,
    pub placeholder_children: Vec<usize>,
}

impl View for RouteNode {
    type V = RouteNodeView;

    open spec fn view(&self) -> RouteNodeView {
        RouteNodeView {
            kind: self.kind,
            max_depth: self.max_depth as int,
            parent: match self.parent {
                Some(p) => Some(p as int),
                None => None,
            },
            children: pairs_map(index_entry_views(self.children@)),
            meta: match self.meta {
                Some(m) => Some(m@),
                None => None,
            },
            param_name: match self.param_name {
                Some(s) => Some(s@),
                None => None,
            },
            wildcard_child: match self.wildcard_child {
                Some(w) => Some(w as int),
                None => None,
            },
            placeholder_children: ints_of(self.placeholder_children@),
        }
    }
}

impl Default for RouteNode {
    fn default() -> (r: Self)
        ensures
            r@ == empty_node(),
            r.wf(),
    {
        let r = RouteNode {
            kind: RouteType::Normal,
            max_depth: 0,
            parent: None,
            children: Vec::new(),
            meta: None,
            param_name: None,
            wildcard_child: None,
            placeholder_children: Vec::new(),
        };
        proof {
            assert(index_entry_views(r.children@) =~= Seq::<(Seq<char>, int)>::empty());
            assert(ints_of(r.placeholder_children@) =~= Seq::<int>::empty());
            assert(r@ =~= empty_node());
        }
        r
    }
}

impl RouteNode {
    /// Well-formed: literal children carry unique keys, and held metadata is
    /// itself well-formed.
    pub open spec fn wf(&self) -> bool {
        &&& keys_unique(index_entry_views(self.children@))
        &&& (self.meta matches Some(m) ==> m.wf())
    }

    /// Sets how this node matches.
    pub fn set_type(&mut self, kind: RouteType)
        ensures
            final(self)@ == (RouteNodeView { kind, ..old(self)@ }),
            final(self).wf() == old(self).wf(),
    {
        self.kind = kind;
        proof {
            assert(self@ =~= (RouteNodeView { kind, ..old(self)@ }));
        }
    }

    /// Sets this node's parent link.
    pub fn set_parent(&mut self, parent_node: usize)
        ensures
            final(self)@ == (RouteNodeView { parent: Some(parent_node as int), ..old(self)@ }),
            final(self).wf() == old(self).wf(),
    {
        self.parent = Some(parent_node);
        proof {
            assert(self@ =~= (RouteNodeView {
                parent: Some(parent_node as int),
                ..old(self)@
            }));
        }
    }
}

/// The first node of `list`, in registration order, whose `max_depth` equals
/// `depth`, as `first_matching_depth` picks it.
fn find_placeholder(nodes: &Vec<RouteNode>, list: &Vec<usize>, depth: usize) -> (r: Option<usize>)
    requires
        forall|j: int| 0 <= j < list@.len() ==> (#[trigger] list@[j]) < nodes@.len(),
    ensures
        first_matching_depth(nodes_view(nodes@), ints_of(list@), depth as int) == (match r {
            Some(x) => Some(x as int),
            None => None,
        }),
        r matches Some(x) ==> (x as int) < nodes@.len(),
{
    let ghost nv = nodes_view(nodes@);
    let ghost full = ints_of(list@);
    let mut t: usize = 0;
    proof {
        assert(full.skip(0) =~= full);
    }
    while t < list.len()
        invariant
            t <= list@.len(),
            nv == nodes_view(nodes@),
            full == ints_of(list@),
            forall|j: int| 0 <= j < list@.len() ==> (#[trigger] list@[j]) < nodes@.len(),
            first_matching_depth(nv, full, depth as int) == first_matching_depth(
                nv,
                full.skip(t as int),
                depth as int,
            ),
        decreases list@.len() - t,
    {
        let x = list[t];
        proof {
            assert(full.skip(t as int)[0] == x as int);
            assert(full.skip(t as int).drop_first() =~= full.skip(t + 1));
        }
        if nodes[x].max_depth == depth {
            return Some(x);
        }
        t += 1;
    }
    None
}

/// The router's state: configuration, the node arena (the root is node 0),
/// and the fast-path index.
#[derive(Debug)]
pub struct RouterContext {
    pub options: RouterOptions,
    pub nodes: Vec<RouteNode>,
    pub static_routes: Vec<(String, usize)>,
}

/// The views of the arena's nodes.
pub open spec fn nodes_view(ns: Seq<RouteNode>) -> Seq<RouteNodeView> {
    Seq::new(ns.len(), |i: int| ns[i]@)
}

impl View for RouterContext {
    type V = RouterView;

    open spec fn view(&self) -> RouterView {
        RouterView {
            strict: self.options.strict_trailing_slash,
            nodes: nodes_view(self.nodes@),
            static_routes: pairs_map(index_entry_views(self.static_routes@)),
        }
    }
}

impl RouterContext {
    /// Well-formed: the view is, every node's representation is, and the
    /// fast-path entries carry unique keys.
    pub open spec fn wf(&self) -> bool {
        &&& self@.wf()
        &&& (forall|i: int| 0 <= i < self.nodes@.len() ==> (#[trigger] self.nodes@[i]).wf())
        &&& keys_unique(index_entry_views(self.static_routes@))
    }

    /// A context holding no routes, with default configuration.
    pub fn new() -> (r: Self)
        ensures
            r@ == initial_router(false),
            r.wf(),
    {
        let mut nodes: Vec<RouteNode> = Vec::new();
        nodes.push(RouteNode::default());
        let r = RouterContext {
            options: RouterOptions::default(),
            nodes,
            static_routes: Vec::new(),
        };
        proof {
            assert(nodes_view(r.nodes@) =~= seq![empty_node()]);
            assert(index_entry_views(r.static_routes@) =~= Seq::<(Seq<char>, int)>::empty());
            assert(r@ =~= initial_router(false));
            assert(r@.wf());
        }
        r
    }
}

/// The router: a radix tree of registered patterns with a fast-path index
/// for fully literal ones.
#[derive(Debug)]
pub struct Router {
    pub context: RouterContext,
}

impl View for Router {
    type V = RouterView;

    open spec fn view(&self) -> RouterView {
        self.context@
    }
}

impl Router {
    /// Well-formed: the context is.
    pub open spec fn wf(&self) -> bool {
        self.context.wf()
    }

    /// A router holding no routes.
    pub fn new() -> (r: Self)
        ensures
            r@ == initial_router(false),
            r.wf(),
    {
        Router { context: RouterContext::new() }
    }

    /// Registers `path` with `meta` attached: the pattern is normalized, split
    /// on `/`, and threaded into the tree exactly as `spec_insert` describes;
    /// the metadata lands on the terminal node, replacing any previous, and a
    /// fully literal pattern is also indexed for the fast path.
    #[verifier::rlimit(100)]
    pub fn insert(&mut self, path: &str, meta: Meta)
        requires
            old(self).wf(),
            meta.wf(),
        ensures
            final(self).wf(),
            final(self)@ == spec_insert(old(self)@, path@, meta@),
    {
        let strict = self.context.options.strict_trailing_slash;
        let normalized = normalize_trailing_slash(path, strict);
        let sections = split_str(normalized, '/');
        let ghost segs = spec_split(spec_normalize(path@, strict), '/');
        let ghost st0 = InsertState {
            nodes: old(self)@.nodes,
            cur: 0,
            matched: seq![0int],
            ctr: 0 as nat,
        };

        let mut current: usize = 0;
        let mut matched: Vec<usize> = Vec::new();
        matched.push(0);
        let mut ctr: usize = 0;
        let mut is_static = true;
        let mut i: usize = 0;

        proof {
            assert(seq_views(sections@) == segs);
            assert(ints_of(matched@) =~= seq![0int]);
            assert(segs.take(0) =~= Seq::<Seq<char>>::empty());
            assert((InsertState {
                nodes: nodes_view(self.context.nodes@),
                cur: current as int,
                matched: ints_of(matched@),
                ctr: ctr as nat,
            }) =~~= st0);
        }

        while i < sections.len()
            invariant
                self.context.options.strict_trailing_slash == strict,
                self.context.static_routes@ == old(self).context.static_routes@,
                seq_views(sections@) == segs,
                segs.len() == sections@.len(),
                i <= sections@.len(),
                ctr <= i,
                self.context.nodes@.len() >= 1,
                self.context.nodes@.len() >= old(self).context.nodes@.len(),
                forall|j: int|
                    0 <= j < self.context.nodes@.len() ==> (#[trigger] self.context.nodes@[j]).wf(),
                forall|j: int|
                    0 <= j < self.context.nodes@.len() ==> node_in_bounds(
                        nodes_view(self.context.nodes@)[j],
                        self.context.nodes@.len() as int,
                    ),
                (current as int) < self.context.nodes@.len(),
                matched@.len() == i + 1,
                forall|j: int|
                    0 <= j < matched@.len() ==> (#[trigger] matched@[j]) < self.context.nodes@.len(),
                insert_descend(st0, segs, 0) == insert_descend(
                    InsertState {
                        nodes: nodes_view(self.context.nodes@),
                        cur: current as int,
                        matched: ints_of(matched@),
                        ctr: ctr as nat,
                    },
                    segs,
                    i as int,
                ),
                is_static == all_static(segs.take(i as int)),
            decreases sections@.len() - i,
        {
            let ghost st_now = InsertState {
                nodes: nodes_view(self.context.nodes@),
                cur: current as int,
                matched: ints_of(matched@),
                ctr: ctr as nat,
            };
            let ghost len0 = self.context.nodes@.len() as int;
            let kind = get_node_type(sections[i].as_str());
            proof {
                assert(segs[i as int] == sections@[i as int]@);
            }
            let found = find_key(&self.context.nodes[current].children, sections[i].as_str());
            match found {
                Some(ci) => {
                    let child = self.context.nodes[current].children[ci].1;
                    proof {
                        let cviews = index_entry_views(
                            self.context.nodes@[current as int].children@,
                        );
                        lemma_pairs_map_index(cviews, ci as int);
                        assert(st_now.nodes[current as int].children.contains_key(segs[i as int]));
                        assert(st_now.nodes[current as int].children[segs[i as int]]
                            == child as int);
                        assert(ints_of(matched@.push(child)) =~= ints_of(matched@).push(
                            child as int,
                        ));
                        assert((InsertState {
                            nodes: st_now.nodes,
                            cur: child as int,
                            matched: ints_of(matched@).push(child as int),
                            ctr: ctr as nat,
                        }) =~~= insert_step(st_now, segs[i as int]));
                    }
                    matched.push(child);
                    current = child;
                },
                None => {
                    let idx = self.context.nodes.len();
                    let mut fresh = RouteNode::default();
                    fresh.set_type(kind);
                    fresh.set_parent(current);
                    let ghost seg = segs[i as int];
                    proof {
                        reveal_strlit("*");
                        reveal_strlit("_");
                        assert("*"@ =~= seq!['*']);
                        assert("_"@ =~= seq!['_']);
                    }
                    let mut was_star = false;
                    if kind == RouteType::Placeholder {
                        let is_star = str_eq(sections[i].as_str(), "*");
                        let pname: String = if is_star {
                            let mut n = "_".to_owned();
                            n.append(dec_str(ctr).as_str());
                            proof {
                                assert(n@ == placeholder_name(seg, ctr as nat));
                            }
                            n
                        } else {
                            let slen = sections[i].as_str().unicode_len();
                            let n = sections[i].as_str().substring_char(1, slen).to_owned();
                            proof {
                                assert(seg.subrange(1, seg.len() as int) =~= seg.drop_first());
                                assert(n@ == placeholder_name(seg, ctr as nat));
                            }
                            n
                        };
                        fresh.param_name = Some(pname);
                        was_star = is_star;
                    } else if kind == RouteType::Wildcard {
                        let slen = sections[i].as_str().unicode_len();
                        let pname: String = if slen <= 3 {
                            "_".to_owned()
                        } else {
                            sections[i].as_str().substring_char(3, slen).to_owned()
                        };
                        proof {
                            if seg.len() > 3 {
                                assert(seg.subrange(3, seg.len() as int) =~= seg.skip(3));
                            }
                            assert(pname@ == wildcard_name(seg));
                        }
                        fresh.param_name = Some(pname);
                    }
                    let ghost fresh_view = fresh@;
                    let ghost parent_children0 = index_entry_views(
                        self.context.nodes@[current as int].children@,
                    );
                    proof {
                        lemma_pairs_map_contains(parent_children0, seg);
                        assert(!st_now.nodes[current as int].children.contains_key(seg));
                        lemma_pairs_map_push(parent_children0, seg, idx as int);
                    }
                    self.context.nodes.push(fresh);
                    self.context.nodes[current].children.push((sections[i].clone(), idx));
                    if kind == RouteType::Placeholder {
                        self.context.nodes[current].placeholder_children.push(idx);
                        if was_star {
                            ctr = ctr + 1;
                        }
                    } else if kind == RouteType::Wildcard {
                        self.context.nodes[current].wildcard_child = Some(idx);
                    }
                    matched.push(idx);
                    proof {
                        let stn = insert_step(st_now, seg);
                        let parent_node = self.context.nodes@[current as int];
                        assert(index_entry_views(parent_node.children@) =~= parent_children0.push(
                            (seg, idx as int),
                        ));
                        assert(parent_node@.children == st_now.nodes[current as int].children.insert(
                            seg,
                            idx as int,
                        ));
                        assert(ints_of(matched@) =~= st_now.matched.push(idx as int));
                        if kind == RouteType::Placeholder {
                            assert(ints_of(parent_node.placeholder_children@)
                                =~= st_now.nodes[current as int].placeholder_children.push(
                                idx as int,
                            ));
                        }
                        assert(nodes_view(self.context.nodes@) =~= st_now.nodes.push(
                            fresh_view,
                        ).update(current as int, parent_node@));
                        assert((InsertState {
                            nodes: nodes_view(self.context.nodes@),
                            cur: idx as int,
                            matched: ints_of(matched@),
                            ctr: ctr as nat,
                        }) =~~= stn);
                        // the arena stays well-formed: the old nodes' links
                        // still land inside the grown arena, the updated
                        // parent's new links land on the fresh node, and the
                        // fresh node's only link is its parent
                        assert(keys_unique(index_entry_views(parent_node.children@)));
                        assert(parent_node.wf());
                        assert forall|j: int|
                            0 <= j < self.context.nodes@.len() implies node_in_bounds(
                            nodes_view(self.context.nodes@)[j],
                            self.context.nodes@.len() as int,
                        ) by {
                            if j < len0 && j != current as int {
                                assert(nodes_view(self.context.nodes@)[j] == st_now.nodes[j]);
                                assert(node_in_bounds(st_now.nodes[j], len0));
                            }
                        };
                    }
                    current = idx;
                },
            }
            proof {
                lemma_all_static_extend(segs, i as int);
            }
            is_static = is_static && kind == RouteType::Normal;
            i += 1;
        }

        let ghost st_fin = insert_descend(st0, segs, 0);
        proof {
            assert(st_fin == (InsertState {
                nodes: nodes_view(self.context.nodes@),
                cur: current as int,
                matched: ints_of(matched@),
                ctr: ctr as nat,
            }));
            assert(segs.take(segs.len() as int) =~= segs);
            assert(is_static == all_static(segs));
        }

        let total = matched.len();
        let mut d: usize = 0;
        while d < total
            invariant
                self.context.options.strict_trailing_slash == strict,
                self.context.static_routes@ == old(self).context.static_routes@,
                d <= total,
                total == matched@.len(),
                self.context.nodes@.len() == st_fin.nodes.len(),
                self.context.nodes@.len() >= old(self).context.nodes@.len(),
                forall|j: int|
                    0 <= j < self.context.nodes@.len() ==> (#[trigger] self.context.nodes@[j]).wf(),
                forall|j: int|
                    0 <= j < self.context.nodes@.len() ==> node_in_bounds(
                        nodes_view(self.context.nodes@)[j],
                        self.context.nodes@.len() as int,
                    ),
                (current as int) < self.context.nodes@.len(),
                forall|j: int|
                    0 <= j < matched@.len() ==> (#[trigger] matched@[j]) < self.context.nodes@.len(),
                ints_of(matched@) == st_fin.matched,
                bump_depths(st_fin.nodes, st_fin.matched, 0) == bump_depths(
                    nodes_view(self.context.nodes@),
                    st_fin.matched,
                    d as int,
                ),
            decreases total - d,
        {
            let ghost nv0 = nodes_view(self.context.nodes@);
            let node_idx = matched[d];
            let remaining = total - d;
            let md = self.context.nodes[node_idx].max_depth;
            let newmd = if remaining > md {
                remaining
            } else {
                md
            };
            self.context.nodes[node_idx].max_depth = newmd;
            proof {
                let m = st_fin.matched;
                let n = nv0[m[d as int]];
                let n2 = RouteNodeView {
                    max_depth: if m.len() - d > n.max_depth {
                        m.len() - d
                    } else {
                        n.max_depth
                    },
                    ..n
                };
                assert(self.context.nodes@[node_idx as int]@ =~= n2);
                assert(nodes_view(self.context.nodes@) =~= nv0.update(m[d as int], n2));
                assert forall|j: int|
                    0 <= j < self.context.nodes@.len() implies node_in_bounds(
                    nodes_view(self.context.nodes@)[j],
                    self.context.nodes@.len() as int,
                ) by {
                    if j != node_idx as int {
                        assert(nodes_view(self.context.nodes@)[j] == nv0[j]);
                    }
                };
            }
            d += 1;
        }

        let ghost bumped = bump_depths(st_fin.nodes, st_fin.matched, 0);
        proof {
            assert(bumped == nodes_view(self.context.nodes@));
        }

        let meta_holder = Some(meta);
        self.context.nodes[current].meta = meta_holder;
        proof {
            assert(self.context.nodes@[current as int]@ =~= (RouteNodeView {
                meta: Some(meta@),
                ..bumped[current as int]
            }));
            assert(nodes_view(self.context.nodes@) =~= bumped.update(
                current as int,
                RouteNodeView { meta: Some(meta@), ..bumped[current as int] },
            ));
            assert forall|j: int|
                0 <= j < self.context.nodes@.len() implies node_in_bounds(
                nodes_view(self.context.nodes@)[j],
                self.context.nodes@.len() as int,
            ) by {
                if j != current as int {
                    assert(nodes_view(self.context.nodes@)[j] == bumped[j]);
                }
            };
        }

        if is_static {
            let views0 = Ghost(index_entry_views(self.context.static_routes@));
            let ghost norm = spec_normalize(path@, strict);
            match find_key(&self.context.static_routes, normalized) {
                Some(si) => {
                    proof {
                        lemma_pairs_map_update(views0@, si as int, norm, current as int);
                    }
                    let (k_old, _old_idx) = self.context.static_routes.remove(si);
                    self.context.static_routes.insert(si, (k_old, current));
                    proof {
                        assert(index_entry_views(self.context.static_routes@) =~= views0@.update(
                            si as int,
                            (norm, current as int),
                        ));
                        let upd = views0@.update(si as int, (norm, current as int));
                        assert forall|a: int, b: int|
                            0 <= a < b < upd.len() implies upd[a].0 != upd[b].0 by {
                            assert(views0@[a].0 != views0@[b].0);
                            assert(views0@[si as int].0 == norm);
                        };
                        assert(keys_unique(index_entry_views(self.context.static_routes@)));
                    }
                },
                None => {
                    proof {
                        lemma_pairs_map_contains(views0@, norm);
                        lemma_pairs_map_push(views0@, norm, current as int);
                    }
                    self.context.static_routes.push((normalized.to_owned(), current));
                    proof {
                        assert(index_entry_views(self.context.static_routes@) =~= views0@.push(
                            (norm, current as int),
                        ));
                        assert(keys_unique(index_entry_views(self.context.static_routes@)));
                    }
                },
            }
        }

        proof {
            assert(self@ =~= spec_insert(old(self)@, path@, meta@));
            assert forall|k: Seq<char>|
                self@.static_routes.contains_key(k) implies 0 <= #[trigger] self@.static_routes[k]
                < self@.nodes.len() by {
                if old(self)@.static_routes.contains_key(k) && self@.static_routes[k] == old(
                    self,
                )@.static_routes[k] {
                    assert(old(self)@.static_routes[k] < old(self)@.nodes.len());
                }
            };
            assert(self@.wf());
        }
    }

    /// Resolves `path`, exactly as `spec_lookup` describes: a fast-path probe
    /// with the path as given, then the tree descent with placeholder
    /// selection and wildcard fallback, capturing parameters on the way.
    #[verifier::rlimit(100)]
    pub fn lookup(&self, path: &str) -> (r: Option<MatchedRoute>)
        requires
            self.wf(),
        ensures
            match r {
                Some(m) => spec_lookup(self@, path@) == Some(m@) && m.wf(),
                None => spec_lookup(self@, path@) is None,
            },
    {
        let mut matched_route = MatchedRoute::default();

        let sviews = Ghost(index_entry_views(self.context.static_routes@));
        match find_key(&self.context.static_routes, path) {
            Some(si) => {
                proof {
                    lemma_pairs_map_index(sviews@, si as int);
                }
                matched_route.is_static = true;
                let node_pos = self.context.static_routes[si].1;
                match &self.context.nodes[node_pos].meta {
                    Some(m) => {
                        matched_route.meta = Some(m.dup());
                    },
                    None => {},
                }
                proof {
                    assert(spec_lookup(self@, path@) matches Some(v) && v =~= matched_route@);
                }
                return Some(matched_route);
            },
            None => {
                proof {
                    lemma_pairs_map_contains(sviews@, path@);
                    assert(!self@.static_routes.contains_key(path@));
                }
            },
        }

        let sections = split_str(path, '/');
        let ghost segs = spec_split(path@, '/');
        proof {
            assert(seq_views(sections@) == segs);
        }
        let mut wildcard_node: Option<usize> = None;
        let mut wildcard_param: Option<String> = None;
        let ghost mut fb: Option<(int, Seq<char>)> = None;
        let mut current: Option<usize> = Some(0);
        let mut i: usize = 0;

        while i < sections.len() && current.is_some()
            invariant
                self.wf(),
                seq_views(sections@) == segs,
                segs.len() == sections@.len(),
                i <= segs.len(),
                matched_route.wf(),
                matched_route@.meta is None,
                matched_route@.is_static == false,
                current matches Some(c) ==> (c as int) < self@.nodes.len(),
                (wildcard_node is Some) == (wildcard_param is Some),
                (wildcard_node is Some) == (fb is Some),
                wildcard_node matches Some(w) ==> (w as int) < self@.nodes.len(),
                wildcard_node matches Some(w) ==> (wildcard_param matches Some(p) && fb == Some(
                    ((w as int), p@),
                )),
                match current {
                    Some(c) => lookup_descend(self@.nodes, segs, 0, 0, None, None)
                        == lookup_descend(
                        self@.nodes,
                        segs,
                        i as int,
                        c as int,
                        matched_route@.params,
                        fb,
                    ),
                    None => lookup_descend(self@.nodes, segs, 0, 0, None, None)
                        == (LookupOutcome { end: None, params: matched_route@.params, fallback: fb }),
                },
            decreases segs.len() - i,
        {
            let c = current.unwrap();
            let ghost params0 = matched_route@.params;
            let ghost fb0 = fb;
            if self.context.nodes[c].wildcard_child.is_some() {
                let w = self.context.nodes[c].wildcard_child.unwrap();
                wildcard_node = Some(w);
                let joined = join_from(&sections, i, '/');
                proof {
                    assert(seq_views(sections@).skip(i as int) =~= segs.skip(i as int));
                    fb = Some(((w as int), joined@));
                }
                wildcard_param = Some(joined);
            }
            let cviews = Ghost(index_entry_views(self.context.nodes@[c as int].children@));
            proof {
                assert(segs[i as int] == sections@[i as int]@);
            }
            let found = find_key(&self.context.nodes[c].children, sections[i].as_str());
            match found {
                Some(ci) => {
                    proof {
                        lemma_pairs_map_index(cviews@, ci as int);
                    }
                    let next = self.context.nodes[c].children[ci].1;
                    proof {
                        assert(self@.nodes[c as int].children.contains_key(segs[i as int]));
                        assert(self@.nodes[c as int].children[segs[i as int]] == next as int);
                    }
                    current = Some(next);
                },
                None => {
                    proof {
                        lemma_pairs_map_contains(cviews@, segs[i as int]);
                        assert(!self@.nodes[c as int].children.contains_key(segs[i as int]));
                    }
                    let pl_len = self.context.nodes[c].placeholder_children.len();
                    proof {
                        assert(node_in_bounds(self@.nodes[c as int], self@.nodes.len() as int));
                        assert forall|j: int|
                            0 <= j < self.context.nodes@[c as int].placeholder_children@.len()
                            implies (#[trigger] self.context.nodes@[
                            c as int
                        ].placeholder_children@[j]) < self.context.nodes@.len() by {
                            assert(self@.nodes[c as int].placeholder_children[j]
                                < self@.nodes.len());
                        };
                    }
                    let cand: Option<usize> = if pl_len > 1 {
                        let remaining = sections.len() - i;
                        let r = find_placeholder(
                            &self.context.nodes,
                            &self.context.nodes[c].placeholder_children,
                            remaining,
                        );
                        proof {
                            assert(ints_of(self.context.nodes@[c as int].placeholder_children@)
                                == self@.nodes[c as int].placeholder_children);
                        }
                        r
                    } else if pl_len == 1 {
                        Some(self.context.nodes[c].placeholder_children[0])
                    } else {
                        None
                    };
                    match cand {
                        None => {
                            current = None;
                        },
                        Some(cd) => {
                            proof {
                                assert((cd as int) < self@.nodes.len());
                            }
                            match &self.context.nodes[cd].param_name {
                                Some(pn) => {
                                    let pn_ref = pn.as_str();
                                    matched_route.insert_params(pn_ref, sections[i].as_str());
                                },
                                None => {},
                            }
                            current = Some(cd);
                        },
                    }
                },
            }
            i += 1;
        }

        let ghost o = lookup_descend(self@.nodes, segs, 0, 0, None, None);
        proof {
            match current {
                Some(c) => {
                    assert(o == (LookupOutcome {
                        end: Some(c as int),
                        params: matched_route@.params,
                        fallback: fb,
                    }));
                },
                None => {},
            }
        }

        let needs_fallback = match &current {
            None => true,
            Some(c) => self.context.nodes[*c].meta.is_none(),
        };
        let final_node: Option<usize> = if needs_fallback && wildcard_node.is_some() {
            let w = wildcard_node.unwrap();
            let wp = wildcard_param.unwrap();
            proof {
                reveal_strlit("_");
                assert("_"@ =~= seq!['_']);
            }
            match &self.context.nodes[w].param_name {
                Some(pn) => {
                    let pn_ref = pn.as_str();
                    matched_route.insert_params(pn_ref, wp.as_str());
                },
                None => {
                    matched_route.insert_params("_", wp.as_str());
                },
            }
            Some(w)
        } else {
            current
        };

        match final_node {
            None => {
                proof {
                    assert(spec_lookup(self@, path@) is None);
                }
                None
            },
            Some(e) => {
                match &self.context.nodes[e].meta {
                    Some(m) => {
                        matched_route.meta = Some(m.dup());
                    },
                    None => {},
                }
                proof {
                    assert(spec_lookup(self@, path@) matches Some(v) && v =~= matched_route@);
                }
                Some(matched_route)
            },
        }
    }

    /// Detaches `path`, exactly as `spec_remove` describes: a strict literal
    /// descent (no placeholder or wildcard fallback); a reached node loses its
    /// metadata and, when emptied of children, is pruned from its parent,
    /// whose wildcard and placeholder registrations are reset; the path is
    /// dropped from the fast-path index whenever the descent reached a node.
    /// Returns whether metadata was cleared.
    #[verifier::rlimit(100)]
    pub fn remove(&mut self, path: &str) -> (success: bool)
        requires
            old(self).wf(),
        ensures
            final(self).wf(),
            final(self)@ == spec_remove(old(self)@, path@).0,
            success == spec_remove(old(self)@, path@).1,
    {
        let sections = split_str(path, '/');
        let ghost segs = spec_split(path@, '/');
        proof {
            assert(seq_views(sections@) == segs);
        }
        let mut current: usize = 0;
        let mut i: usize = 0;
        while i < sections.len()
            invariant
                self.context.nodes == old(self).context.nodes,
                self.context.static_routes == old(self).context.static_routes,
                self.context.options.strict_trailing_slash == old(
                    self,
                ).context.options.strict_trailing_slash,
                self@ == old(self)@,
                self.wf(),
                seq_views(sections@) == segs,
                segs == spec_split(path@, '/'),
                segs.len() == sections@.len(),
                i <= segs.len(),
                (current as int) < self@.nodes.len(),
                remove_descend(old(self)@.nodes, segs, 0, 0) == remove_descend(
                    old(self)@.nodes,
                    segs,
                    i as int,
                    current as int,
                ),
            decreases segs.len() - i,
        {
            let cviews = Ghost(index_entry_views(self.context.nodes@[current as int].children@));
            proof {
                assert(segs[i as int] == sections@[i as int]@);
            }
            match find_key(&self.context.nodes[current].children, sections[i].as_str()) {
                Some(ci) => {
                    proof {
                        lemma_pairs_map_index(cviews@, ci as int);
                        assert(old(self)@.nodes[current as int].children.contains_key(
                            segs[i as int],
                        ));
                    }
                    current = self.context.nodes[current].children[ci].1;
                },
                None => {
                    proof {
                        lemma_pairs_map_contains(cviews@, segs[i as int]);
                        assert(!old(self)@.nodes[current as int].children.contains_key(
                            segs[i as int],
                        ));
                        assert(remove_descend(old(self)@.nodes, segs, i as int, current as int)
                            is None);
                        assert(remove_descend(old(self)@.nodes, segs, 0, 0) is None);
                        lemma_remove_miss(old(self)@, path@);
                        assert(self@ =~= old(self)@);
                    }
                    return false;
                },
            }
            i += 1;
        }
        proof {
            assert(remove_descend(old(self)@.nodes, segs, 0, 0) == Some(current as int));
        }

        let mut success = false;
        if self.context.nodes[current].meta.is_some() {
            let ghost nv0 = self@.nodes;
            self.context.nodes[current].meta = None;
            proof {
                assert(self.context.nodes@[current as int]@ =~= (RouteNodeView {
                    meta: None,
                    ..nv0[current as int]
                }));
                assert(nodes_view(self.context.nodes@) =~= nv0.update(
                    current as int,
                    RouteNodeView { meta: None, ..nv0[current as int] },
                ));
            }
            let has_children = self.context.nodes[current].children.len() > 0;
            let parent_opt = self.context.nodes[current].parent;
            proof {
                let cviews = index_entry_views(self.context.nodes@[current as int].children@);
                if !has_children {
                    assert(cviews =~= Seq::<(Seq<char>, int)>::empty());
                    assert(self@.nodes[current as int].children =~= Map::<Seq<char>, int>::empty());
                } else {
                    lemma_pairs_map_index(cviews, 0);
                    assert(self@.nodes[current as int].children != Map::<Seq<char>, int>::empty());
                }
            }
            if !has_children && parent_opt.is_some() {
                let p = parent_opt.unwrap();
                let ghost nv1 = self@.nodes;
                let pviews = Ghost(index_entry_views(self.context.nodes@[p as int].children@));
                let last_section = &sections[sections.len() - 1];
                proof {
                    assert(last_section@ == segs.last());
                }
                match find_key(&self.context.nodes[p].children, last_section.as_str()) {
                    Some(ki) => {
                        proof {
                            lemma_pairs_map_remove(pviews@, ki as int);
                        }
                        let _removed = self.context.nodes[p].children.remove(ki);
                        proof {
                            assert(index_entry_views(self.context.nodes@[p as int].children@)
                                =~= pviews@.remove(ki as int));
                            assert(keys_unique(pviews@.remove(ki as int)));
                        }
                    },
                    None => {
                        proof {
                            lemma_pairs_map_contains(pviews@, segs.last());
                            assert(nv1[p as int].children.remove(segs.last()) =~= nv1[
                                p as int
                            ].children);
                        }
                    },
                }
                self.context.nodes[p].wildcard_child = None;
                self.context.nodes[p].placeholder_children.clear();
                proof {
                    assert(ints_of(self.context.nodes@[p as int].placeholder_children@) =~= Seq::<
                        int,
                    >::empty());
                    assert(self.context.nodes@[p as int]@ =~= (RouteNodeView {
                        children: nv1[p as int].children.remove(segs.last()),
                        wildcard_child: None,
                        placeholder_children: Seq::<int>::empty(),
                        ..nv1[p as int]
                    }));
                    assert(nodes_view(self.context.nodes@) =~= nv1.update(
                        p as int,
                        RouteNodeView {
                            children: nv1[p as int].children.remove(segs.last()),
                            wildcard_child: None,
                            placeholder_children: Seq::<int>::empty(),
                            ..nv1[p as int]
                        },
                    ));
                }
            }
            success = true;
        }

        let sviews = Ghost(index_entry_views(self.context.static_routes@));
        match find_key(&self.context.static_routes, path) {
            Some(si) => {
                proof {
                    lemma_pairs_map_remove(sviews@, si as int);
                }
                let _removed = self.context.static_routes.remove(si);
                proof {
                    assert(index_entry_views(self.context.static_routes@) =~= sviews@.remove(
                        si as int,
                    ));
                    assert(keys_unique(sviews@.remove(si as int)));
                }
            },
            None => {
                proof {
                    lemma_pairs_map_contains(sviews@, path@);
                    assert(pairs_map(sviews@).remove(path@) =~= pairs_map(sviews@));
                }
            },
        }

        proof {
            assert(self@ =~= spec_remove(old(self)@, path@).0);
            assert forall|j: int|
                0 <= j < self.context.nodes@.len() implies node_in_bounds(
                nodes_view(self.context.nodes@)[j],
                self.context.nodes@.len() as int,
            ) by {
                assert(node_in_bounds(old(self)@.nodes[j], old(self)@.nodes.len() as int));
                let n = nodes_view(self.context.nodes@)[j];
                let n0 = old(self)@.nodes[j];
                assert forall|k: Seq<char>| n.children.contains_key(k) implies 0
                    <= #[trigger] n.children[k] < self.context.nodes@.len() by {
                    assert(n0.children.contains_key(k) && n.children[k] == n0.children[k]);
                };
            };
            assert(self@.wf());
        }
        success
    }
}

} // verus!
